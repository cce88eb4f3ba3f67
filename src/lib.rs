//! Extracts C structure declarations from source text, links each structure
//! to the structures its fields name, and writes the result as a Graphviz
//! digraph.

pub mod data_structures;
pub mod text;
pub mod parser;
pub mod data_graph;
pub mod render;
