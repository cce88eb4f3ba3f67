use svz::data_graph::DataGraph;
use svz::data_structures::{DataField, DataStructure, BASE_PADDING};
use svz::parser::{ParseError, Parser};
use svz::render::{Dot, RenderError};

fn names_of(g: &DataGraph) -> Vec<(String, Vec<String>)> {
    g.iter_all()
        .into_iter()
        .map(|(n, ts)| (n.to_string(), ts.into_iter().map(|t| t.to_string()).collect()))
        .collect()
}

#[test]
fn no_keyword_gives_no_structure() {
    assert!(Parser::parse_structures("").is_empty());
    assert!(Parser::parse_structures("int main(void) { return 0; }").is_empty());
    assert!(Parser::parse_structures("enum e { A, B };\nunion u { int x; };").is_empty());
}

#[test]
fn padding_grows_with_longest_type() {
    let mut st = DataStructure::new(Some("s"));
    assert_eq!(st.display_padding(), BASE_PADDING);
    st.add_field(DataField::new("unsigned_long", "a"));
    assert_eq!(st.display_padding(), 17);
    st.add_field(DataField::new("int", "b"));
    assert_eq!(st.display_padding(), 17);
    st.add_field(DataField::new("", "c"));
    assert_eq!(st.display_padding(), 17);
    for f in st.fields() {
        assert!(st.display_padding() >= f.field_type().len() + BASE_PADDING);
    }
}

#[test]
fn one_struct_two_fields() {
    let v = Parser::parse_structures("struct S { T1 f1; T2 f2; }");
    assert_eq!(v.len(), 1);
    assert_eq!(v[0].name(), Some("S"));
    assert_eq!(
        v[0].fields(),
        &vec![DataField::new("T1", "f1"), DataField::new("T2", "f2")]
    );
}

#[test]
fn typedef_form_matches_plain_form() {
    let (rest, st) = Parser::parse_struct("typedef struct S { int f; } S").unwrap();
    assert_eq!(rest, " S");
    let (plain_rest, plain) = Parser::parse_struct("struct S { int f; }").unwrap();
    assert_eq!(plain_rest, "");
    assert_eq!(st, plain);
    assert_eq!(st.fields(), &vec![DataField::new("int", "f")]);
    let all = Parser::parse_structures("typedef struct S { int f; } S");
    assert_eq!(all.len(), 1);
    assert_eq!(all[0], plain);
}

#[test]
fn self_reference_gives_self_loop() {
    let g = Parser::parse("struct Node { struct Node *next; }");
    assert_eq!(
        names_of(&g),
        vec![("Node".to_string(), vec!["Node".to_string()])]
    );
}

#[test]
fn one_way_reference_gives_one_edge() {
    let g = Parser::parse("struct A { B b; }\nstruct B { int x; }");
    assert_eq!(
        names_of(&g),
        vec![
            ("A".to_string(), vec!["B".to_string()]),
            ("B".to_string(), vec![]),
        ]
    );
}

#[test]
fn rendering_twice_is_identical() {
    let g = Parser::parse("struct A { struct B *b; } struct B { struct A a; int n; }");
    let first = g.to_dot().unwrap();
    let second = g.to_dot().unwrap();
    assert_eq!(first, second);
}

#[test]
fn rendering_is_framed_and_balanced() {
    let g = Parser::parse("struct ll_node { void *data; struct ll_node *next; }");
    let out = g.to_dot().unwrap();
    assert!(out.starts_with("digraph svz {"));
    assert!(out.ends_with('}'));
    for line in out.lines().filter(|l| l.contains("[label=")) {
        assert_eq!(line.matches('<').count(), line.matches('>').count());
    }
}

#[test]
fn pointers_collapse_and_arrays_stay() {
    let (_, many) = Parser::parse_field("char **** buffer").unwrap();
    let (_, one) = Parser::parse_field("char * buffer").unwrap();
    assert_eq!(many.field_type(), "char");
    assert_eq!(one.field_type(), "char");
    assert_eq!(many, one);
    let (_, arr) = Parser::parse_field("char[] buffer").unwrap();
    assert_eq!(arr.field_type(), "char[]");
    assert_eq!(arr.name(), "buffer");
}

#[test]
fn structure_dot_exact() {
    let mut st = DataStructure::new(Some("S"));
    st.add_field(DataField::new("int", "x"));
    st.add_field(DataField::new("size_t", "n"));
    assert_eq!(
        st.to_dot().unwrap(),
        "S [label=<<B>struct S</B>\
<BR ALIGN=\"LEFT\"/><FONT COLOR=\"purple\">int</FONT>       x\
<BR ALIGN=\"LEFT\"/><FONT COLOR=\"purple\">size_t</FONT>    n\
<BR ALIGN=\"LEFT\"/>>]"
    );
}

#[test]
fn graph_dot_exact() {
    let g = Parser::parse("struct A { struct B *b; }\nstruct B { int n; }");
    assert_eq!(
        g.to_dot().unwrap(),
        "digraph svz {\n\
A [label=<<B>struct A</B><BR ALIGN=\"LEFT\"/><FONT COLOR=\"purple\">B</FONT>    b<BR ALIGN=\"LEFT\"/>>]\n\
B [label=<<B>struct B</B><BR ALIGN=\"LEFT\"/><FONT COLOR=\"purple\">int</FONT>    n<BR ALIGN=\"LEFT\"/>>]\n\
A -> B;\n\
}"
    );
}

#[test]
fn empty_graph_dot() {
    let g = DataGraph::new();
    assert_eq!(g.to_dot().unwrap(), "digraph svz {\n}");
    assert!(g.iter_all().is_empty());
}

#[test]
fn anonymous_structure_is_not_rendered() {
    let st = DataStructure::new(None);
    assert_eq!(st.to_dot(), Err(RenderError::Anonymous));
}

#[test]
fn anonymous_and_duplicate_nodes_are_ignored() {
    let mut g = DataGraph::new();
    g.add_node(DataStructure::new(None));
    assert!(g.iter_all().is_empty());
    let mut first = DataStructure::new(Some("A"));
    first.add_field(DataField::new("int", "x"));
    g.add_node(first);
    g.add_node(DataStructure::new(Some("A")));
    assert_eq!(names_of(&g), vec![("A".to_string(), vec![])]);
    assert!(g.to_dot().unwrap().contains("int"));
}

#[test]
fn duplicate_edge_is_added_once() {
    let mut g = DataGraph::new();
    g.add_edge(DataStructure::new(Some("A")), DataStructure::new(Some("B")));
    g.add_edge(DataStructure::new(Some("A")), DataStructure::new(Some("B")));
    g.add_edge(DataStructure::new(Some("B")), DataStructure::new(Some("B")));
    g.add_edge(DataStructure::new(None), DataStructure::new(Some("C")));
    assert_eq!(
        names_of(&g),
        vec![
            ("A".to_string(), vec!["B".to_string()]),
            ("B".to_string(), vec!["B".to_string()]),
            ("C".to_string(), vec![]),
        ]
    );
    let out = g.to_dot().unwrap();
    assert_eq!(out.matches("A -> B;").count(), 1);
}

#[test]
fn two_fields_of_one_type_give_one_edge() {
    let g = Parser::parse(
        "struct ll_node { void *data; struct ll_node *next; struct ll_node *prev; }\n\
         struct list { size_t size; struct ll_node *head; struct ll_node *tail; }",
    );
    assert_eq!(
        names_of(&g),
        vec![
            ("ll_node".to_string(), vec!["ll_node".to_string()]),
            ("list".to_string(), vec!["ll_node".to_string()]),
        ]
    );
}

#[test]
fn build_keeps_first_of_each_name() {
    let mut a = DataStructure::new(Some("A"));
    a.add_field(DataField::new("A", "me"));
    let g = DataGraph::build(vec![a, DataStructure::new(Some("A")), DataStructure::new(None)]);
    assert_eq!(names_of(&g), vec![("A".to_string(), vec!["A".to_string()])]);
}

#[test]
fn malformed_declaration_is_skipped() {
    let v = Parser::parse_structures("struct A; struct B { int x; }");
    assert_eq!(v.len(), 1);
    assert_eq!(v[0].name(), Some("B"));
    let v = Parser::parse_structures("struct A { int x; ");
    assert!(v.is_empty());
}

#[test]
fn empty_block_and_bad_field() {
    let (_, e) = Parser::parse_struct("struct E {}").unwrap();
    assert_eq!(e.name(), Some("E"));
    assert!(e.fields().is_empty());
    let (_, p) = Parser::parse_struct("struct P { int a; int ; int c; }").unwrap();
    assert_eq!(p.fields(), &vec![DataField::new("int", "a")]);
}

#[test]
fn non_ascii_names() {
    let v = Parser::parse_structures("struct Größe { größe_t wert; }");
    assert_eq!(v.len(), 1);
    assert_eq!(v[0].name(), Some("Größe"));
    assert_eq!(v[0].fields(), &vec![DataField::new("größe_t", "wert")]);
    assert_eq!(v[0].display_padding(), "größe_t".len() + BASE_PADDING);
}

#[test]
fn token_errors() {
    assert_eq!(Parser::space("x"), Err(ParseError));
    assert_eq!(Parser::identifier(";"), Err(ParseError));
    assert_eq!(Parser::array("[12"), Err(ParseError));
    assert_eq!(Parser::pointer("x"), Err(ParseError));
    assert_eq!(Parser::struct_tok("stru"), Err(ParseError));
    assert_eq!(Parser::parse_struct("struct S"), Err(ParseError));
    assert_eq!(Parser::enum_tok("enum e"), Ok((" e", "enum")));
    assert_eq!(Parser::union_tok("union u"), Ok((" u", "union")));
}

#[test]
fn fields_contain_by_type() {
    let (_, st) = Parser::parse_struct("struct S { struct T *t; int n; }").unwrap();
    assert!(st.fields_contain("T"));
    assert!(st.fields_contain("int"));
    assert!(!st.fields_contain("n"));
}

#[test]
fn qualifier_needs_a_following_space() {
    assert_eq!(Parser::parse_type("structure x"), Ok(("x", "structure")));
    assert_eq!(Parser::parse_type("enum_kind k"), Ok(("k", "enum_kind")));
    assert_eq!(Parser::parse_type("union_find u"), Ok(("u", "union_find")));
    assert_eq!(Parser::parse_type("struct\tnode *n"), Ok(("n", "node")));
    assert_eq!(
        Parser::parse_field("structA * n"),
        Ok(("", DataField::new("structA", "n")))
    );
    assert_eq!(
        Parser::parse_field("struct struct_info *info"),
        Ok(("", DataField::new("struct_info", "info")))
    );
    let (rest, st) = Parser::parse_struct("struct S { structA f1; T2 f2; }").unwrap();
    assert_eq!(rest, "");
    assert_eq!(
        st.fields(),
        &vec![DataField::new("structA", "f1"), DataField::new("T2", "f2")]
    );
}

#[test]
fn edge_ends_are_nodes() {
    let g = Parser::parse("struct A { struct B *b; struct Missing *m; }\nstruct B { int n; }");
    let all = names_of(&g);
    let nodes: Vec<&String> = all.iter().map(|(n, _)| n).collect();
    for (_, ts) in &all {
        for t in ts {
            assert!(nodes.contains(&t));
        }
    }
    assert_eq!(all[0].1, vec!["B".to_string()]);
}
