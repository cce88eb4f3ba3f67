//! The dependency graph: every named structure is a node, and an edge
//! `A -> B` says that a field of `A` has the type `B`.
//!
//! Edges are derived in one batch: `build` adds every structure, then makes
//! a single pass over every ordered pair of them. `add_node` and `add_edge`
//! let a caller build a graph by hand. Either way edges form a set (adding
//! an edge twice adds it once), a structure without a name is left out (it
//! has nothing to be referenced by), and the first structure of a name
//! stands for it.
//!
//! The edges live in a petgraph `GraphMap` whose nodes are positions in the
//! list of structures.

use petgraph::graphmap::GraphMap;
use petgraph::Directed;
use vstd::prelude::*;
use vstd::string::StringExecFns;

use crate::data_structures::{DataStructure, StructureView};
use crate::render::{edges_text, graph_text, nodes_text, structure_text, Dot, RenderError};
use crate::text::str_eq;

verus! {

/// petgraph's marker for directed graphs, carried through opaque.
#[verifier::external_type_specification]
#[verifier::external_body]
pub struct ExDirected(Directed);

/// petgraph's `GraphMap`, opaque: what it holds is known only through
/// `graph_nodes` and `graph_edges`.
#[verifier::external_type_specification]
#[verifier::external_body]
#[verifier::reject_recursive_types(N)]
#[verifier::reject_recursive_types(E)]
#[verifier::reject_recursive_types(Ty)]
#[verifier::reject_recursive_types(S)]
pub struct ExGraphMap<N, E, Ty, S: core::hash::BuildHasher>(GraphMap<N, E, Ty, S>);

/// The nodes of a graph map, in the order they were first added.
pub uninterp spec fn graph_nodes(g: GraphMap<usize, (), Directed>) -> Seq<usize>;

/// The edges of a graph map, in the order they were first added.
pub uninterp spec fn graph_edges(g: GraphMap<usize, (), Directed>) -> Seq<(usize, usize)>;

/// `s` with `x` appended, unless `s` already holds it.
pub open spec fn push_new<T>(s: Seq<T>, x: T) -> Seq<T> {
    if s.contains(x) {
        s
    } else {
        s.push(x)
    }
}

/// Relies on petgraph's `GraphMap::new`: a graph with no node and no edge.
#[verifier::external_body]
fn links_new() -> (g: GraphMap<usize, (), Directed>)
    ensures
        graph_nodes(g) == Seq::<usize>::empty(),
        graph_edges(g) == Seq::<(usize, usize)>::empty(),
{
    GraphMap::new()
}

/// Relies on petgraph's `GraphMap::add_node`: the node goes last in the
/// node order (an `IndexMap`), unless it is there already.
#[verifier::external_body]
fn links_add_node(g: &mut GraphMap<usize, (), Directed>, n: usize)
    ensures
        graph_nodes(*final(g)) == push_new(graph_nodes(*old(g)), n),
        graph_edges(*final(g)) == graph_edges(*old(g)),
{
    g.add_node(n);
}

/// Relies on petgraph's `GraphMap::add_edge`: a new edge goes last in the
/// edge order (an `IndexMap`) and adds its endpoints, `a` then `b`, where
/// they are missing; an edge that is there already keeps its place.
#[verifier::external_body]
fn links_add_edge(g: &mut GraphMap<usize, (), Directed>, a: usize, b: usize)
    ensures
        graph_edges(*final(g)) == push_new(graph_edges(*old(g)), (a, b)),
        graph_nodes(*final(g)) == if graph_edges(*old(g)).contains((a, b)) {
            graph_nodes(*old(g))
        } else {
            push_new(push_new(graph_nodes(*old(g)), a), b)
        },
{
    g.add_edge(a, b, ());
}

/// Relies on petgraph's `GraphMap::all_edges`, which walks the edge
/// `IndexMap` in its order.
#[verifier::external_body]
fn links_edges(g: &GraphMap<usize, (), Directed>) -> (r: Vec<(usize, usize)>)
    ensures
        r@ == graph_edges(*g),
{
    g.all_edges().map(|(a, b, _)| (a, b)).collect()
}

/// What a dependency graph is: its structures, and its edges as pairs of
/// structure names, both in the order they were added.
pub struct GraphView {
    pub nodes: Seq<StructureView>,
    pub edges: Seq<(Seq<char>, Seq<char>)>,
}

/// Whether `v` has a structure named `name`.
pub open spec fn has_node(v: GraphView, name: Seq<char>) -> bool {
    exists|i: int| 0 <= i < v.nodes.len() && #[trigger] v.nodes[i].name == Some(name)
}

/// Every edge joins two structures of the graph.
pub open spec fn edges_within(v: GraphView) -> bool {
    forall|k: int|
        0 <= k < v.edges.len() ==> has_node(v, (#[trigger] v.edges[k]).0) && has_node(
            v,
            v.edges[k].1,
        )
}

/// `v` with the structure `s` added, unless it has no name or its name is
/// taken.
pub open spec fn with_node(v: GraphView, s: StructureView) -> GraphView {
    match s.name {
        Some(n) => if has_node(v, n) {
            v
        } else {
            GraphView { nodes: v.nodes.push(s), edges: v.edges }
        },
        None => v,
    }
}

/// `v` with the edge `a -> b`, unless it is there already.
pub open spec fn with_edge(v: GraphView, a: Seq<char>, b: Seq<char>) -> GraphView {
    GraphView { nodes: v.nodes, edges: push_new(v.edges, (a, b)) }
}

/// Whether a field of `a` has the type that `b` names.
pub open spec fn references(a: StructureView, b: StructureView) -> bool {
    b.name is Some && exists|k: int|
        0 <= k < a.fields.len() && #[trigger] a.fields[k].ty == b.name->0
}

/// The graph with no structure.
pub open spec fn empty_graph() -> GraphView {
    GraphView { nodes: Seq::empty(), edges: Seq::empty() }
}

/// The structures of `s` added one by one.
pub open spec fn nodes_of(s: Seq<StructureView>) -> GraphView
    decreases s.len(),
{
    if s.len() == 0 {
        empty_graph()
    } else {
        with_node(nodes_of(s.drop_last()), s.last())
    }
}

/// `v` with the edges from its `i`-th node to each of its first `j` nodes
/// that the `i`-th references.
pub open spec fn row_edges(v: GraphView, i: int, j: int) -> GraphView
    decreases j,
{
    if j <= 0 {
        v
    } else {
        let w = row_edges(v, i, j - 1);
        if references(v.nodes[i], v.nodes[j - 1]) {
            with_edge(w, v.nodes[i].name->0, v.nodes[j - 1].name->0)
        } else {
            w
        }
    }
}

/// `v` with the edges out of each of its first `i` nodes.
pub open spec fn linked_upto(v: GraphView, i: int) -> GraphView
    decreases i,
{
    if i <= 0 {
        v
    } else {
        row_edges(linked_upto(v, i - 1), i - 1, v.nodes.len() as int)
    }
}

/// The dependency graph of a list of structures: the named ones, the first
/// of each name, with an edge `A -> B` wherever a field of `A` has the type
/// `B`; edges ordered by source, then by target, in node order.
pub open spec fn graph_of(s: Seq<StructureView>) -> GraphView {
    let v = nodes_of(s);
    linked_upto(v, v.nodes.len() as int)
}

/// The targets of the edges out of `a`, in edge order.
pub open spec fn targets(e: Seq<(Seq<char>, Seq<char>)>, a: Seq<char>) -> Seq<Seq<char>>
    decreases e.len(),
{
    if e.len() == 0 {
        Seq::empty()
    } else {
        let t = targets(e.drop_last(), a);
        if e.last().0 == a {
            t.push(e.last().1)
        } else {
            t
        }
    }
}

/// Adding edges leaves the nodes alone.
proof fn lemma_row_nodes(v: GraphView, i: int, j: int)
    ensures
        row_edges(v, i, j).nodes == v.nodes,
    decreases j,
{
    if j > 0 {
        lemma_row_nodes(v, i, j - 1);
    }
}

/// Adding edges leaves the nodes alone.
proof fn lemma_linked_nodes(v: GraphView, i: int)
    ensures
        linked_upto(v, i).nodes == v.nodes,
    decreases i,
{
    if i > 0 {
        lemma_linked_nodes(v, i - 1);
        lemma_row_nodes(linked_upto(v, i - 1), i - 1, v.nodes.len() as int);
    }
}

/// The names of the structures at the ends of an edge.
pub open spec fn edge_names(s: Seq<StructureView>, e: (usize, usize)) -> (Seq<char>, Seq<char>) {
    (s[e.0 as int].name->0, s[e.1 as int].name->0)
}

/// With distinct names, an edge between positions is there exactly when the
/// edge between their names is.
proof fn lemma_edge_names(s: Seq<StructureView>, e: Seq<(usize, usize)>, i: usize, j: usize)
    requires
        i < s.len(),
        j < s.len(),
        forall|x: int| 0 <= x < s.len() ==> (#[trigger] s[x]).name is Some,
        forall|x: int, y: int|
            0 <= x < s.len() && 0 <= y < s.len() && x != y ==> #[trigger] s[x].name != #[trigger] s[y].name,
        forall|k: int| 0 <= k < e.len() ==> (#[trigger] e[k]).0 < s.len() && e[k].1 < s.len(),
    ensures
        e.contains((i, j)) <==> e.map_values(|p: (usize, usize)| edge_names(s, p)).contains(
            edge_names(s, (i, j)),
        ),
{
    let m = e.map_values(|p: (usize, usize)| edge_names(s, p));
    if e.contains((i, j)) {
        let k = choose|k: int| 0 <= k < e.len() && e[k] == (i, j);
        assert(m[k] == edge_names(s, (i, j)));
    }
    if m.contains(edge_names(s, (i, j))) {
        let k = choose|k: int| 0 <= k < m.len() && m[k] == edge_names(s, (i, j));
        assert(s[e[k].0 as int].name == s[i as int].name);
        assert(s[e[k].1 as int].name == s[j as int].name);
        assert(e[k] == (i, j));
    }
}

/// Adding a structure keeps the names there and adds its own.
proof fn lemma_with_node_has(v: GraphView, s: StructureView)
    ensures
        s.name is Some ==> has_node(with_node(v, s), s.name->0),
        forall|x: Seq<char>| has_node(v, x) ==> #[trigger] has_node(with_node(v, s), x),
{
    if s.name is Some && !has_node(v, s.name->0) {
        assert(with_node(v, s).nodes[v.nodes.len() as int] == s);
    }
    assert forall|x: Seq<char>| has_node(v, x) implies #[trigger] has_node(with_node(v, s), x) by {
        let i = choose|i: int| 0 <= i < v.nodes.len() && #[trigger] v.nodes[i].name == Some(x);
        assert(with_node(v, s).nodes[i] == v.nodes[i]);
    }
}

/// Basic dependency graph.
pub struct DataGraph<'a> {
    structures: Vec<DataStructure<'a>>,
    data: GraphMap<usize, (), Directed>,
}

impl<'a> View for DataGraph<'a> {
    type V = GraphView;

    closed spec fn view(&self) -> GraphView {
        GraphView {
            nodes: self.structures@.map_values(|s: DataStructure<'a>| s@),
            edges: graph_edges(self.data).map_values(
                |e: (usize, usize)|
                    edge_names(self.structures@.map_values(|s: DataStructure<'a>| s@), e),
            ),
        }
    }
}

impl<'a> DataGraph<'a> {
    /// Every structure is named, no two share a name, the graph map's nodes
    /// are the positions of the structures, and its edges join them.
    #[verifier::type_invariant]
    closed spec fn inv(&self) -> bool {
        let n = self.structures@.len();
        &&& forall|i: int| 0 <= i < n ==> (#[trigger] self@.nodes[i]).name is Some
        &&& forall|i: int, j: int|
            0 <= i < n && 0 <= j < n && i != j ==> #[trigger] self@.nodes[i].name
                != #[trigger] self@.nodes[j].name
        &&& graph_nodes(self.data) == Seq::new(n, |i: int| i as usize)
        &&& forall|k: int|
            0 <= k < graph_edges(self.data).len() ==> (#[trigger] graph_edges(self.data)[k]).0 < n
                && graph_edges(self.data)[k].1 < n
    }

    proof fn lemma_edges_within(&self)
        requires
            self.inv(),
        ensures
            edges_within(self@),
    {
        let v = self@;
        assert forall|k: int| 0 <= k < v.edges.len() implies has_node(
            v,
            (#[trigger] v.edges[k]).0,
        ) && has_node(v, v.edges[k].1) by {
            let e = graph_edges(self.data)[k];
            assert(v.nodes[e.0 as int].name == Some(v.edges[k].0));
            assert(v.nodes[e.1 as int].name == Some(v.edges[k].1));
        }
    }

    /// Create a new empty graph.
    pub fn new() -> (r: DataGraph<'a>)
        ensures
            r@ == empty_graph(),
            edges_within(r@),
    {
        let data = links_new();
        assert(graph_nodes(data) =~= Seq::new(0, |i: int| i as usize));
        let r = DataGraph { structures: Vec::new(), data };
        proof {
            use_type_invariant(&r);
            r.lemma_edges_within();
        }
        assert(r@.nodes =~= Seq::<StructureView>::empty());
        assert(r@.edges =~= Seq::<(Seq<char>, Seq<char>)>::empty());
        r
    }

    /// The position of the structure named `name`.
    fn index_of(&self, name: &str) -> (r: Option<usize>)
        ensures
            match r {
                Some(i) => i < self@.nodes.len() && self@.nodes[i as int].name == Some(name@),
                None => !has_node(self@, name@),
            },
    {
        let mut i: usize = 0;
        while i < self.structures.len()
            invariant
                i <= self@.nodes.len(),
                self@.nodes.len() == self.structures@.len(),
                forall|k: int| 0 <= k < i ==> #[trigger] self@.nodes[k].name != Some(name@),
            decreases self.structures@.len() - i,
        {
            assert(self@.nodes[i as int] == self.structures@[i as int]@);
            match self.structures[i].name() {
                Some(n) => {
                    if str_eq(n, name) {
                        return Some(i);
                    }
                },
                None => {},
            }
            i = i + 1;
        }
        None
    }

    /// Add a structure with no edges, unless it has no name or a structure
    /// of that name is there already.
    pub fn add_node(&mut self, node: DataStructure<'a>)
        ensures
            final(self)@ == with_node(old(self)@, node@),
            edges_within(old(self)@),
            edges_within(final(self)@),
    {
        proof {
            use_type_invariant(&*self);
            self.lemma_edges_within();
        }
        let name = match node.name() {
            Some(n) => n,
            None => return ,
        };
        if self.index_of(name).is_some() {
            return ;
        }
        let mut taken = DataGraph::new();
        std::mem::swap(self, &mut taken);
        proof {
            use_type_invariant(&taken);
        }
        let ghost before = taken.structures@.map_values(|s: DataStructure<'a>| s@);
        let DataGraph { mut structures, mut data } = taken;
        let n = structures.len();
        links_add_node(&mut data, n);
        structures.push(node);
        proof {
            let after = structures@.map_values(|s: DataStructure<'a>| s@);
            assert(after =~= before.push(node@));
            assert(!Seq::new(n as nat, |i: int| i as usize).contains(n));
            assert(graph_nodes(data) =~= Seq::new((n + 1) as nat, |i: int| i as usize));
            let e = graph_edges(data);
            assert(e.map_values(|p: (usize, usize)| edge_names(after, p)) =~= e.map_values(
                |p: (usize, usize)| edge_names(before, p),
            ));
        }
        *self = DataGraph { structures, data };
        proof {
            use_type_invariant(&*self);
            self.lemma_edges_within();
        }
    }

    /// Add the edge between the structures at positions `i` and `j`.
    fn link(&mut self, i: usize, j: usize)
        requires
            i < old(self)@.nodes.len(),
            j < old(self)@.nodes.len(),
        ensures
            final(self)@ == with_edge(
                old(self)@,
                old(self)@.nodes[i as int].name->0,
                old(self)@.nodes[j as int].name->0,
            ),
    {
        let mut taken = DataGraph::new();
        std::mem::swap(self, &mut taken);
        proof {
            use_type_invariant(&taken);
        }
        let ghost nodes = taken.structures@.map_values(|s: DataStructure<'a>| s@);
        let ghost before = graph_edges(taken.data);
        let DataGraph { structures, mut data } = taken;
        proof {
            lemma_edge_names(nodes, before, i, j);
        }
        links_add_edge(&mut data, i, j);
        proof {
            let ef = graph_edges(data);
            let g = |p: (usize, usize)| edge_names(nodes, p);
            if !before.contains((i, j)) {
                assert(ef.map_values(g) =~= before.map_values(g).push(edge_names(nodes, (i, j))));
            }
            assert(graph_nodes(data) == Seq::new(nodes.len(), |k: int| k as usize)) by {
                if !before.contains((i, j)) {
                    assert(Seq::new(nodes.len(), |k: int| k as usize)[i as int] == i);
                    assert(Seq::new(nodes.len(), |k: int| k as usize)[j as int] == j);
                }
            }
        }
        *self = DataGraph { structures, data };
    }

    /// Add the edge `from -> to`, adding either structure first where it is
    /// missing. An edge that is there already is not added again; an edge
    /// with an unnamed end is not added.
    pub fn add_edge(&mut self, from: DataStructure<'a>, to: DataStructure<'a>)
        ensures
            final(self)@ == (match (from@.name, to@.name) {
                (Some(a), Some(b)) => with_edge(
                    with_node(with_node(old(self)@, from@), to@),
                    a,
                    b,
                ),
                _ => with_node(with_node(old(self)@, from@), to@),
            }),
            edges_within(old(self)@),
            edges_within(final(self)@),
    {
        proof {
            use_type_invariant(&*self);
            self.lemma_edges_within();
        }
        let a = from.name();
        let b = to.name();
        let ghost v0 = self@;
        let ghost f = from@;
        let ghost t = to@;
        self.add_node(from);
        self.add_node(to);
        proof {
            lemma_with_node_has(v0, f);
            lemma_with_node_has(with_node(v0, f), t);
        }
        if let (Some(a), Some(b)) = (a, b) {
            let i = self.index_of(a);
            let j = self.index_of(b);
            if let (Some(i), Some(j)) = (i, j) {
                self.link(i, j);
            }
        }
        proof {
            use_type_invariant(&*self);
            self.lemma_edges_within();
        }
    }

    /// The dependency graph of `structures`, built in one pass over every
    /// ordered pair of them once they are all added: the named ones, the
    /// first of each name, with an edge `A -> B` wherever a field of `A` has
    /// the type `B`.
    pub fn build(structures: Vec<DataStructure<'a>>) -> (r: DataGraph<'a>)
        ensures
            r@ == graph_of(structures@.map_values(|s: DataStructure<'a>| s@)),
            edges_within(r@),
    {
        let ghost orig = structures@.map_values(|s: DataStructure<'a>| s@);
        let mut structures = structures;
        let mut rev: Vec<DataStructure<'a>> = Vec::new();
        while structures.len() > 0
            invariant
                structures@.len() + rev@.len() == orig.len(),
                forall|k: int| 0 <= k < structures@.len() ==> #[trigger] structures@[k]@ == orig[k],
                forall|k: int|
                    0 <= k < rev@.len() ==> #[trigger] rev@[k]@ == orig[orig.len() - 1 - k],
            decreases structures@.len(),
        {
            match structures.pop() {
                Some(s) => rev.push(s),
                None => {},
            }
        }
        let mut g = DataGraph::new();
        while rev.len() > 0
            invariant
                rev@.len() <= orig.len(),
                forall|k: int|
                    0 <= k < rev@.len() ==> #[trigger] rev@[k]@ == orig[orig.len() - 1 - k],
                g@ == nodes_of(orig.subrange(0, orig.len() - rev@.len())),
            decreases rev@.len(),
        {
            let ghost m = orig.len() - rev@.len();
            match rev.pop() {
                Some(s) => {
                    g.add_node(s);
                    assert(orig.subrange(0, m + 1).drop_last() =~= orig.subrange(0, m));
                },
                None => {},
            }
        }
        assert(orig.subrange(0, orig.len() as int) =~= orig);
        let ghost v = g@;
        let n = g.structures.len();
        let mut i: usize = 0;
        while i < n
            invariant
                n == v.nodes.len(),
                i <= n,
                g@ == linked_upto(v, i as int),
            decreases n - i,
        {
            proof {
                lemma_linked_nodes(v, i as int);
            }
            let ghost w = g@;
            let mut j: usize = 0;
            while j < n
                invariant
                    n == v.nodes.len(),
                    i < n,
                    j <= n,
                    w.nodes == v.nodes,
                    g@ == row_edges(w, i as int, j as int),
                    g@.nodes == v.nodes,
                decreases n - j,
            {
                proof {
                    use_type_invariant(&g);
                }
                assert(g.structures@[j as int]@ == g@.nodes[j as int]);
                assert(g.structures@[i as int]@ == g@.nodes[i as int]);
                if let Some(nj) = g.structures[j].name() {
                    if g.structures[i].fields_contain(nj) {
                        g.link(i, j);
                    }
                }
                j = j + 1;
            }
            i = i + 1;
        }
        proof {
            use_type_invariant(&g);
            g.lemma_edges_within();
        }
        g
    }

    /// Each structure's name with the names of the structures it references,
    /// in edge order.
    pub fn iter_all(&self) -> (r: Vec<(&'a str, Vec<&'a str>)>)
        ensures
            r@.len() == self@.nodes.len(),
            forall|i: int|
                0 <= i < r@.len() ==> Some((#[trigger] r@[i]).0@) == self@.nodes[i].name
                    && r@[i].1@.map_values(|t: &'a str| t@) == targets(
                    self@.edges,
                    self@.nodes[i].name->0,
                ),
    {
        proof {
            use_type_invariant(self);
        }
        let edges = links_edges(&self.data);
        let ghost nodes = self@.nodes;
        let ghost ev = self@.edges;
        let mut out: Vec<(&'a str, Vec<&'a str>)> = Vec::new();
        let mut i: usize = 0;
        while i < self.structures.len()
            invariant
                i <= nodes.len(),
                nodes.len() == self.structures@.len(),
                nodes == self@.nodes,
                ev == self@.edges,
                edges@ == graph_edges(self.data),
                out@.len() == i,
                forall|x: int|
                    0 <= x < i ==> Some((#[trigger] out@[x]).0@) == nodes[x].name
                        && out@[x].1@.map_values(|t: &'a str| t@) == targets(ev, nodes[x].name->0),
            decreases nodes.len() - i,
        {
            proof {
                use_type_invariant(self);
            }
            assert(self.structures@[i as int]@ == nodes[i as int]);
            let name = match self.structures[i].name() {
                Some(n) => n,
                None => {
                    assert(false);
                    ""
                },
            };
            let mut ts: Vec<&'a str> = Vec::new();
            let mut k: usize = 0;
            while k < edges.len()
                invariant
                    i < nodes.len(),
                    nodes.len() == self.structures@.len(),
                    nodes == self@.nodes,
                    ev == self@.edges,
                    edges@ == graph_edges(self.data),
                    name@ == nodes[i as int].name->0,
                    k <= edges@.len(),
                    ts@.map_values(|t: &'a str| t@) == targets(ev.subrange(0, k as int), name@),
                decreases edges@.len() - k,
            {
                let (a, b) = edges[k];
                proof {
                    use_type_invariant(self);
                    assert(graph_edges(self.data)[k as int] == (a, b));
                    assert(ev.subrange(0, k + 1).drop_last() =~= ev.subrange(0, k as int));
                    assert(ev[k as int] == edge_names(nodes, (a, b)));
                    assert(self.structures@[b as int]@ == nodes[b as int]);
                    if a != i {
                        assert(nodes[a as int].name != nodes[i as int].name);
                    }
                }
                if a == i {
                    match self.structures[b].name() {
                        Some(t) => {
                            let ghost before = ts@;
                            ts.push(t);
                            assert(ts@.map_values(|t: &'a str| t@) =~= before.map_values(
                                |t: &'a str| t@,
                            ).push(t@));
                        },
                        None => {},
                    }
                }
                k = k + 1;
            }
            assert(ev.subrange(0, edges@.len() as int) =~= ev);
            out.push((name, ts));
            i = i + 1;
        }
        out
    }
}

/// Rendering a graph twice gives the same text: the text is a function of
/// the graph alone.
pub proof fn lemma_render_deterministic(g: &DataGraph, first: Seq<char>, second: Seq<char>)
    requires
        g.dot_text() == Some(first),
        g.dot_text() == Some(second),
    ensures
        first == second,
{
}

impl<'a> Dot for DataGraph<'a> {
    open spec fn dot_text(&self) -> Option<Seq<char>> {
        Some(graph_text(self@.nodes, self@.edges))
    }

    /// The digraph: a line per structure, in the order they were added,
    /// then a line per edge, in the order they were added.
    fn to_dot(&self) -> (r: Result<String, RenderError>) {
        proof {
            use_type_invariant(self);
        }
        let ghost nodes = self@.nodes;
        let ghost ev = self@.edges;
        let mut out = String::new();
        out.append("digraph svz {\n");
        let mut i: usize = 0;
        while i < self.structures.len()
            invariant
                i <= nodes.len(),
                nodes.len() == self.structures@.len(),
                nodes == self@.nodes,
                out@ == "digraph svz {\n"@ + nodes_text(nodes.subrange(0, i as int)),
            decreases nodes.len() - i,
        {
            proof {
                use_type_invariant(self);
            }
            assert(self.structures@[i as int]@ == nodes[i as int]);
            match self.structures[i].to_dot() {
                Ok(line) => {
                    out.append(line.as_str());
                },
                Err(_) => {},
            }
            out.append("\n");
            assert(nodes.subrange(0, i + 1).drop_last() =~= nodes.subrange(0, i as int));
            assert(out@ =~= "digraph svz {\n"@ + nodes_text(nodes.subrange(0, i + 1)));
            i = i + 1;
        }
        assert(nodes.subrange(0, nodes.len() as int) =~= nodes);
        let ghost head = out@;
        let edges = links_edges(&self.data);
        let mut k: usize = 0;
        while k < edges.len()
            invariant
                nodes.len() == self.structures@.len(),
                nodes == self@.nodes,
                ev == self@.edges,
                edges@ == graph_edges(self.data),
                k <= edges@.len(),
                out@ == head + edges_text(ev.subrange(0, k as int)),
            decreases edges@.len() - k,
        {
            proof {
                use_type_invariant(self);
            }
            let (a, b) = edges[k];
            assert(graph_edges(self.data)[k as int] == (a, b));
            assert(self.structures@[a as int]@ == nodes[a as int]);
            assert(self.structures@[b as int]@ == nodes[b as int]);
            match self.structures[a].name() {
                Some(n) => out.append(n),
                None => {},
            }
            out.append(" -> ");
            match self.structures[b].name() {
                Some(n) => out.append(n),
                None => {},
            }
            out.append(";\n");
            assert(ev.subrange(0, k + 1).drop_last() =~= ev.subrange(0, k as int));
            assert(out@ =~= head + edges_text(ev.subrange(0, k + 1)));
            k = k + 1;
        }
        assert(ev.subrange(0, edges@.len() as int) =~= ev);
        out.append("}");
        assert(out@ =~= graph_text(nodes, ev));
        Ok(out)
    }
}

} // verus!
