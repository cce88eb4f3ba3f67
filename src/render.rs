//! Output in Graphviz's dot format: the `Dot` trait, and the text that each
//! part of the graph becomes.

use vstd::prelude::*;

use crate::data_structures::{byte_len, padding_of, FieldView, StructureView};

verus! {

/// A structure without a name cannot be a node.
#[derive(Clone, Copy, Debug, PartialEq, Eq)]
pub enum RenderError {
    Anonymous,
}

/// Values that can be written in the dot format.
pub trait Dot {
    /// The text of the value, or `None` where it cannot be written.
    spec fn dot_text(&self) -> Option<Seq<char>>;

    fn to_dot(&self) -> (r: Result<String, RenderError>)
        ensures
            match r {
                Ok(s) => self.dot_text() == Some(s@),
                Err(_) => self.dot_text() is None,
            },
    ;
}

/// `n` spaces.
pub open spec fn spaces(n: int) -> Seq<char> {
    Seq::new(n as nat, |i: int| ' ')
}

/// One field line of a node label: a line break, the type name in the
/// accent color, the padding, then the field's name.
pub open spec fn field_text(f: FieldView, pad: nat) -> Seq<char> {
    "<BR ALIGN=\"LEFT\"/>"@ + "<FONT COLOR=\"purple\">"@ + f.ty + "</FONT>"@ + spaces(
        pad - byte_len(f.ty),
    ) + f.name
}

/// The field lines of a node label, in order.
pub open spec fn fields_text(fs: Seq<FieldView>, pad: nat) -> Seq<char>
    decreases fs.len(),
{
    if fs.len() == 0 {
        Seq::empty()
    } else {
        fields_text(fs.drop_last(), pad) + field_text(fs.last(), pad)
    }
}

/// The node definition of a named structure.
pub open spec fn structure_text(v: StructureView) -> Seq<char> {
    let n = v.name->0;
    n + " [label=<<B>struct "@ + n + "</B>"@ + fields_text(v.fields, padding_of(v.fields))
        + "<BR ALIGN=\"LEFT\"/>>]"@
}

/// One line per node, in order.
pub open spec fn nodes_text(ns: Seq<StructureView>) -> Seq<char>
    decreases ns.len(),
{
    if ns.len() == 0 {
        Seq::empty()
    } else {
        nodes_text(ns.drop_last()) + structure_text(ns.last()) + "\n"@
    }
}

/// One line per edge, in order.
pub open spec fn edges_text(es: Seq<(Seq<char>, Seq<char>)>) -> Seq<char>
    decreases es.len(),
{
    if es.len() == 0 {
        Seq::empty()
    } else {
        edges_text(es.drop_last()) + es.last().0 + " -> "@ + es.last().1 + ";\n"@
    }
}

/// The whole digraph: the header, the nodes, the edges, the closing bracket.
pub open spec fn graph_text(nodes: Seq<StructureView>, edges: Seq<(Seq<char>, Seq<char>)>) -> Seq<
    char,
> {
    "digraph svz {\n"@ + nodes_text(nodes) + edges_text(edges) + "}"@
}

/// The text of every graph opens with `digraph svz {` and ends with `}`.
pub proof fn lemma_graph_text_frame(nodes: Seq<StructureView>, edges: Seq<(Seq<char>, Seq<char>)>)
    ensures
        graph_text(nodes, edges).len() >= 15,
        graph_text(nodes, edges).subrange(0, 13) == "digraph svz {"@,
        graph_text(nodes, edges).last() == '}',
{
    reveal_strlit("digraph svz {\n");
    reveal_strlit("digraph svz {");
    reveal_strlit("}");
    let t = graph_text(nodes, edges);
    let body = "digraph svz {\n"@ + nodes_text(nodes) + edges_text(edges);
    assert(t == body + "}"@);
    assert(t.subrange(0, 13) =~= "digraph svz {"@);
}

/// How many more `<` than `>` the text holds.
pub open spec fn angle_balance(s: Seq<char>) -> int
    decreases s.len(),
{
    if s.len() == 0 {
        0
    } else {
        angle_balance(s.drop_last()) + if s.last() == '<' {
            1int
        } else if s.last() == '>' {
            -1int
        } else {
            0int
        }
    }
}

/// Whether the text holds neither `<` nor `>`.
pub open spec fn angle_free(s: Seq<char>) -> bool {
    !s.contains('<') && !s.contains('>')
}

proof fn lemma_balance_concat(a: Seq<char>, b: Seq<char>)
    ensures
        angle_balance(a + b) == angle_balance(a) + angle_balance(b),
    decreases b.len(),
{
    if b.len() > 0 {
        assert((a + b).drop_last() =~= a + b.drop_last());
        lemma_balance_concat(a, b.drop_last());
    }
}

proof fn lemma_balance_free(s: Seq<char>)
    requires
        angle_free(s),
    ensures
        angle_balance(s) == 0,
    decreases s.len(),
{
    if s.len() > 0 {
        assert(!s.drop_last().contains('<')) by {
            if s.drop_last().contains('<') {
                let i = choose|i: int| 0 <= i < s.drop_last().len() && s.drop_last()[i] == '<';
                assert(s[i] == '<');
            }
        }
        assert(!s.drop_last().contains('>')) by {
            if s.drop_last().contains('>') {
                let i = choose|i: int| 0 <= i < s.drop_last().len() && s.drop_last()[i] == '>';
                assert(s[i] == '>');
            }
        }
        assert(s.last() != '<' && s.last() != '>') by {
            assert(s[s.len() - 1] == s.last());
        }
        lemma_balance_free(s.drop_last());
    }
}

proof fn lemma_balance_literals()
    ensures
        angle_balance("<BR ALIGN=\"LEFT\"/>"@) == 0,
        angle_balance("<FONT COLOR=\"purple\">"@) == 0,
        angle_balance("</FONT>"@) == 0,
        angle_balance(" [label=<<B>struct "@) == 1,
        angle_balance("</B>"@) == 0,
        angle_balance("<BR ALIGN=\"LEFT\"/>>]"@) == -1,
{
    reveal_strlit("<BR ALIGN=\"LEFT\"/>");
    reveal_strlit("<FONT COLOR=\"purple\">");
    reveal_strlit("</FONT>");
    reveal_strlit(" [label=<<B>struct ");
    reveal_strlit("</B>");
    reveal_strlit("<BR ALIGN=\"LEFT\"/>>]");
    reveal_with_fuel(angle_balance, 24);
}

proof fn lemma_fields_balanced(fs: Seq<FieldView>, pad: nat)
    requires
        forall|k: int|
            0 <= k < fs.len() ==> angle_free(#[trigger] fs[k].ty) && angle_free(fs[k].name),
    ensures
        angle_balance(fields_text(fs, pad)) == 0,
    decreases fs.len(),
{
    if fs.len() > 0 {
        let f = fs.last();
        assert(fs[fs.len() - 1] == f);
        lemma_fields_balanced(fs.drop_last(), pad);
        lemma_balance_literals();
        lemma_balance_free(f.ty);
        lemma_balance_free(f.name);
        let sp = spaces(pad - byte_len(f.ty));
        assert(!sp.contains('<') && !sp.contains('>'));
        lemma_balance_free(sp);
        let a = "<BR ALIGN=\"LEFT\"/>"@;
        let b = "<FONT COLOR=\"purple\">"@;
        let c = "</FONT>"@;
        lemma_balance_concat(a, b);
        lemma_balance_concat(a + b, f.ty);
        lemma_balance_concat(a + b + f.ty, c);
        lemma_balance_concat(a + b + f.ty + c, sp);
        lemma_balance_concat(a + b + f.ty + c + sp, f.name);
        lemma_balance_concat(fields_text(fs.drop_last(), pad), field_text(f, pad));
    }
}

/// A node label holds as many `<` as `>`, where the structure's name, type
/// names and field names hold neither.
pub proof fn lemma_structure_text_balanced(v: StructureView)
    requires
        v.name is Some,
        angle_free(v.name->0),
        forall|k: int|
            0 <= k < v.fields.len() ==> angle_free(#[trigger] v.fields[k].ty) && angle_free(
                v.fields[k].name,
            ),
    ensures
        angle_balance(structure_text(v)) == 0,
{
    let n = v.name->0;
    let a = " [label=<<B>struct "@;
    let b = "</B>"@;
    let f = fields_text(v.fields, padding_of(v.fields));
    let c = "<BR ALIGN=\"LEFT\"/>>]"@;
    lemma_balance_literals();
    lemma_balance_free(n);
    lemma_fields_balanced(v.fields, padding_of(v.fields));
    lemma_balance_concat(n, a);
    lemma_balance_concat(n + a, n);
    lemma_balance_concat(n + a + n, b);
    lemma_balance_concat(n + a + n + b, f);
    lemma_balance_concat(n + a + n + b + f, c);
}

proof fn lemma_free_concat(a: Seq<char>, b: Seq<char>, c: char)
    requires
        !a.contains(c),
        !b.contains(c),
    ensures
        !(a + b).contains(c),
{
    if (a + b).contains(c) {
        let i = choose|i: int| 0 <= i < (a + b).len() && (a + b)[i] == c;
        if i < a.len() {
            assert(a[i] == c);
        } else {
            assert(b[i - a.len()] == c);
        }
    }
}

proof fn lemma_literals_one_line()
    ensures
        !"<BR ALIGN=\"LEFT\"/>"@.contains('\n'),
        !"<FONT COLOR=\"purple\">"@.contains('\n'),
        !"</FONT>"@.contains('\n'),
        !" [label=<<B>struct "@.contains('\n'),
        !"</B>"@.contains('\n'),
        !"<BR ALIGN=\"LEFT\"/>>]"@.contains('\n'),
{
    reveal_strlit("<BR ALIGN=\"LEFT\"/>");
    reveal_strlit("<FONT COLOR=\"purple\">");
    reveal_strlit("</FONT>");
    reveal_strlit(" [label=<<B>struct ");
    reveal_strlit("</B>");
    reveal_strlit("<BR ALIGN=\"LEFT\"/>>]");
}

proof fn lemma_fields_one_line(fs: Seq<FieldView>, pad: nat)
    requires
        forall|k: int|
            0 <= k < fs.len() ==> !(#[trigger] fs[k].ty).contains('\n') && !fs[k].name.contains(
                '\n',
            ),
    ensures
        !fields_text(fs, pad).contains('\n'),
    decreases fs.len(),
{
    if fs.len() > 0 {
        let f = fs.last();
        assert(fs[fs.len() - 1] == f);
        lemma_fields_one_line(fs.drop_last(), pad);
        lemma_literals_one_line();
        let sp = spaces(pad - byte_len(f.ty));
        assert(!sp.contains('\n'));
        let a = "<BR ALIGN=\"LEFT\"/>"@;
        let b = "<FONT COLOR=\"purple\">"@;
        let c = "</FONT>"@;
        lemma_free_concat(a, b, '\n');
        lemma_free_concat(a + b, f.ty, '\n');
        lemma_free_concat(a + b + f.ty, c, '\n');
        lemma_free_concat(a + b + f.ty + c, sp, '\n');
        lemma_free_concat(a + b + f.ty + c + sp, f.name, '\n');
        lemma_free_concat(fields_text(fs.drop_last(), pad), field_text(f, pad), '\n');
    }
}

/// A node definition is one line of the digraph (each is followed by a
/// newline in `nodes_text`), where the structure's name, type names and
/// field names hold no newline.
pub proof fn lemma_structure_text_one_line(v: StructureView)
    requires
        v.name is Some,
        !(v.name->0).contains('\n'),
        forall|k: int|
            0 <= k < v.fields.len() ==> !(#[trigger] v.fields[k].ty).contains('\n')
                && !v.fields[k].name.contains('\n'),
    ensures
        !structure_text(v).contains('\n'),
{
    let n = v.name->0;
    let a = " [label=<<B>struct "@;
    let b = "</B>"@;
    let f = fields_text(v.fields, padding_of(v.fields));
    let c = "<BR ALIGN=\"LEFT\"/>>]"@;
    lemma_literals_one_line();
    lemma_fields_one_line(v.fields, padding_of(v.fields));
    lemma_free_concat(n, a, '\n');
    lemma_free_concat(n + a, n, '\n');
    lemma_free_concat(n + a + n, b, '\n');
    lemma_free_concat(n + a + n + b, f, '\n');
    lemma_free_concat(n + a + n + b + f, c, '\n');
}

} // verus!
