//! A tolerant parser that extracts structure declarations from C source
//! text.
//!
//! The grammar is stated over the UTF-8 bytes of the text: every byte that
//! the grammar tests is ASCII, so each cut falls between two characters.

use vstd::prelude::*;
use vstd::string::StringSliceAdditionalSpecFns;
use vstd::utf8::*;

use crate::data_graph::{edges_within, graph_of, DataGraph};
use crate::data_structures::{DataField, DataStructure, FieldView, StructureView};
use crate::text::{find, find_from, in_class_exec, lemma_find_from, occurs_at, run_end, run_len, split, Class, in_class};

verus! {

broadcast use {encode_utf8_decode_utf8, encode_utf8_valid_utf8};

/// The input did not match what the parser expected.
#[derive(Clone, Copy, Debug, PartialEq, Eq)]
pub struct ParseError;

/// What a parser returns: the input left after it, and what it read.
pub type PResult<'a, T> = Result<(&'a str, T), ParseError>;

/// The bytes of `typedef`.
pub open spec fn kw_typedef() -> Seq<u8> {
    seq![116u8, 121u8, 112u8, 101u8, 100u8, 101u8, 102u8]
}

/// The bytes of `struct`.
pub open spec fn kw_struct() -> Seq<u8> {
    seq![115u8, 116u8, 114u8, 117u8, 99u8, 116u8]
}

/// The bytes of `enum`.
pub open spec fn kw_enum() -> Seq<u8> {
    seq![101u8, 110u8, 117u8, 109u8]
}

/// The bytes of `union`.
pub open spec fn kw_union() -> Seq<u8> {
    seq![117u8, 110u8, 105u8, 111u8, 110u8]
}

/// The bytes of `[]`, the marker that stands for any array suffix.
pub open spec fn array_marker() -> Seq<u8> {
    seq![91u8, 93u8]
}

/// A field as the grammar reads it: the bytes of its type and of its name.
pub struct FieldBytes {
    pub ty: Seq<u8>,
    pub name: Seq<u8>,
}

/// A structure as the grammar reads it.
pub struct StructBytes {
    pub name: Option<Seq<u8>>,
    pub fields: Seq<FieldBytes>,
}

/// A field's bytes as the grammar reads them.
pub open spec fn field_bytes(f: FieldView) -> FieldBytes {
    FieldBytes { ty: encode_utf8(f.ty), name: encode_utf8(f.name) }
}

/// A structure's bytes as the grammar reads them.
pub open spec fn structure_bytes(v: StructureView) -> StructBytes {
    StructBytes {
        name: match v.name {
            Some(n) => Some(encode_utf8(n)),
            None => None,
        },
        fields: v.fields.map_values(|f: FieldView| field_bytes(f)),
    }
}

/// A non-empty run of bytes of class `c`: what is left, and the run.
pub open spec fn take1(s: Seq<u8>, c: Class) -> Option<(Seq<u8>, Seq<u8>)> {
    let k = run_end(s, c, 0);
    if k == 0 {
        None
    } else {
        Some((s.subrange(k, s.len() as int), s.subrange(0, k)))
    }
}

/// The literal `t` at the start of `s`.
pub open spec fn tag(s: Seq<u8>, t: Seq<u8>) -> Option<(Seq<u8>, Seq<u8>)> {
    if t.len() <= s.len() && s.subrange(0, t.len() as int) == t {
        Some((s.subrange(t.len() as int, s.len() as int), t))
    } else {
        None
    }
}

/// The keyword `t` at the start of `s`, where a space, tab or newline
/// follows it: a longer word that merely begins with `t` is no keyword.
pub open spec fn keyword(s: Seq<u8>, t: Seq<u8>) -> Option<(Seq<u8>, Seq<u8>)> {
    match tag(s, t) {
        Some((r, k)) => if r.len() > 0 && in_class(r[0], Class::Space) {
            Some((r, k))
        } else {
            None
        },
        None => None,
    }
}

/// What is left after an optional parse: the rest if it matched, else `s`.
pub open spec fn rest_or<T>(m: Option<(Seq<u8>, T)>, s: Seq<u8>) -> Seq<u8> {
    match m {
        Some(p) => p.0,
        None => s,
    }
}

/// `[`, anything up to the first `]`, `]`, then blanks; read as `[]`.
pub open spec fn spec_array(s: Seq<u8>) -> Option<(Seq<u8>, Seq<u8>)> {
    if s.len() > 0 && s[0] == 91 {
        match find_from(s, seq![93u8], 1) {
            Some(j) => {
                let k = run_end(s, Class::Blank, j + 1);
                Some((s.subrange(k, s.len() as int), array_marker()))
            },
            None => None,
        }
    } else {
        None
    }
}

/// Pointer stars (with blanks between them), or else an array suffix.
pub open spec fn spec_pointer(s: Seq<u8>) -> Option<(Seq<u8>, Seq<u8>)> {
    match take1(s, Class::Star) {
        Some(p) => Some(p),
        None => spec_array(s),
    }
}

/// A field's type: optional `enum`, `union`, `struct` keywords, optional spaces, an
/// identifier (the type name), then optional pointer or array notation.
pub open spec fn spec_type(s: Seq<u8>) -> Option<(Seq<u8>, Seq<u8>)> {
    let s1 = rest_or(keyword(s, kw_enum()), s);
    let s2 = rest_or(keyword(s1, kw_union()), s1);
    let s3 = rest_or(keyword(s2, kw_struct()), s2);
    let s4 = rest_or(take1(s3, Class::Space), s3);
    match take1(s4, Class::Ident) {
        Some((s5, name)) => Some((rest_or(spec_pointer(s5), s5), name)),
        None => None,
    }
}

/// A field: its type, optional spaces, then its name.
pub open spec fn spec_field(s: Seq<u8>) -> Option<(Seq<u8>, FieldBytes)> {
    match spec_type(s) {
        Some((s1, ty)) => {
            let s2 = rest_or(take1(s1, Class::Space), s1);
            match take1(s2, Class::Ident) {
                Some((s3, name)) => Some((s3, FieldBytes { ty, name })),
                None => None,
            }
        },
        None => None,
    }
}

/// A field declaration inside a block: spaces, a field, `;`, spaces.
pub open spec fn spec_field_decl(s: Seq<u8>) -> Option<(Seq<u8>, FieldBytes)> {
    let s1 = rest_or(take1(s, Class::Space), s);
    match spec_field(s1) {
        Some((s2, f)) => if s2.len() > 0 && s2[0] == 59 {
            let s3 = s2.subrange(1, s2.len() as int);
            Some((rest_or(take1(s3, Class::Space), s3), f))
        } else {
            None
        },
        None => None,
    }
}

/// The field declarations at the start of a block, up to the first one that
/// does not parse.
pub open spec fn spec_fields(s: Seq<u8>) -> Seq<FieldBytes>
    decreases s.len(),
{
    match spec_field_decl(s) {
        Some((r, f)) => if r.len() < s.len() {
            seq![f] + spec_fields(r)
        } else {
            seq![f]
        },
        None => seq![],
    }
}

/// The head of a structure declaration: optional `typedef`, optional
/// `struct`, an optional name, each followed by optional spaces. Gives the
/// name, if any, and what follows the head.
pub open spec fn spec_head(s: Seq<u8>) -> (Option<Seq<u8>>, Seq<u8>) {
    let s1 = rest_or(keyword(s, kw_typedef()), s);
    let s2 = rest_or(take1(s1, Class::Space), s1);
    let s3 = rest_or(keyword(s2, kw_struct()), s2);
    let s4 = rest_or(take1(s3, Class::Space), s3);
    let name = take1(s4, Class::Ident);
    let s5 = rest_or(name, s4);
    let s6 = rest_or(take1(s5, Class::Space), s5);
    (
        match name {
            Some(p) => Some(p.1),
            None => None,
        },
        s6,
    )
}

/// A block from `{` to the first `}`: what follows it, and what is inside.
pub open spec fn spec_block(s: Seq<u8>) -> Option<(Seq<u8>, Seq<u8>)> {
    if s.len() > 0 && s[0] == 123 {
        match find_from(s, seq![125u8], 1) {
            Some(j) => Some((s.subrange(j + 1, s.len() as int), s.subrange(1, j))),
            None => None,
        }
    } else {
        None
    }
}

/// A structure declaration: its head, then a block of field declarations.
pub open spec fn spec_struct(s: Seq<u8>) -> Option<(Seq<u8>, StructBytes)> {
    let (name, s6) = spec_head(s);
    match spec_block(s6) {
        Some((rest, body)) => Some((rest, StructBytes { name, fields: spec_fields(body) })),
        None => None,
    }
}

/// Where the next `typedef` or `struct` starts, whichever comes first.
pub open spec fn next_keyword(s: Seq<u8>) -> Option<int> {
    match (find_from(s, kw_typedef(), 0), find_from(s, kw_struct(), 0)) {
        (Some(a), Some(b)) => Some(if a <= b { a } else { b }),
        (Some(a), None) => Some(a),
        (None, Some(b)) => Some(b),
        (None, None) => None,
    }
}

/// Every structure declaration of the text, in order. Text before each
/// `typedef` or `struct` is skipped; a declaration that does not parse is
/// skipped too, and the search goes on one byte after where it started.
pub open spec fn spec_structures(s: Seq<u8>) -> Seq<StructBytes>
    decreases s.len(),
{
    match next_keyword(s) {
        None => seq![],
        Some(p) => {
            let t = s.subrange(p, s.len() as int);
            match spec_struct(t) {
                Some((r, st)) => if r.len() < s.len() {
                    seq![st] + spec_structures(r)
                } else {
                    seq![st]
                },
                None => if 0 <= p < s.len() {
                    spec_structures(s.subrange(p + 1, s.len() as int))
                } else {
                    seq![]
                },
            }
        },
    }
}

/// `r` is what the grammar's `m` gives: the same rest and the same token.
pub open spec fn agrees<'a>(r: PResult<'a, &'a str>, m: Option<(Seq<u8>, Seq<u8>)>) -> bool {
    match r {
        Ok((rest, tok)) => m == Some((rest.spec_bytes(), tok.spec_bytes())),
        Err(_) => m is None,
    }
}

/// A parse that succeeded left no more input than it was given.
pub open spec fn shrinks<'a, T>(r: PResult<'a, T>, input: &str) -> bool {
    r matches Ok((rest, _)) ==> rest.spec_bytes().len() <= input.spec_bytes().len()
}

/// Entry point of the parser.
pub struct Parser;

impl Parser {
    /// A non-empty run of bytes of class `c`.
    fn run<'a>(input: &'a str, c: Class) -> (r: PResult<'a, &'a str>)
        ensures
            agrees(r, take1(input.spec_bytes(), c)),
            r matches Ok((rest, t)) ==> t.spec_bytes().len() + rest.spec_bytes().len()
                == input.spec_bytes().len() && t.spec_bytes().len() > 0,
    {
        let k = run_len(input, c);
        if k == 0 {
            return Err(ParseError);
        }
        proof {
            assert(in_class(input.spec_bytes()[k - 1], c));
        }
        let (tok, rest) = split(input, k);
        Ok((rest, tok))
    }

    /// The literal `t` (ASCII, not empty) at the start of `input`.
    fn tok<'a>(input: &'a str, t: &'a str) -> (r: PResult<'a, &'a str>)
        requires
            t.spec_bytes().len() > 0,
            forall|i: int| 0 <= i < t.spec_bytes().len() ==> #[trigger] t.spec_bytes()[i] < 128,
        ensures
            agrees(r, tag(input.spec_bytes(), t.spec_bytes())),
            shrinks(r, input),
    {
        let b = input.as_bytes();
        let p = t.as_bytes();
        if p.len() > b.len() {
            return Err(ParseError);
        }
        let mut i: usize = 0;
        while i < p.len()
            invariant
                b@ == input.spec_bytes(),
                p@ == t.spec_bytes(),
                p@.len() <= b@.len(),
                i <= p@.len(),
                forall|j: int| 0 <= j < i ==> b@[j] == p@[j],
            decreases p@.len() - i,
        {
            if b[i] != p[i] {
                proof {
                    assert(b@.subrange(0, p@.len() as int)[i as int] != p@[i as int]);
                }
                return Err(ParseError);
            }
            i = i + 1;
        }
        proof {
            assert(b@.subrange(0, p@.len() as int) =~= p@);
            assert(b@[p@.len() - 1] < 128);
        }
        let (_, rest) = split(input, p.len());
        Ok((rest, t))
    }

    /// Whether `s` starts with a space, tab or newline.
    fn starts_with_space(s: &str) -> (r: bool)
        ensures
            r == (s.spec_bytes().len() > 0 && in_class(s.spec_bytes()[0], Class::Space)),
    {
        let b = s.as_bytes();
        b.len() > 0 && in_class_exec(b[0], Class::Space)
    }

    /// The keyword `typedef`.
    pub fn typedef_tok<'a>(input: &'a str) -> (r: PResult<'a, &'a str>)
        ensures
            agrees(r, tag(input.spec_bytes(), kw_typedef())),
            shrinks(r, input),
    {
        proof {
            reveal_strlit("typedef");
            is_ascii_chars_encode_utf8("typedef"@);
            assert("typedef".spec_bytes() =~= kw_typedef());
        }
        Parser::tok(input, "typedef")
    }

    /// The keyword `struct`.
    pub fn struct_tok<'a>(input: &'a str) -> (r: PResult<'a, &'a str>)
        ensures
            agrees(r, tag(input.spec_bytes(), kw_struct())),
            shrinks(r, input),
    {
        proof {
            reveal_strlit("struct");
            is_ascii_chars_encode_utf8("struct"@);
            assert("struct".spec_bytes() =~= kw_struct());
        }
        Parser::tok(input, "struct")
    }

    /// The keyword `enum`.
    pub fn enum_tok<'a>(input: &'a str) -> (r: PResult<'a, &'a str>)
        ensures
            agrees(r, tag(input.spec_bytes(), kw_enum())),
            shrinks(r, input),
    {
        proof {
            reveal_strlit("enum");
            is_ascii_chars_encode_utf8("enum"@);
            assert("enum".spec_bytes() =~= kw_enum());
        }
        Parser::tok(input, "enum")
    }

    /// The keyword `union`.
    pub fn union_tok<'a>(input: &'a str) -> (r: PResult<'a, &'a str>)
        ensures
            agrees(r, tag(input.spec_bytes(), kw_union())),
            shrinks(r, input),
    {
        proof {
            reveal_strlit("union");
            is_ascii_chars_encode_utf8("union"@);
            assert("union".spec_bytes() =~= kw_union());
        }
        Parser::tok(input, "union")
    }

    /// A non-empty run of spaces, tabs and newlines.
    pub fn space<'a>(input: &'a str) -> (r: PResult<'a, &'a str>)
        ensures
            agrees(r, take1(input.spec_bytes(), Class::Space)),
            shrinks(r, input),
    {
        Parser::run(input, Class::Space)
    }

    /// A non-empty run of bytes other than spaces, tabs, `;` and newlines.
    pub fn identifier<'a>(input: &'a str) -> (r: PResult<'a, &'a str>)
        ensures
            agrees(r, take1(input.spec_bytes(), Class::Ident)),
            r matches Ok((rest, t)) ==> t.spec_bytes().len() + rest.spec_bytes().len()
                == input.spec_bytes().len() && t.spec_bytes().len() > 0,
    {
        Parser::run(input, Class::Ident)
    }

    /// A non-empty run of `*`, spaces and tabs.
    pub fn asterisks<'a>(input: &'a str) -> (r: PResult<'a, &'a str>)
        ensures
            agrees(r, take1(input.spec_bytes(), Class::Star)),
            shrinks(r, input),
    {
        Parser::run(input, Class::Star)
    }

    /// An array suffix `[...]` and the blanks after it, read as `[]`.
    pub fn array<'a>(input: &'a str) -> (r: PResult<'a, &'a str>)
        ensures
            agrees(r, spec_array(input.spec_bytes())),
            shrinks(r, input),
    {
        let b = input.as_bytes();
        if b.len() == 0 || b[0] != 91 {
            return Err(ParseError);
        }
        let close: [u8; 1] = [93];
        let found = find(input, &close, 1);
        proof {
            assert(close@ =~= seq![93u8]);
        }
        match found {
            None => Err(ParseError),
            Some(j) => {
                proof {
                    let s = input.spec_bytes();
                    lemma_find_from(s, seq![93u8], 1);
                    occurs_at_one(s, j as int);
                }
                let (_, after) = split(input, j + 1);
                let k = run_len(after, Class::Blank);
                proof {
                    lemma_run_end_shift(input.spec_bytes(), Class::Blank, j + 1);
                }
                let (_, rest) = split(after, k);
                proof {
                    reveal_strlit("[]");
                    is_ascii_chars_encode_utf8("[]"@);
                    assert("[]".spec_bytes() =~= array_marker());
                    assert(rest.spec_bytes() =~= input.spec_bytes().subrange(
                        j + 1 + k,
                        input.spec_bytes().len() as int,
                    ));
                }
                Ok((rest, "[]"))
            },
        }
    }

    /// Pointer stars, or else an array suffix.
    pub fn pointer<'a>(input: &'a str) -> (r: PResult<'a, &'a str>)
        ensures
            agrees(r, spec_pointer(input.spec_bytes())),
            shrinks(r, input),
    {
        match Parser::asterisks(input) {
            Ok(p) => Ok(p),
            Err(_) => Parser::array(input),
        }
    }

    /// A field's type name, with its qualifier and pointer notation dropped.
    /// `enum`, `union` or `struct` counts as a qualifier only where a space,
    /// tab or newline follows it: `structure` is a type name.
    pub fn parse_type<'a>(input: &'a str) -> (r: PResult<'a, &'a str>)
        ensures
            agrees(r, spec_type(input.spec_bytes())),
            r matches Ok((rest, t)) ==> t.spec_bytes().len() + rest.spec_bytes().len()
                <= input.spec_bytes().len(),
    {
        let s1 = match Parser::enum_tok(input) {
            Ok((rest, _)) if Parser::starts_with_space(rest) => rest,
            Ok(_) => input,
            Err(_) => input,
        };
        let s2 = match Parser::union_tok(s1) {
            Ok((rest, _)) if Parser::starts_with_space(rest) => rest,
            Ok(_) => s1,
            Err(_) => s1,
        };
        let s3 = match Parser::struct_tok(s2) {
            Ok((rest, _)) if Parser::starts_with_space(rest) => rest,
            Ok(_) => s2,
            Err(_) => s2,
        };
        let s4 = match Parser::space(s3) {
            Ok((rest, _)) => rest,
            Err(_) => s3,
        };
        match Parser::identifier(s4) {
            Err(e) => Err(e),
            Ok((s5, name)) => {
                let s6 = match Parser::pointer(s5) {
                    Ok((rest, _)) => rest,
                    Err(_) => s5,
                };
                Ok((s6, name))
            },
        }
    }

    /// A field: its type, then its name.
    pub fn parse_field<'a>(input: &'a str) -> (r: PResult<'a, DataField<'a>>)
        ensures
            match r {
                Ok((rest, f)) => spec_field(input.spec_bytes()) == Some(
                    (rest.spec_bytes(), field_bytes(f@)),
                ),
                Err(_) => spec_field(input.spec_bytes()) is None,
            },
            r matches Ok((rest, f)) ==> encode_utf8(f@.ty).len() + rest.spec_bytes().len() + 1
                <= input.spec_bytes().len(),
    {
        let (s1, ty) = match Parser::parse_type(input) {
            Ok(p) => p,
            Err(e) => return Err(e),
        };
        let s2 = match Parser::space(s1) {
            Ok((rest, _)) => rest,
            Err(_) => s1,
        };
        match Parser::identifier(s2) {
            Err(e) => Err(e),
            Ok((s3, name)) => Ok((s3, DataField::new(ty, name))),
        }
    }

    /// A field declaration inside a block: spaces, a field, `;`, spaces.
    fn field_decl<'a>(input: &'a str) -> (r: PResult<'a, DataField<'a>>)
        ensures
            match r {
                Ok((rest, f)) => spec_field_decl(input.spec_bytes()) == Some(
                    (rest.spec_bytes(), field_bytes(f@)),
                ),
                Err(_) => spec_field_decl(input.spec_bytes()) is None,
            },
            r matches Ok((rest, f)) ==> encode_utf8(f@.ty).len() + rest.spec_bytes().len() + 2
                <= input.spec_bytes().len(),
    {
        let s1 = match Parser::space(input) {
            Ok((rest, _)) => rest,
            Err(_) => input,
        };
        let (s2, f) = match Parser::parse_field(s1) {
            Ok(p) => p,
            Err(e) => return Err(e),
        };
        let b = s2.as_bytes();
        if b.len() == 0 || b[0] != 59 {
            return Err(ParseError);
        }
        let (_, s3) = split(s2, 1);
        let s4 = match Parser::space(s3) {
            Ok((rest, _)) => rest,
            Err(_) => s3,
        };
        Ok((s4, f))
    }

    /// The field declarations at the start of `body`, up to the first one
    /// that does not parse, added to `st`.
    fn add_fields<'a>(st: &mut DataStructure<'a>, body: &'a str)
        requires
            body.spec_bytes().len() + 2 <= usize::MAX,
        ensures
            final(st)@.name == old(st)@.name,
            final(st)@.fields.map_values(|f: FieldView| field_bytes(f)) == old(st)@.fields.map_values(
                |f: FieldView| field_bytes(f),
            ) + spec_fields(body.spec_bytes()),
    {
        let mut rest = body;
        loop
            invariant
                st@.name == old(st)@.name,
                rest.spec_bytes().len() <= body.spec_bytes().len(),
                body.spec_bytes().len() + 2 <= usize::MAX,
                old(st)@.fields.map_values(|f: FieldView| field_bytes(f)) + spec_fields(
                    body.spec_bytes(),
                ) == st@.fields.map_values(|f: FieldView| field_bytes(f)) + spec_fields(
                    rest.spec_bytes(),
                ),
            ensures
                st@.name == old(st)@.name,
                st@.fields.map_values(|f: FieldView| field_bytes(f)) == old(st)@.fields.map_values(
                    |f: FieldView| field_bytes(f),
                ) + spec_fields(body.spec_bytes()),
            decreases rest.spec_bytes().len(),
        {
            match Parser::field_decl(rest) {
                Ok((r, f)) => {
                    let ghost before = st@.fields;
                    st.add_field(f);
                    proof {
                        let g = |v: FieldView| field_bytes(v);
                        assert(st@.fields.map_values(g) =~= before.map_values(g).push(
                            field_bytes(f@),
                        ));
                        assert(spec_fields(rest.spec_bytes()) == seq![field_bytes(f@)]
                            + spec_fields(r.spec_bytes()));
                        assert(before.map_values(g).push(field_bytes(f@)) + spec_fields(
                            r.spec_bytes(),
                        ) =~= before.map_values(g) + (seq![field_bytes(f@)] + spec_fields(
                            r.spec_bytes(),
                        )));
                    }
                    rest = r;
                },
                Err(_) => {
                    proof {
                        assert(spec_fields(rest.spec_bytes()) =~= Seq::<FieldBytes>::empty());
                        assert(st@.fields.map_values(|f: FieldView| field_bytes(f)) + Seq::<
                            FieldBytes,
                        >::empty() =~= st@.fields.map_values(|f: FieldView| field_bytes(f)));
                    }
                    break ;
                },
            }
        }
    }

    /// The head of a structure declaration: its name, if any, and the rest.
    fn head<'a>(input: &'a str) -> (r: (Option<&'a str>, &'a str))
        ensures
            spec_head(input.spec_bytes()) == (
                match r.0 {
                    Some(n) => Some(n.spec_bytes()),
                    None => None,
                },
                r.1.spec_bytes(),
            ),
            r.1.spec_bytes().len() <= input.spec_bytes().len(),
    {
        let s1 = match Parser::typedef_tok(input) {
            Ok((rest, _)) if Parser::starts_with_space(rest) => rest,
            Ok(_) => input,
            Err(_) => input,
        };
        let s2 = match Parser::space(s1) {
            Ok((rest, _)) => rest,
            Err(_) => s1,
        };
        let s3 = match Parser::struct_tok(s2) {
            Ok((rest, _)) if Parser::starts_with_space(rest) => rest,
            Ok(_) => s2,
            Err(_) => s2,
        };
        let s4 = match Parser::space(s3) {
            Ok((rest, _)) => rest,
            Err(_) => s3,
        };
        let (s5, name) = match Parser::identifier(s4) {
            Ok((rest, n)) => (rest, Some(n)),
            Err(_) => (s4, None),
        };
        let s6 = match Parser::space(s5) {
            Ok((rest, _)) => rest,
            Err(_) => s5,
        };
        (name, s6)
    }

    /// A block from `{` to the first `}`: what follows, and what is inside.
    fn block<'a>(input: &'a str) -> (r: PResult<'a, &'a str>)
        ensures
            agrees(r, spec_block(input.spec_bytes())),
            r matches Ok((rest, body)) ==> rest.spec_bytes().len() < input.spec_bytes().len()
                && body.spec_bytes().len() + 2 <= input.spec_bytes().len()
                && input.spec_bytes().len() <= usize::MAX,
    {
        let b = input.as_bytes();
        if b.len() == 0 || b[0] != 123 {
            return Err(ParseError);
        }
        let close: [u8; 1] = [125];
        let found = find(input, &close, 1);
        proof {
            assert(close@ =~= seq![125u8]);
        }
        let j = match found {
            None => return Err(ParseError),
            Some(j) => j,
        };
        proof {
            lemma_find_from(input.spec_bytes(), seq![125u8], 1);
            assert(input.spec_bytes().subrange(j as int, j + 1)[0] == input.spec_bytes()[j as int]);
        }
        let (before, after) = split(input, j);
        let (_, body) = split(before, 1);
        let (_, rest) = split(after, 1);
        proof {
            let sb = input.spec_bytes();
            assert(body.spec_bytes() =~= sb.subrange(1, j as int));
            assert(rest.spec_bytes() =~= sb.subrange(j + 1, sb.len() as int));
        }
        Ok((rest, body))
    }

    /// A structure declaration: optional `typedef`, optional `struct`, an
    /// optional name, then a block of field declarations from `{` to the
    /// first `}`. The block's fields are read up to the first one that does
    /// not parse; what follows the `}` is left.
    pub fn parse_struct<'a>(input: &'a str) -> (r: PResult<'a, DataStructure<'a>>)
        ensures
            match r {
                Ok((rest, st)) => spec_struct(input.spec_bytes()) == Some(
                    (rest.spec_bytes(), structure_bytes(st@)),
                ),
                Err(_) => spec_struct(input.spec_bytes()) is None,
            },
            r matches Ok((rest, _)) ==> rest.spec_bytes().len() < input.spec_bytes().len(),
    {
        let (name, s6) = Parser::head(input);
        let (rest, body) = match Parser::block(s6) {
            Ok(p) => p,
            Err(e) => return Err(e),
        };
        let mut st = DataStructure::new(name);
        Parser::add_fields(&mut st, body);
        proof {
            let g = |f: FieldView| field_bytes(f);
            assert(Seq::<FieldView>::empty().map_values(g) =~= Seq::<FieldBytes>::empty());
            assert(st@.fields.map_values(g) =~= spec_fields(body.spec_bytes()));
            assert(structure_bytes(st@).fields =~= st@.fields.map_values(g));
        }
        Ok((rest, st))
    }

    /// Every structure declaration of `input`, in order. Text before each
    /// `typedef` or `struct` is skipped; so is a declaration that does not
    /// parse, the search going on one byte after where it started.
    pub fn parse_structures<'a>(input: &'a str) -> (r: Vec<DataStructure<'a>>)
        ensures
            r@.map_values(|s: DataStructure<'a>| structure_bytes(s@)) == spec_structures(
                input.spec_bytes(),
            ),
    {
        let kw_t: [u8; 7] = [116, 121, 112, 101, 100, 101, 102];
        let kw_s: [u8; 6] = [115, 116, 114, 117, 99, 116];
        proof {
            assert(kw_t@ =~= kw_typedef());
            assert(kw_s@ =~= kw_struct());
        }
        let mut out: Vec<DataStructure<'a>> = Vec::new();
        let mut rest = input;
        loop
            invariant
                kw_t@ == kw_typedef(),
                kw_s@ == kw_struct(),
                rest.spec_bytes().len() <= input.spec_bytes().len(),
                out@.map_values(|s: DataStructure<'a>| structure_bytes(s@)) + spec_structures(
                    rest.spec_bytes(),
                ) == spec_structures(input.spec_bytes()),
            ensures
                out@.map_values(|s: DataStructure<'a>| structure_bytes(s@)) == spec_structures(
                    input.spec_bytes(),
                ),
            decreases rest.spec_bytes().len(),
        {
            let ghost g = |s: DataStructure<'a>| structure_bytes(s@);
            let ghost sb = rest.spec_bytes();
            let a = find(rest, &kw_t, 0);
            let b = find(rest, &kw_s, 0);
            let p = match (a, b) {
                (Some(x), Some(y)) => if x <= y {
                    x
                } else {
                    y
                },
                (Some(x), None) => x,
                (None, Some(y)) => y,
                (None, None) => {
                    proof {
                        assert(spec_structures(sb) =~= Seq::<StructBytes>::empty());
                        assert(out@.map_values(g) + Seq::<StructBytes>::empty() =~= out@.map_values(
                            g,
                        ));
                    }
                    break ;
                },
            };
            proof {
                lemma_find_from(sb, kw_typedef(), 0);
                lemma_find_from(sb, kw_struct(), 0);
                assert(next_keyword(sb) == Some(p as int));
                if a == Some(p) {
                    assert(sb.subrange(p as int, p + 7)[0] == sb[p as int]);
                } else {
                    assert(sb.subrange(p as int, p + 6)[0] == sb[p as int]);
                }
            }
            let (_, t) = split(rest, p);
            match Parser::parse_struct(t) {
                Ok((r, st)) => {
                    let ghost before = out@;
                    out.push(st);
                    proof {
                        assert(out@.map_values(g) =~= before.map_values(g).push(structure_bytes(st@)));
                        assert(spec_structures(sb) == seq![structure_bytes(st@)] + spec_structures(
                            r.spec_bytes(),
                        ));
                        assert(before.map_values(g).push(structure_bytes(st@)) + spec_structures(
                            r.spec_bytes(),
                        ) =~= before.map_values(g) + (seq![structure_bytes(st@)]
                            + spec_structures(r.spec_bytes())));
                    }
                    rest = r;
                },
                Err(_) => {
                    proof {
                        assert(t.spec_bytes()[0] == sb[p as int]);
                    }
                    let (_, u) = split(t, 1);
                    proof {
                        assert(u.spec_bytes() =~= sb.subrange(p + 1, sb.len() as int));
                    }
                    rest = u;
                },
            }
        }
        out
    }

    /// The dependency graph of every structure declaration in `input`.
    pub fn parse<'a>(input: &'a str) -> (r: DataGraph<'a>)
        ensures
            exists|s: Seq<StructureView>|
                s.map_values(|v: StructureView| structure_bytes(v)) == spec_structures(
                    input.spec_bytes(),
                ) && r@ == graph_of(s),
            edges_within(r@),
    {
        let structures = Parser::parse_structures(input);
        let ghost s = structures@.map_values(|d: DataStructure<'a>| d@);
        assert(s.map_values(|v: StructureView| structure_bytes(v)) =~= structures@.map_values(
            |d: DataStructure<'a>| structure_bytes(d@),
        ));
        DataGraph::build(structures)
    }
}

/// Text in which neither `typedef` nor `struct` occurs holds no structure.
pub proof fn lemma_no_keyword_no_structure(text: Seq<u8>)
    requires
        forall|i: int| !#[trigger] occurs_at(text, kw_typedef(), i),
        forall|i: int| !#[trigger] occurs_at(text, kw_struct(), i),
    ensures
        spec_structures(text) == Seq::<StructBytes>::empty(),
{
    lemma_find_from(text, kw_typedef(), 0);
    lemma_find_from(text, kw_struct(), 0);
    assert(next_keyword(text) is None);
}

/// A declaration written `typedef struct ...` gives the same structure as
/// the plain `struct ...`, and leaves the same text after it (a trailing
/// alias, say).
pub proof fn lemma_typedef_same_structure(t: Seq<u8>)
    requires
        tag(t, kw_struct()) is Some,
    ensures
        spec_struct(kw_typedef() + seq![32u8] + t) == spec_struct(t),
{
    let s = kw_typedef() + seq![32u8] + t;
    let k = kw_typedef();
    assert(s.subrange(0, k.len() as int) =~= k);
    let s1 = s.subrange(k.len() as int, s.len() as int);
    assert(s1 =~= seq![32u8] + t);
    assert(t.subrange(0, 6)[0] == t[0]);
    assert(run_end(s1, Class::Space, 1) == 1);
    assert(s1.subrange(1, s1.len() as int) =~= t);
    assert(run_end(t, Class::Space, 0) == 0);
    if t.len() >= 7 {
        assert(t.subrange(0, 7)[0] == t[0]);
    }
    assert(tag(t, kw_typedef()) is None);
    assert(spec_head(s) == spec_head(t));
}

/// `m` with `x` appended to what it leaves.
pub open spec fn then_more<T>(m: Option<(Seq<u8>, T)>, x: Seq<u8>) -> Option<(Seq<u8>, T)> {
    match m {
        Some((r, v)) => Some((r + x, v)),
        None => None,
    }
}

/// A run that ends inside `t` ends at the same place in `t + x`.
proof fn lemma_run_more(t: Seq<u8>, x: Seq<u8>, c: Class, i: int)
    requires
        0 <= i <= t.len(),
        run_end(t, c, i) < t.len(),
    ensures
        run_end(t + x, c, i) == run_end(t, c, i),
    decreases t.len() - i,
{
    if i < t.len() && in_class(t[i], c) {
        lemma_run_more(t, x, c, i + 1);
    }
}

/// A run from `i` ends between `i` and the end of the text.
proof fn lemma_run_bounds(t: Seq<u8>, c: Class, i: int)
    requires
        0 <= i <= t.len(),
    ensures
        i <= run_end(t, c, i) <= t.len(),
    decreases t.len() - i,
{
    if i < t.len() && in_class(t[i], c) {
        lemma_run_bounds(t, c, i + 1);
    }
}

/// A run parse that leaves some of `t` reads the same in `t + x`.
proof fn lemma_take1_more(t: Seq<u8>, x: Seq<u8>, c: Class)
    requires
        t.len() > 0,
        take1(t, c) matches Some((r, _)) ==> r.len() > 0,
    ensures
        take1(t + x, c) == then_more(take1(t, c), x),
        rest_or(take1(t + x, c), t + x) == rest_or(take1(t, c), t) + x,
{
    lemma_run_bounds(t, c, 0);
    let k = run_end(t, c, 0);
    lemma_run_more(t, x, c, 0);
    let tx = t + x;
    if k > 0 {
        assert(tx.subrange(0, k) =~= t.subrange(0, k));
        assert(tx.subrange(k, tx.len() as int) =~= t.subrange(k, t.len() as int) + x);
    }
}

/// Whether `s` holds a `{`.
pub open spec fn has_brace(s: Seq<u8>) -> bool {
    exists|p: int| 0 <= p < s.len() && s[p] == 123
}

/// A keyword parse on text holding a `{` reads the same in `t + x`.
proof fn lemma_keyword_more(t: Seq<u8>, x: Seq<u8>, k: Seq<u8>)
    requires
        has_brace(t),
        forall|i: int| 0 <= i < k.len() ==> k[i] != 123,
    ensures
        keyword(t + x, k) == then_more(keyword(t, k), x),
        rest_or(keyword(t + x, k), t + x) == rest_or(keyword(t, k), t) + x,
{
    let tx = t + x;
    let n = k.len() as int;
    let p = choose|p: int| 0 <= p < t.len() && t[p] == 123;
    if t.len() > n {
        assert(tx.subrange(0, n) =~= t.subrange(0, n));
        assert(tx.subrange(n, tx.len() as int) =~= t.subrange(n, t.len() as int) + x);
    } else {
        if t.len() == n {
            assert(t.subrange(0, n)[p] == t[p]);
        }
        if n <= tx.len() && tx.subrange(0, n) == k {
            assert(tx.subrange(0, n)[p] == tx[p]);
        }
        assert(tag(tx, k) is None);
        assert(tag(t, k) is None);
    }
}

/// The first occurrence found in `t` is the first one in `t + x`.
proof fn lemma_find_more(t: Seq<u8>, x: Seq<u8>, pat: Seq<u8>, i: int)
    requires
        0 <= i,
        find_from(t, pat, i) is Some,
    ensures
        find_from(t + x, pat, i) == find_from(t, pat, i),
    decreases t.len() + 1 - i,
{
    let tx = t + x;
    lemma_find_from(t, pat, i);
    let j = find_from(t, pat, i)->0;
    if i + pat.len() <= t.len() {
        assert(tx.subrange(i, i + pat.len()) =~= t.subrange(i, i + pat.len()));
        if !occurs_at(t, pat, i) {
            lemma_find_more(t, x, pat, i + 1);
        }
    }
}

/// Whether `a` is what is left at the end of `b`.
pub open spec fn is_suffix(a: Seq<u8>, b: Seq<u8>) -> bool {
    a.len() <= b.len() && b.subrange(b.len() - a.len(), b.len() as int) == a
}

proof fn lemma_suffix_trans(a: Seq<u8>, b: Seq<u8>, c: Seq<u8>)
    requires
        is_suffix(a, b),
        is_suffix(b, c),
    ensures
        is_suffix(a, c),
{
    assert(c.subrange(c.len() - a.len(), c.len() as int) =~= b.subrange(
        b.len() - a.len(),
        b.len() as int,
    ));
}

proof fn lemma_suffix_brace(a: Seq<u8>, b: Seq<u8>)
    requires
        is_suffix(a, b),
        has_brace(a),
    ensures
        has_brace(b),
{
    let p = choose|p: int| 0 <= p < a.len() && a[p] == 123;
    assert(b.subrange(b.len() - a.len(), b.len() as int)[p] == b[b.len() - a.len() + p]);
}

proof fn lemma_take1_suffix(s: Seq<u8>, c: Class)
    ensures
        is_suffix(rest_or(take1(s, c), s), s),
{
    lemma_run_bounds(s, c, 0);
    assert(s.subrange(0, s.len() as int) =~= s);
}

proof fn lemma_keyword_suffix(s: Seq<u8>, k: Seq<u8>)
    ensures
        is_suffix(rest_or(keyword(s, k), s), s),
{
    assert(s.subrange(0, s.len() as int) =~= s);
}

/// The head of a declaration that a block follows reads the same when more
/// text follows.
proof fn lemma_head_more(t: Seq<u8>, x: Seq<u8>)
    requires
        spec_head(t).1.len() > 0,
        spec_head(t).1[0] == 123,
    ensures
        spec_head(t + x) == (spec_head(t).0, spec_head(t).1 + x),
{
    let s1 = rest_or(keyword(t, kw_typedef()), t);
    let s2 = rest_or(take1(s1, Class::Space), s1);
    let s3 = rest_or(keyword(s2, kw_struct()), s2);
    let s4 = rest_or(take1(s3, Class::Space), s3);
    let s5 = rest_or(take1(s4, Class::Ident), s4);
    let s6 = rest_or(take1(s5, Class::Space), s5);
    lemma_keyword_suffix(t, kw_typedef());
    lemma_take1_suffix(s1, Class::Space);
    lemma_keyword_suffix(s2, kw_struct());
    lemma_take1_suffix(s3, Class::Space);
    lemma_take1_suffix(s4, Class::Ident);
    lemma_take1_suffix(s5, Class::Space);
    lemma_suffix_trans(s6, s5, s4);
    lemma_suffix_trans(s6, s4, s3);
    lemma_suffix_trans(s6, s3, s2);
    lemma_suffix_trans(s6, s2, s1);
    lemma_suffix_trans(s6, s1, t);
    assert(has_brace(s6));
    lemma_suffix_brace(s6, s2);
    lemma_suffix_brace(s6, t);
    lemma_keyword_more(t, x, kw_typedef());
    lemma_take1_more(s1, x, Class::Space);
    lemma_keyword_more(s2, x, kw_struct());
    lemma_take1_more(s3, x, Class::Space);
    lemma_take1_more(s4, x, Class::Ident);
    lemma_take1_more(s5, x, Class::Space);
}

/// A block reads the same when more text follows it.
proof fn lemma_block_more(s: Seq<u8>, x: Seq<u8>)
    requires
        spec_block(s) is Some,
    ensures
        spec_block(s + x) == then_more(spec_block(s), x),
{
    let j = find_from(s, seq![125u8], 1)->0;
    lemma_find_from(s, seq![125u8], 1);
    lemma_find_more(s, x, seq![125u8], 1);
    let sx = s + x;
    assert(sx.subrange(1, j) =~= s.subrange(1, j));
    assert(sx.subrange(j + 1, sx.len() as int) =~= s.subrange(j + 1, s.len() as int) + x);
}

/// Text after a structure declaration is left after it, and changes
/// nothing in the structure read.
pub proof fn lemma_struct_then_more(t: Seq<u8>, x: Seq<u8>)
    requires
        spec_struct(t) is Some,
    ensures
        spec_struct(t + x) == then_more(spec_struct(t), x),
{
    lemma_head_more(t, x);
    lemma_block_more(spec_head(t).1, x);
}

/// `typedef struct S { ... } S` gives the structure of `struct S { ... }`,
/// and leaves the alias after the block for what follows.
pub proof fn lemma_typedef_alias_left(t: Seq<u8>, alias: Seq<u8>)
    requires
        tag(t, kw_struct()) is Some,
        spec_struct(t) is Some,
    ensures
        spec_struct(kw_typedef() + seq![32u8] + (t + alias)) == then_more(spec_struct(t), alias),
{
    assert((t + alias).subrange(0, 6) =~= t.subrange(0, 6));
    lemma_typedef_same_structure(t + alias);
    lemma_struct_then_more(t, alias);
}

/// A one-byte occurrence found by `find` is that byte.
proof fn occurs_at_one(s: Seq<u8>, j: int)
    requires
        occurs_at(s, seq![93u8], j),
    ensures
        0 <= j < s.len(),
        s[j] == 93,
{
    assert(s.subrange(j, j + 1)[0] == s[j]);
}

/// A run that starts at `i` is the run at the start of the suffix from `i`.
pub proof fn lemma_run_end_shift(s: Seq<u8>, c: Class, i: int)
    requires
        0 <= i <= s.len(),
    ensures
        run_end(s, c, i) == i + run_end(s.subrange(i, s.len() as int), c, 0),
    decreases s.len() - i,
{
    let t = s.subrange(i, s.len() as int);
    lemma_run_end_from(t, c, 0, i, s);
}

proof fn lemma_run_end_from(t: Seq<u8>, c: Class, m: int, i: int, s: Seq<u8>)
    requires
        0 <= i <= s.len(),
        t == s.subrange(i, s.len() as int),
        0 <= m <= t.len(),
    ensures
        run_end(s, c, i + m) == i + run_end(t, c, m),
    decreases t.len() - m,
{
    if m < t.len() && in_class(t[m], c) {
        lemma_run_end_from(t, c, m + 1, i, s);
    }
}

} // verus!
