//! The data model: the fields of a structure, and the structures themselves.

use vstd::prelude::*;
use vstd::utf8::*;

use vstd::string::{StringExecFns, StringSliceAdditionalSpecFns};

use crate::render::{field_text, fields_text, spaces, structure_text, Dot, RenderError};
use crate::text::str_eq;

verus! {

/// Default padding between the field's type and its name.
pub const BASE_PADDING: usize = 4;

/// Number of bytes in the UTF-8 encoding of `s`.
pub open spec fn byte_len(s: Seq<char>) -> nat {
    encode_utf8(s).len()
}

/// What a field is: its type name and its own name.
pub struct FieldView {
    pub ty: Seq<char>,
    pub name: Seq<char>,
}

/// What a structure is: an optional name and its fields, in declaration order.
pub struct StructureView {
    pub name: Option<Seq<char>>,
    pub fields: Seq<FieldView>,
}

/// The column width kept between a field's type and its name: the base
/// padding, widened to the longest type name plus the base padding.
pub open spec fn padding_of(fields: Seq<FieldView>) -> nat
    decreases fields.len(),
{
    if fields.len() == 0 {
        BASE_PADDING as nat
    } else {
        let p = padding_of(fields.drop_last());
        let w = byte_len(fields.last().ty) + BASE_PADDING as nat;
        if w > p {
            w
        } else {
            p
        }
    }
}

/// The padding is at least the base padding, and at least each field's
/// type name length plus the base padding.
pub proof fn lemma_padding_bounds(fields: Seq<FieldView>)
    ensures
        padding_of(fields) >= BASE_PADDING,
        forall|k: int|
            0 <= k < fields.len() ==> padding_of(fields) >= byte_len(#[trigger] fields[k].ty)
                + BASE_PADDING,
    decreases fields.len(),
{
    if fields.len() > 0 {
        lemma_padding_bounds(fields.drop_last());
        assert forall|k: int| 0 <= k < fields.len() - 1 implies #[trigger] fields[k].ty
            == fields.drop_last()[k].ty by {}
    }
}

/// Fields contained inside the data structures.
#[derive(Clone, Copy, Debug, PartialEq, Eq, Hash)]
pub struct DataField<'a> {
    name: &'a str,
    ty: &'a str,
}

impl<'a> View for DataField<'a> {
    type V = FieldView;

    closed spec fn view(&self) -> FieldView {
        FieldView { ty: self.ty@, name: self.name@ }
    }
}

impl<'a> DataField<'a> {
    /// Create a new field of type `ty` called `name`.
    pub fn new(ty: &'a str, name: &'a str) -> (r: DataField<'a>)
        ensures
            r@ == (FieldView { ty: ty@, name: name@ }),
    {
        DataField { name, ty }
    }

    /// The name of the field.
    pub fn name(&self) -> (r: &'a str)
        ensures
            r@ == self@.name,
    {
        self.name
    }

    /// The type name of the field.
    pub fn field_type(&self) -> (r: &'a str)
        ensures
            r@ == self@.ty,
    {
        self.ty
    }
}

/// A structure: an optional name, its fields, and the padding used to
/// align field names when it is displayed.
#[derive(Debug, PartialEq, Eq, Hash)]
pub struct DataStructure<'a> {
    name: Option<&'a str>,
    fields: Vec<DataField<'a>>,
    padding: usize,
}

impl<'a> View for DataStructure<'a> {
    type V = StructureView;

    closed spec fn view(&self) -> StructureView {
        StructureView {
            name: match self.name {
                Some(n) => Some(n@),
                None => None,
            },
            fields: self.fields@.map_values(|f: DataField<'a>| f@),
        }
    }
}

impl<'a> DataStructure<'a> {
    /// The stored padding is the one that the fields determine.
    #[verifier::type_invariant]
    closed spec fn inv(&self) -> bool {
        self.padding as nat == padding_of(self@.fields)
    }

    /// Create a new data structure with a given name and no fields.
    pub fn new(name: Option<&'a str>) -> (r: DataStructure<'a>)
        ensures
            r@.name == (match name {
                Some(n) => Some(n@),
                None => None,
            }),
            r@.fields == Seq::<FieldView>::empty(),
    {
        let r = DataStructure { name, fields: Vec::new(), padding: BASE_PADDING };
        assert(r@.fields =~= Seq::<FieldView>::empty());
        r
    }

    /// Append a field, widening the padding to fit its type name.
    pub fn add_field(&mut self, field: DataField<'a>)
        requires
            byte_len(field@.ty) + BASE_PADDING <= usize::MAX,
        ensures
            final(self)@.name == old(self)@.name,
            final(self)@.fields == old(self)@.fields.push(field@),
    {
        proof {
            use_type_invariant(&*self);
        }
        let w = field.ty.len() + BASE_PADDING;
        let mut taken = DataStructure::new(self.name);
        std::mem::swap(self, &mut taken);
        let DataStructure { name, mut fields, padding } = taken;
        fields.push(field);
        let padding = if w > padding {
            w
        } else {
            padding
        };
        let ghost grown = fields@.map_values(|f: DataField<'a>| f@);
        assert(grown =~= old(self)@.fields.push(field@));
        assert(grown.drop_last() =~= old(self)@.fields);
        *self = DataStructure { name, fields, padding };
    }

    /// The name of the structure, if it has one.
    pub fn name(&self) -> (r: Option<&'a str>)
        ensures
            r is Some <==> self@.name is Some,
            r is Some ==> r->0@ == self@.name->0,
    {
        self.name
    }

    /// The fields of the structure, in declaration order.
    pub fn fields(&self) -> (r: &Vec<DataField<'a>>)
        ensures
            r@.map_values(|f: DataField<'a>| f@) == self@.fields,
    {
        &self.fields
    }

    /// The column width kept between a field's type and its name.
    pub fn display_padding(&self) -> (r: usize)
        ensures
            r == padding_of(self@.fields),
    {
        proof {
            use_type_invariant(self);
        }
        self.padding
    }

    /// Whether some field of the structure has the type `ty`.
    pub fn fields_contain(&self, ty: &str) -> (r: bool)
        ensures
            r == exists|i: int|
                0 <= i < self@.fields.len() && #[trigger] self@.fields[i].ty == ty@,
    {
        let mut i: usize = 0;
        while i < self.fields.len()
            invariant
                i <= self.fields@.len(),
                forall|j: int| 0 <= j < i ==> #[trigger] self@.fields[j].ty != ty@,
            decreases self.fields@.len() - i,
        {
            if str_eq(self.fields[i].ty, ty) {
                assert(self@.fields[i as int].ty == ty@);
                return true;
            }
            i = i + 1;
        }
        false
    }
}

impl<'a> Dot for DataStructure<'a> {
    open spec fn dot_text(&self) -> Option<Seq<char>> {
        match self@.name {
            Some(_) => Some(structure_text(self@)),
            None => None,
        }
    }

    /// The node definition of the structure: its name, then a label with
    /// its name in bold and one line per field.
    fn to_dot(&self) -> (r: Result<String, RenderError>) {
        let name = match self.name() {
            Some(n) => n,
            None => return Err(RenderError::Anonymous),
        };
        let pad = self.display_padding();
        let ghost fs = self@.fields;
        proof {
            lemma_padding_bounds(fs);
        }
        let mut out = String::new();
        out.append(name);
        out.append(" [label=<<B>struct ");
        out.append(name);
        out.append("</B>");
        let ghost head = out@;
        let fields = self.fields();
        let mut i: usize = 0;
        while i < fields.len()
            invariant
                fields@.map_values(|f: DataField<'a>| f@) == fs,
                pad == padding_of(fs),
                i <= fs.len(),
                forall|k: int| 0 <= k < fs.len() ==> pad >= byte_len(#[trigger] fs[k].ty) + BASE_PADDING,
                out@ == head + fields_text(fs.subrange(0, i as int), pad as nat),
            decreases fs.len() - i,
        {
            let f = &fields[i];
            assert(f@ == fs[i as int]);
            let ghost before = out@;
            out.append("<BR ALIGN=\"LEFT\"/>");
            out.append("<FONT COLOR=\"purple\">");
            out.append(f.field_type());
            out.append("</FONT>");
            let gap = pad - f.field_type().len();
            let ghost mid = out@;
            let mut c: usize = 0;
            while c < gap
                invariant
                    c <= gap,
                    out@ == mid + spaces(c as int),
                decreases gap - c,
            {
                out.append(" ");
                proof {
                    reveal_strlit(" ");
                }
                assert(out@ =~= mid + spaces(c + 1));
                c = c + 1;
            }
            out.append(f.name());
            proof {
                assert(fs.subrange(0, i + 1).drop_last() =~= fs.subrange(0, i as int));
                assert(out@ =~= before + field_text(fs[i as int], pad as nat));
            }
            i = i + 1;
        }
        out.append("<BR ALIGN=\"LEFT\"/>>]");
        assert(fs.subrange(0, fs.len() as int) =~= fs);
        assert(out@ =~= structure_text(self@));
        Ok(out)
    }
}

} // verus!
