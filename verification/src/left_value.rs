//! C lvalues.
//!
//! An lvalue (left value) is an expression that can appear on the left side
//! of an assignment in C.  For example, in `foo = 2`, `foo` is an lvalue,
//! and so is `gMarioStates[0].vel[1]`.

use crate::numfmt::decimal;
use crate::numfmt::push_decimal;
use crate::typ::Type;
use crate::typ::TypeV;
use crate::typ::type_view;

use vstd::prelude::*;
use vstd::string::StringExecFns;

verus! {

/// Mathematical model of a [`LeftValue`].
#[verifier::ext_equal]
pub struct LeftValueV {
    pub kind: LeftValueKindV,
    pub typ: TypeV,
    pub addr: nat,
}

/// Mathematical model of a [`LeftValueKind`].
#[verifier::ext_equal]
pub enum LeftValueKindV {
    Ident { name: Seq<char> },
    ArrayIndex { array: Box<LeftValueV>, index: nat },
    StructField { struct_: Box<LeftValueV>, field_name: Seq<char> },
}

/// A C lvalue
#[derive(Debug)]
pub struct LeftValue {
    /// Kind of lvalue
    pub kind: LeftValueKind,
    /// Type of lvalue
    pub typ: Type,
    /// Address of lvalue
    pub addr: u32,
}

/// A kind of lvalue
#[derive(Debug)]
pub enum LeftValueKind {
    /// An identifier expression, like `foo`
    Ident {
        /// Name of identifier (`foo`)
        name: String,
    },
    /// An array index expression, like `foo[0]`
    ArrayIndex {
        /// Lvalue of array (`foo`)
        array: Box<LeftValue>,
        /// Index of array access (`0`)
        index: u32,
    },
    /// A struct field access, like `foo.bar`
    StructField {
        /// Lvalue of struct (`foo`)
        struct_: Box<LeftValue>,
        /// Name of accessed field (`bar`)
        field_name: String,
    },
}

/// Model of a [`LeftValue`] value.
pub open spec fn lv_view(lv: LeftValue) -> LeftValueV
    decreases lv,
{
    LeftValueV { kind: lv_kind_view(lv.kind), typ: type_view(lv.typ), addr: lv.addr as nat }
}

/// Model of a [`LeftValueKind`] value.
pub open spec fn lv_kind_view(k: LeftValueKind) -> LeftValueKindV
    decreases k,
{
    match k {
        LeftValueKind::Ident { name } => LeftValueKindV::Ident { name: name@ },
        LeftValueKind::ArrayIndex { array, index } => LeftValueKindV::ArrayIndex {
            array: Box::new(lv_view(*array)),
            index: index as nat,
        },
        LeftValueKind::StructField { struct_, field_name } => LeftValueKindV::StructField {
            struct_: Box::new(lv_view(*struct_)),
            field_name: field_name@,
        },
    }
}

impl View for LeftValue {
    type V = LeftValueV;

    open spec fn view(&self) -> LeftValueV {
        lv_view(*self)
    }
}

impl View for LeftValueKind {
    type V = LeftValueKindV;

    open spec fn view(&self) -> LeftValueKindV {
        lv_kind_view(*self)
    }
}

/// The C text of an lvalue.
///
/// A float's storage cell is referenced through a 4-byte unsigned-integer
/// reinterpretation, because C's bitwise operators reject float lvalues.
pub open spec fn lv_text(lv: LeftValueV) -> Seq<char>
    decreases lv,
{
    if lv.typ is Float {
        seq!['*', '(', 'u', 'i', 'n', 't', '3', '2', '_', 't', ' ', '*', ')', ' ', '&']
            + lv_kind_text(lv.kind)
    } else {
        lv_kind_text(lv.kind)
    }
}

/// The C text of an lvalue kind.
pub open spec fn lv_kind_text(k: LeftValueKindV) -> Seq<char>
    decreases k,
{
    match k {
        LeftValueKindV::Ident { name } => name,
        LeftValueKindV::ArrayIndex { array, index } => lv_text(*array) + seq!['['] + decimal(
            index,
        ) + seq![']'],
        LeftValueKindV::StructField { struct_, field_name } => lv_text(*struct_) + seq!['.']
            + field_name,
    }
}

impl LeftValue {
    /// Append this lvalue's C text to `out`.
    pub fn push_text(&self, out: &mut String)
        ensures
            final(out)@ == old(out)@ + lv_text(self@),
        decreases *self,
    {
        match &self.typ {
            Type::Float => {
                out.append("*(uint32_t *) &");
                self.kind.push_text(out);
                proof {
                    reveal_strlit("*(uint32_t *) &");
                    assert(out@ =~= old(out)@ + lv_text(self@));
                }
            },
            _ => {
                self.kind.push_text(out);
            },
        }
    }

    /// The C text of this lvalue.
    pub fn to_text(&self) -> (r: String)
        ensures
            r@ == lv_text(self@),
    {
        let mut out = String::new();
        self.push_text(&mut out);
        proof {
            assert(out@ =~= lv_text(self@));
        }
        out
    }
}

impl LeftValueKind {
    /// Append this lvalue kind's C text to `out`.
    pub fn push_text(&self, out: &mut String)
        ensures
            final(out)@ == old(out)@ + lv_kind_text(self@),
        decreases *self,
    {
        match self {
            LeftValueKind::Ident { name } => {
                out.append(name.as_str());
            },
            LeftValueKind::ArrayIndex { array, index } => {
                array.push_text(out);
                out.append("[");
                push_decimal(*index as u64, out);
                out.append("]");
                proof {
                    reveal_strlit("[");
                    reveal_strlit("]");
                    assert(out@ =~= old(out)@ + lv_kind_text(self@));
                }
            },
            LeftValueKind::StructField { struct_, field_name } => {
                struct_.push_text(out);
                out.append(".");
                out.append(field_name.as_str());
                proof {
                    reveal_strlit(".");
                    assert(out@ =~= old(out)@ + lv_kind_text(self@));
                }
            },
        }
    }
}

} // verus!
