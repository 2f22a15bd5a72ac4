//! C types as they appear in the decompilation's symbol data.

use vstd::prelude::*;

verus! {

/// Mathematical model of a [`Type`]: names become character sequences and
/// machine integers become unbounded naturals.
#[verifier::ext_equal]
pub enum TypeV {
    /// An anonymous (unnamed) struct, like `struct { int x }`
    AnonStruct(StructV),
    /// A named struct, like `struct foo`
    Struct { name: Seq<char> },
    /// An array, like `int foo[10]`
    Array { element_type: Box<TypeV>, num_elements: nat },
    /// An integer, like `uint32_t`
    Int { signed: bool, num_bytes: nat },
    /// A pointer, like `Foo *`
    Pointer { inner_type: Box<TypeV> },
    /// The primitive `float` type
    Float,
    /// A type this tool does not handle
    Ignored,
}

/// Mathematical model of a [`StructField`].
#[verifier::ext_equal]
pub struct StructFieldV {
    pub offset: nat,
    pub name: Seq<char>,
    pub typ: TypeV,
}

/// Mathematical model of a [`Struct`].
#[verifier::ext_equal]
pub struct StructV {
    pub fields: Seq<StructFieldV>,
}

/// A C type
#[derive(Debug, PartialEq, Eq)]
pub enum Type {
    /// An anonymous (unnamed) struct, like `struct { int x }`
    AnonStruct(Struct),
    /// A named struct, like `struct foo`
    Struct {
        /// Name of the struct (`foo`)
        name: String,
    },
    /// An array, like `int foo[10]`
    Array {
        /// Type of each element (`int`)
        element_type: Box<Type>,
        /// Amount of elements in the array (`10`)
        num_elements: u32,
    },
    /// An integer, like `uint32_t`
    Int {
        /// Whether the integer is signed
        signed: bool,
        /// Size of the integer in bytes
        num_bytes: u32,
    },
    /// A pointer, like `Foo *`
    Pointer {
        /// The inner type (`Foo`)
        inner_type: Box<Type>,
    },
    /// The primitive `float` type
    Float,
    /// Type is ignored by this tool
    Ignored,
}

/// A C struct field
#[derive(Debug, PartialEq, Eq)]
pub struct StructField {
    /// Amount of bytes between the start of the struct and this field
    pub offset: u32,
    /// Name of the field
    pub name: String,
    /// Type of the field
    pub typ: Type,
}

/// A C struct
#[derive(Debug, PartialEq, Eq)]
pub struct Struct {
    /// Fields of the struct, in ascending offset order
    pub fields: Vec<StructField>,
}

/// Model of a [`Type`] value.
pub open spec fn type_view(t: Type) -> TypeV
    decreases t,
{
    match t {
        Type::AnonStruct(s) => TypeV::AnonStruct(StructV { fields: fields_view(s.fields@) }),
        Type::Struct { name } => TypeV::Struct { name: name@ },
        Type::Array { element_type, num_elements } => TypeV::Array {
            element_type: Box::new(type_view(*element_type)),
            num_elements: num_elements as nat,
        },
        Type::Int { signed, num_bytes } => TypeV::Int {
            signed: signed,
            num_bytes: num_bytes as nat,
        },
        Type::Pointer { inner_type } => TypeV::Pointer {
            inner_type: Box::new(type_view(*inner_type)),
        },
        Type::Float => TypeV::Float,
        Type::Ignored => TypeV::Ignored,
    }
}

/// Model of a sequence of [`StructField`] values, in order.
pub open spec fn fields_view(fields: Seq<StructField>) -> Seq<StructFieldV>
    decreases fields,
{
    if fields.len() == 0 {
        Seq::empty()
    } else {
        seq![field_view(fields[0])] + fields_view(fields.drop_first())
    }
}

/// Model of a single [`StructField`] value.
pub open spec fn field_view(f: StructField) -> StructFieldV
    decreases f,
{
    StructFieldV { offset: f.offset as nat, name: f.name@, typ: type_view(f.typ) }
}

/// The model of a field sequence is elementwise.
pub proof fn lemma_fields_view(fields: Seq<StructField>)
    ensures
        fields_view(fields).len() == fields.len(),
        forall|i: int|
            0 <= i < fields.len() ==> #[trigger] fields_view(fields)[i] == field_view(fields[i]),
    decreases fields.len(),
{
    if fields.len() > 0 {
        lemma_fields_view(fields.drop_first());
    }
}

impl View for Type {
    type V = TypeV;

    open spec fn view(&self) -> TypeV {
        type_view(*self)
    }
}

impl View for StructField {
    type V = StructFieldV;

    open spec fn view(&self) -> StructFieldV {
        field_view(*self)
    }
}

impl View for Struct {
    type V = StructV;

    open spec fn view(&self) -> StructV {
        StructV { fields: fields_view(self.fields@) }
    }
}

impl Clone for Type {
    /// A clone has the same model as the original.
    fn clone(&self) -> (r: Self)
        ensures
            r@ == self@,
        decreases *self,
    {
        match self {
            Type::AnonStruct(s) => Type::AnonStruct(s.clone()),
            Type::Struct { name } => Type::Struct { name: name.clone() },
            Type::Array { element_type, num_elements } => Type::Array {
                element_type: Box::new((**element_type).clone()),
                num_elements: *num_elements,
            },
            Type::Int { signed, num_bytes } => Type::Int {
                signed: *signed,
                num_bytes: *num_bytes,
            },
            Type::Pointer { inner_type } => Type::Pointer {
                inner_type: Box::new((**inner_type).clone()),
            },
            Type::Float => Type::Float,
            Type::Ignored => Type::Ignored,
        }
    }
}

impl Clone for StructField {
    /// A clone has the same model as the original.
    fn clone(&self) -> (r: Self)
        ensures
            r@ == self@,
        decreases *self,
    {
        StructField { offset: self.offset, name: self.name.clone(), typ: self.typ.clone() }
    }
}

impl Clone for Struct {
    /// A clone has the same model as the original.
    fn clone(&self) -> (r: Self)
        ensures
            r@ == self@,
        decreases *self,
    {
        let mut fields: Vec<StructField> = Vec::new();
        let mut i: usize = 0;
        while i < self.fields.len()
            invariant
                i <= self.fields.len(),
                fields.len() == i,
                forall|j: int| 0 <= j < i ==> #[trigger] fields[j]@ == self.fields[j]@,
            decreases self.fields.len() - i,
        {
            proof {
                assert(decreases_to!(*self => self.fields@[i as int]));
            }
            fields.push(self.fields[i].clone());
            i = i + 1;
        }
        proof {
            lemma_fields_view(fields@);
            lemma_fields_view(self.fields@);
            assert forall|j: int| 0 <= j < fields@.len() implies fields_view(fields@)[j]
                == fields_view(self.fields@)[j] by {
                assert(fields[j]@ == self.fields[j]@);
            }
            assert(fields_view(fields@) =~= fields_view(self.fields@));
        }
        Struct { fields }
    }
}

} // verus!
