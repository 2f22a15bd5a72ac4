//! Patch conversion with decompilation data.
//!
//! [`DecompData`] holds the declarations and struct registry extracted from
//! the decompiled codebase.  Its methods resolve absolute addresses to C
//! lvalues and generate the masked write and check statements of a patch.

use crate::decl::Decl;
use crate::decl::DeclKind;
use crate::decl::DeclKindV;
use crate::decl::DeclV;
use crate::left_value::LeftValue;
use crate::left_value::LeftValueKind;
use crate::left_value::LeftValueKindV;
use crate::left_value::LeftValueV;
use crate::left_value::lv_text;
use crate::typ::Struct;
use crate::typ::StructFieldV;
use crate::typ::StructV;
use crate::typ::Type;
use crate::typ::TypeV;
use crate::typ::fields_view;
use crate::typ::type_view;

use vstd::prelude::*;

verus! {

/// Mathematical model of a [`ToPatchError`].
#[verifier::ext_equal]
pub enum ToPatchErrorV {
    FnPatch { addr: nat },
    IgnoredType,
    NoDecl { addr: nat },
    NoStruct { name: Seq<char> },
    NoField { addr: nat },
    ArrayOutOfBounds { addr: nat, lvalue: LeftValueV },
    PointerAssign { addr: nat },
}

/// An error turning a cheat code into a patch.
#[derive(Debug)]
pub enum ToPatchError {
    /// The address lies in a function; only data can be patched
    FnPatch {
        /// The offending address
        addr: u32,
    },
    /// An ignored or unsupported type was reached
    IgnoredType,
    /// No declaration was found at or below the address
    NoDecl {
        /// The offending address
        addr: u32,
    },
    /// A named struct is missing from the registry
    NoStruct {
        /// The missing struct's name
        name: String,
    },
    /// No struct field starts at or below the address
    NoField {
        /// The offending address
        addr: u32,
    },
    /// The code accesses an array out of bounds
    ArrayOutOfBounds {
        /// The offending address
        addr: u32,
        /// The lvalue of the array
        lvalue: LeftValue,
    },
    /// The code would assign through a pointer
    PointerAssign {
        /// The offending address
        addr: u32,
    },
}

impl View for ToPatchError {
    type V = ToPatchErrorV;

    open spec fn view(&self) -> ToPatchErrorV {
        match self {
            ToPatchError::FnPatch { addr } => ToPatchErrorV::FnPatch { addr: *addr as nat },
            ToPatchError::IgnoredType => ToPatchErrorV::IgnoredType,
            ToPatchError::NoDecl { addr } => ToPatchErrorV::NoDecl { addr: *addr as nat },
            ToPatchError::NoStruct { name } => ToPatchErrorV::NoStruct { name: name@ },
            ToPatchError::NoField { addr } => ToPatchErrorV::NoField { addr: *addr as nat },
            ToPatchError::ArrayOutOfBounds { addr, lvalue } => ToPatchErrorV::ArrayOutOfBounds {
                addr: *addr as nat,
                lvalue: lvalue@,
            },
            ToPatchError::PointerAssign { addr } => ToPatchErrorV::PointerAssign {
                addr: *addr as nat,
            },
        }
    }
}

/// Mathematical model of a [`DecompData`]: the declarations in storage
/// order and the struct registry in storage order.
#[verifier::ext_equal]
pub struct DecompDataV {
    pub decls: Seq<DeclV>,
    pub structs: Seq<(Seq<char>, StructV)>,
}

/// Symbol data from the decompiled codebase.
///
/// This information is used for converting GameShark codes to PC port
/// patches.  It is built once by an external extraction step and then read
/// only: declarations ordered by ascending address, and a registry of named
/// structs where every struct only names structs stored before it.
#[derive(Debug)]
pub struct DecompData {
    decls: Vec<Decl>,
    structs: Vec<(String, Struct)>,
}

impl View for DecompData {
    type V = DecompDataV;

    closed spec fn view(&self) -> DecompDataV {
        DecompDataV {
            decls: Seq::new(self.decls.len() as nat, |i: int| self.decls[i]@),
            structs: Seq::new(
                self.structs.len() as nat,
                |i: int| (self.structs[i].0@, StructV { fields: fields_view(self.structs[i].1.fields@) }),
            ),
        }
    }
}

/// The registry part of the model: name and contents of each struct.
pub type RegV = Seq<(Seq<char>, StructV)>;

/// Index of the first registry entry named `name`, or -1 when there is none.
pub open spec fn reg_index_of(reg: RegV, name: Seq<char>) -> int
    decreases reg.len(),
{
    if reg.len() == 0 {
        -1
    } else if reg[0].0 == name {
        0
    } else {
        let r = reg_index_of(reg.drop_first(), name);
        if r < 0 {
            -1
        } else {
            r + 1
        }
    }
}

/// What `reg_index_of` finds: an entry of that name, the first one.
pub proof fn lemma_reg_index_of(reg: RegV, name: Seq<char>)
    ensures
        reg_index_of(reg, name) >= 0 ==> reg_index_of(reg, name) < reg.len() && reg[reg_index_of(
            reg,
            name,
        )].0 == name,
        reg_index_of(reg, name) < 0 ==> reg_index_of(reg, name) == -1 && forall|j: int|
            0 <= j < reg.len() ==> (#[trigger] reg[j]).0 != name,
        forall|j: int| 0 <= j < reg_index_of(reg, name) ==> (#[trigger] reg[j]).0 != name,
    decreases reg.len(),
{
    if reg.len() > 0 && reg[0].0 != name {
        lemma_reg_index_of(reg.drop_first(), name);
        assert(forall|j: int|
            0 < j < reg.len() ==> #[trigger] reg[j] == reg.drop_first()[j - 1]);
    }
}

/// Whether the type's size, when defined, is `sz`.
pub open spec fn size_is_ok(r: Result<nat, ToPatchErrorV>, bound: nat) -> bool {
    match r {
        Ok(sz) => sz <= bound,
        Err(_) => true,
    }
}

/// Byte size of a type: integers their width, pointers 8, floats 4, arrays
/// element size times count, composites the sum of their field sizes.
///
/// Named structs are looked up in `reg`; the ghost bound `b` mirrors the
/// registry's stratification (a struct only names structs stored before it)
/// and only limits which lookups the definition follows.
pub open spec fn s_size_of(reg: RegV, t: TypeV, b: int) -> Result<nat, ToPatchErrorV>
    decreases b, t,
{
    match t {
        TypeV::AnonStruct(s) => s_size_struct(reg, s, b),
        TypeV::Struct { name } => {
            let j = reg_index_of(reg, name);
            if 0 <= j < b {
                s_size_struct(reg, reg[j].1, j)
            } else {
                Err(ToPatchErrorV::NoStruct { name })
            }
        },
        TypeV::Array { element_type, num_elements } => match s_size_of(reg, *element_type, b) {
            Ok(sz) => Ok(sz * num_elements),
            Err(e) => Err(e),
        },
        TypeV::Int { num_bytes, .. } => Ok(num_bytes),
        TypeV::Pointer { .. } => Ok(8),
        TypeV::Float => Ok(4),
        TypeV::Ignored => Err(ToPatchErrorV::IgnoredType),
    }
}

/// Byte size of a struct: the sum of its field sizes, no padding assumed.
pub open spec fn s_size_struct(reg: RegV, s: StructV, b: int) -> Result<nat, ToPatchErrorV>
    decreases b, s,
{
    s_size_fields(reg, s.fields, b)
}

/// Sum of the sizes of `fields`, failing at the first field that fails.
pub open spec fn s_size_fields(reg: RegV, fields: Seq<StructFieldV>, b: int) -> Result<
    nat,
    ToPatchErrorV,
>
    decreases b, fields,
{
    if fields.len() == 0 {
        Ok(0)
    } else {
        match s_size_of(reg, fields[0].typ, b) {
            Ok(sz) => match s_size_fields(reg, fields.drop_first(), b) {
                Ok(rest) => Ok((sz + rest) as nat),
                Err(e) => Err(e),
            },
            Err(e) => Err(e),
        }
    }
}

/// Well-formedness of a type against the registry under bound `b`:
/// named structs resolve below `b` (or not at all), integers have a C
/// width, and array strides are positive with sizes that fit the address
/// space.
pub open spec fn type_wf(reg: RegV, t: TypeV, b: int) -> bool
    decreases b, t,
{
    match t {
        TypeV::AnonStruct(s) => struct_wf(reg, s, b),
        TypeV::Struct { name } => reg_index_of(reg, name) < b,
        TypeV::Array { element_type, num_elements } => type_wf(reg, *element_type, b) && (match
            s_size_of(reg, *element_type, b) {
            Ok(sz) => sz > 0 && sz * num_elements <= u32::MAX,
            Err(_) => true,
        }),
        TypeV::Int { num_bytes, .. } => 1 <= num_bytes <= 8,
        TypeV::Pointer { .. } => true,
        TypeV::Float => true,
        TypeV::Ignored => true,
    }
}

/// Well-formedness of a struct: well-formed fields, offsets that are
/// contiguous from zero (the model assumes no padding), and a total size
/// that fits the address space.
pub open spec fn struct_wf(reg: RegV, s: StructV, b: int) -> bool
    decreases b, s,
{
    fields_wf(reg, s.fields, b) && fields_contiguous(reg, s.fields, b) && size_is_ok(
        s_size_fields(reg, s.fields, b),
        u32::MAX as nat,
    )
}

/// Elementwise well-formedness of a field sequence.
pub open spec fn fields_wf(reg: RegV, fields: Seq<StructFieldV>, b: int) -> bool
    decreases b, fields,
{
    fields.len() == 0 || (type_wf(reg, fields[0].typ, b) && fields_wf(
        reg,
        fields.drop_first(),
        b,
    ))
}

/// Field offsets ascend strictly and, where sizes are defined, each field
/// starts where the previous one ends, the first at offset zero.
pub open spec fn fields_contiguous(reg: RegV, fields: Seq<StructFieldV>, b: int) -> bool {
    (fields.len() > 0 ==> fields[0].offset == 0) && (forall|i: int|
        0 < i < fields.len() ==> (match s_size_of(reg, fields[i - 1].typ, b) {
            Ok(sz) => (#[trigger] fields[i]).offset == fields[i - 1].offset + sz,
            Err(_) => fields[i].offset > fields[i - 1].offset,
        }))
}

/// `fields_wf` holds of every element, not just the first.
pub proof fn lemma_fields_wf_index(reg: RegV, fields: Seq<StructFieldV>, b: int, i: int)
    requires
        fields_wf(reg, fields, b),
        0 <= i < fields.len(),
    ensures
        type_wf(reg, fields[i].typ, b),
    decreases i,
{
    if i > 0 {
        lemma_fields_wf_index(reg, fields.drop_first(), b, i - 1);
        assert(fields.drop_first()[i - 1] == fields[i]);
    }
}

/// Well-formedness of the registry: each struct is well-formed against the
/// part of the registry stored before it.
pub open spec fn reg_wf(reg: RegV) -> bool {
    forall|i: int| 0 <= i < reg.len() ==> struct_wf(reg, (#[trigger] reg[i]).1, i)
}

/// Declarations are stored in strictly ascending address order.
pub open spec fn decls_sorted(decls: Seq<DeclV>) -> bool {
    forall|i: int, j: int| 0 <= i < j < decls.len() ==> decls[i].addr < decls[j].addr
}

/// Every variable declaration has a well-formed type.
pub open spec fn decls_wf(decls: Seq<DeclV>, reg: RegV) -> bool {
    forall|i: int|
        0 <= i < decls.len() ==> (match (#[trigger] decls[i]).kind {
            DeclKindV::Var { typ } => type_wf(reg, typ, reg.len() as int),
            DeclKindV::Fn => true,
        })
}

/// Well-formedness of the whole model, as the external extraction step is
/// contracted to supply it.
pub open spec fn data_wf(d: DecompDataV) -> bool {
    reg_wf(d.structs) && decls_sorted(d.decls) && decls_wf(d.decls, d.structs)
}

/// The model of a size result.
pub open spec fn size_result_view(r: Result<u32, ToPatchError>) -> Result<nat, ToPatchErrorV> {
    match r {
        Ok(n) => Ok(n as nat),
        Err(e) => Err(e@),
    }
}

impl DecompData {
    /// Well-formedness of this data; public methods assume it.
    pub open spec fn wf(&self) -> bool {
        data_wf(self@)
    }

    /// Index of the first registry entry named `name`, if any.
    fn find_struct(&self, name: &String) -> (r: Option<usize>)
        ensures
            match r {
                Some(j) => j == reg_index_of(self@.structs, name@) && j < self.structs.len(),
                None => reg_index_of(self@.structs, name@) == -1,
            },
    {
        let ghost reg = self@.structs;
        let mut j: usize = 0;
        while j < self.structs.len()
            invariant
                j <= self.structs.len(),
                reg == self@.structs,
                reg.len() == self.structs.len(),
                forall|k: int| 0 <= k < j ==> (#[trigger] reg[k]).0 != name@,
            decreases self.structs.len() - j,
        {
            proof {
                assert(reg[j as int].0 == self.structs[j as int].0@);
            }
            if self.structs[j].0.eq(name) {
                proof {
                    lemma_reg_index_of(reg, name@);
                    assert(reg[j as int].0 == name@);
                    let r = reg_index_of(reg, name@);
                    assert(r >= 0);
                    assert(r <= j as int);
                    assert(r >= j as int);
                }
                return Some(j);
            }
            j = j + 1;
        }
        proof {
            lemma_reg_index_of(reg, name@);
            if reg_index_of(reg, name@) >= 0 {
                assert(reg[reg_index_of(reg, name@)].0 == name@);
            }
        }
        None
    }

    /// Get the size of the type `typ` in bytes.
    ///
    /// ## Errors
    /// This function fails if
    ///   * a struct lookup failed
    ///   * the type or one of its inner types is ignored
    pub fn size_of_type(&self, typ: &Type) -> (r: Result<u32, ToPatchError>)
        requires
            self.wf(),
            type_wf(self@.structs, typ@, self@.structs.len() as int),
        ensures
            size_result_view(r) == s_size_of(self@.structs, typ@, self@.structs.len() as int),
    {
        let ghost b = self@.structs.len() as int;
        self.size_of_type_at(typ, Ghost(b))
    }

    /// Size of `typ`, descending the registry below the ghost bound `b`.
    fn size_of_type_at(&self, typ: &Type, Ghost(b): Ghost<int>) -> (r: Result<u32, ToPatchError>)
        requires
            reg_wf(self@.structs),
            0 <= b <= self@.structs.len(),
            type_wf(self@.structs, typ@, b),
        ensures
            size_result_view(r) == s_size_of(self@.structs, typ@, b),
        decreases b, *typ, 0int,
    {
        let ghost reg = self@.structs;
        match typ {
            Type::AnonStruct(s) => self.size_of_struct_at(s, Ghost(b)),
            Type::Struct { name } => {
                match self.find_struct(name) {
                    None => Err(ToPatchError::NoStruct { name: name.clone() }),
                    Some(j) => {
                        proof {
                            lemma_reg_index_of(reg, name@);
                            assert(struct_wf(reg, reg[j as int].1, j as int));
                            assert(reg[j as int].1 =~= StructV {
                                fields: fields_view(self.structs[j as int].1.fields@),
                            });
                        }
                        self.size_of_struct_at(&self.structs[j].1, Ghost(j as int))
                    },
                }
            },
            Type::Array { element_type, num_elements } => {
                match self.size_of_type_at(element_type, Ghost(b)) {
                    Ok(sz) => Ok(sz * *num_elements),
                    Err(e) => Err(e),
                }
            },
            Type::Int { num_bytes, .. } => Ok(*num_bytes),
            Type::Pointer { .. } => Ok(8),
            Type::Float => Ok(4),
            Type::Ignored => Err(ToPatchError::IgnoredType),
        }
    }

    /// Get the size of the struct `struct_` in bytes.
    ///
    /// The struct is assumed to have no padding, because the decompiled
    /// code does not seem to have any struct padding.
    fn size_of_struct_at(&self, struct_: &Struct, Ghost(b): Ghost<int>) -> (r: Result<
        u32,
        ToPatchError,
    >)
        requires
            reg_wf(self@.structs),
            0 <= b <= self@.structs.len(),
            struct_wf(self@.structs, StructV { fields: fields_view(struct_.fields@) }, b),
        ensures
            size_result_view(r) == s_size_struct(
                self@.structs,
                StructV { fields: fields_view(struct_.fields@) },
                b,
            ),
        decreases b, *struct_, struct_.fields@.len() + 1,
    {
        proof {
            assert(fields_view(struct_.fields@).skip(0) =~= fields_view(struct_.fields@));
        }
        self.size_of_fields_from(struct_, 0, Ghost(b))
    }

    /// Sum of the sizes of `struct_`'s fields from index `i` on.
    fn size_of_fields_from(&self, struct_: &Struct, i: usize, Ghost(b): Ghost<int>) -> (r: Result<
        u32,
        ToPatchError,
    >)
        requires
            reg_wf(self@.structs),
            0 <= b <= self@.structs.len(),
            i <= struct_.fields.len(),
            fields_wf(self@.structs, fields_view(struct_.fields@).skip(i as int), b),
            size_is_ok(
                s_size_fields(self@.structs, fields_view(struct_.fields@).skip(i as int), b),
                u32::MAX as nat,
            ),
        ensures
            size_result_view(r) == s_size_fields(
                self@.structs,
                fields_view(struct_.fields@).skip(i as int),
                b,
            ),
        decreases b, *struct_, struct_.fields@.len() - i,
    {
        let ghost reg = self@.structs;
        let ghost fv = fields_view(struct_.fields@);
        proof {
            crate::typ::lemma_fields_view(struct_.fields@);
        }
        if i == struct_.fields.len() {
            proof {
                assert(fv.skip(i as int) =~= Seq::<StructFieldV>::empty());
            }
            Ok(0)
        } else {
            proof {
                assert(fv.skip(i as int)[0] == fv[i as int]);
                assert(fv.skip(i as int).drop_first() =~= fv.skip(i as int + 1));
            }
            proof {
                assert(decreases_to!(*struct_ => struct_.fields@[i as int].typ));
            }
            match self.size_of_type_at(&struct_.fields[i].typ, Ghost(b)) {
                Err(e) => Err(e),
                Ok(sz) => {
                    match self.size_of_fields_from(struct_, i + 1, Ghost(b)) {
                        Err(e) => Err(e),
                        Ok(rest) => Ok(sz + rest),
                    }
                },
            }
        }
    }
}

/// The model of a resolution result.
pub open spec fn lv_result_view(r: Result<LeftValue, ToPatchError>) -> Result<
    LeftValueV,
    ToPatchErrorV,
> {
    match r {
        Ok(lv) => Ok(lv@),
        Err(e) => Err(e@),
    }
}

/// Index of the declaration with the greatest address at or below `addr`,
/// or -1 when every declaration lies above it.
pub open spec fn s_floor_decl(decls: Seq<DeclV>, addr: nat) -> int
    decreases decls.len(),
{
    if decls.len() == 0 {
        -1
    } else if decls.last().addr <= addr {
        decls.len() - 1
    } else {
        s_floor_decl(decls.drop_last(), addr)
    }
}

/// Index of the field with the greatest offset whose start `base + offset`
/// is at or below `addr`, or -1 when every field starts above it.
pub open spec fn s_pick_field(fields: Seq<StructFieldV>, base: nat, addr: nat) -> int
    decreases fields.len(),
{
    if fields.len() == 0 {
        -1
    } else if base + fields.last().offset <= addr {
        fields.len() - 1
    } else {
        s_pick_field(fields.drop_last(), base, addr)
    }
}

/// Whether a resolved location is a primitive cell: an integer of C width,
/// or a float.
pub open spec fn primitive_cell(t: TypeV) -> bool {
    match t {
        TypeV::Int { num_bytes, .. } => 1 <= num_bytes <= 8,
        TypeV::Float => true,
        _ => false,
    }
}

/// Narrow the location `lv` toward the most specific primitive cell whose
/// storage starts at or below `addr`, descending composite and array types.
pub open spec fn s_accum(reg: RegV, lv: LeftValueV, addr: nat, b: int) -> Result<
    LeftValueV,
    ToPatchErrorV,
>
    decreases b, lv.typ, 1int,
{
    match lv.typ {
        TypeV::AnonStruct(s) => s_accum_struct(reg, lv, addr, s, b),
        TypeV::Struct { name } => {
            let j = reg_index_of(reg, name);
            if 0 <= j < b {
                s_accum_struct(reg, lv, addr, reg[j].1, j)
            } else {
                Err(ToPatchErrorV::NoStruct { name })
            }
        },
        TypeV::Int { .. } => Ok(lv),
        TypeV::Float => Ok(lv),
        TypeV::Array { element_type, num_elements } => match s_size_of(reg, *element_type, b) {
            Err(e) => Err(e),
            Ok(esize) => {
                if esize == 0 {
                    Err(ToPatchErrorV::IgnoredType)
                } else {
                    let index = (addr - lv.addr) / esize as int;
                    if index >= num_elements {
                        Err(ToPatchErrorV::ArrayOutOfBounds { addr, lvalue: lv })
                    } else {
                        s_accum(
                            reg,
                            LeftValueV {
                                kind: LeftValueKindV::ArrayIndex {
                                    array: Box::new(lv),
                                    index: index as nat,
                                },
                                typ: *element_type,
                                addr: (lv.addr + index * esize) as nat,
                            },
                            addr,
                            b,
                        )
                    }
                }
            },
        },
        TypeV::Pointer { .. } => Err(ToPatchErrorV::PointerAssign { addr }),
        TypeV::Ignored => Err(ToPatchErrorV::IgnoredType),
    }
}

/// Narrow `lv`, known to be a composite with fields `s`, into the field
/// with the greatest offset starting at or below `addr`.
pub open spec fn s_accum_struct(reg: RegV, lv: LeftValueV, addr: nat, s: StructV, b: int) -> Result<
    LeftValueV,
    ToPatchErrorV,
>
    decreases b, s, 0int,
    via s_accum_struct_decreases
{
    let k = s_pick_field(s.fields, lv.addr, addr);
    if k < 0 {
        Err(ToPatchErrorV::NoField { addr })
    } else {
        s_accum(
            reg,
            LeftValueV {
                kind: LeftValueKindV::StructField {
                    struct_: Box::new(lv),
                    field_name: s.fields[k].name,
                },
                typ: s.fields[k].typ,
                addr: (lv.addr + s.fields[k].offset) as nat,
            },
            addr,
            b,
        )
    }
}

/// What `s_pick_field` finds: a field starting at or below `addr`.
pub proof fn lemma_pick_field_props(fields: Seq<StructFieldV>, base: nat, addr: nat)
    ensures
        s_pick_field(fields, base, addr) < fields.len(),
        s_pick_field(fields, base, addr) >= 0 ==> base + fields[s_pick_field(
            fields,
            base,
            addr,
        )].offset <= addr,
    decreases fields.len(),
{
    if fields.len() > 0 && !(base + fields.last().offset <= addr) {
        lemma_pick_field_props(fields.drop_last(), base, addr);
        let k = s_pick_field(fields.drop_last(), base, addr);
        if k >= 0 {
            assert(fields.drop_last()[k] == fields[k]);
        }
    }
}

#[via_fn]
proof fn s_accum_struct_decreases(reg: RegV, lv: LeftValueV, addr: nat, s: StructV, b: int) {
    lemma_pick_field_props(s.fields, lv.addr, addr);
    let k = s_pick_field(s.fields, lv.addr, addr);
    if k >= 0 {
        assert(decreases_to!(s => s.fields));
        assert(decreases_to!(s.fields => s.fields[k]));
        assert(decreases_to!(s.fields[k] => s.fields[k].typ));
        assert(decreases_to!(b, s, 0int => b, s.fields[k].typ, 1int));
    }
}

/// Resolve `addr` to the lvalue whose storage contains it: floor lookup
/// over the declarations, then recursive narrowing through the type.
pub open spec fn s_resolve(d: DecompDataV, addr: nat) -> Result<LeftValueV, ToPatchErrorV> {
    let i = s_floor_decl(d.decls, addr);
    if i < 0 {
        Err(ToPatchErrorV::NoDecl { addr })
    } else {
        match d.decls[i].kind {
            DeclKindV::Fn => Err(ToPatchErrorV::FnPatch { addr }),
            DeclKindV::Var { typ } => s_accum(
                d.structs,
                LeftValueV {
                    kind: LeftValueKindV::Ident { name: d.decls[i].name },
                    typ,
                    addr: d.decls[i].addr,
                },
                addr,
                d.structs.len() as int,
            ),
        }
    }
}

impl DecompData {
    /// Floor lookup over the first `i` declarations, from the end.
    fn floor_upto(&self, addr: u32, i: usize) -> (r: Option<usize>)
        requires
            i <= self@.decls.len(),
        ensures
            match r {
                Some(k) => k as int == s_floor_decl(self@.decls.take(i as int), addr as nat) && k
                    < i && self@.decls[k as int].addr <= addr as nat,
                None => s_floor_decl(self@.decls.take(i as int), addr as nat) == -1,
            },
        decreases i,
    {
        if i == 0 {
            proof {
                assert(self@.decls.take(0) =~= Seq::<DeclV>::empty());
            }
            None
        } else {
            proof {
                assert(self@.decls.take(i as int).last() == self@.decls[i as int - 1]);
                assert(self@.decls.take(i as int).drop_last() =~= self@.decls.take(i as int - 1));
            }
            if self.decls[i - 1].addr <= addr {
                Some(i - 1)
            } else {
                self.floor_upto(addr, i - 1)
            }
        }
    }

    /// Field pick over the first `i` fields, from the end.
    fn pick_field_upto(fields: &Vec<crate::typ::StructField>, base: u32, addr: u32, i: usize) -> (r:
        Option<usize>)
        requires
            i <= fields.len(),
            base <= addr,
        ensures
            match r {
                Some(k) => k as int == s_pick_field(
                    fields_view(fields@).take(i as int),
                    base as nat,
                    addr as nat,
                ) && k < i && base as nat + fields_view(fields@)[k as int].offset <= addr as nat,
                None => s_pick_field(fields_view(fields@).take(i as int), base as nat, addr as nat)
                    == -1,
            },
        decreases i,
    {
        proof {
            crate::typ::lemma_fields_view(fields@);
        }
        if i == 0 {
            proof {
                assert(fields_view(fields@).take(0) =~= Seq::<StructFieldV>::empty());
            }
            None
        } else {
            proof {
                assert(fields_view(fields@).take(i as int).last() == fields_view(fields@)[i as int
                    - 1]);
                assert(fields_view(fields@).take(i as int).drop_last() =~= fields_view(
                    fields@,
                ).take(i as int - 1));
            }
            if fields[i - 1].offset <= addr - base {
                Some(i - 1)
            } else {
                Self::pick_field_upto(fields, base, addr, i - 1)
            }
        }
    }

    /// Get the lvalue corresponding to the address.
    ///
    /// For example, if `addr` is `0x8033B176`, the lvalue may be
    /// `gMarioStates[0].flags`.
    pub fn addr_to_lvalue(&self, addr: u32) -> (r: Result<LeftValue, ToPatchError>)
        requires
            self.wf(),
        ensures
            lv_result_view(r) == s_resolve(self@, addr as nat),
            r matches Ok(lv) ==> primitive_cell(lv@.typ) && lv@.addr <= addr as nat,
    {
        let n = self.decls.len();
        proof {
            assert(self@.decls.take(n as int) =~= self@.decls);
        }
        match self.floor_upto(addr, n) {
            None => Err(ToPatchError::NoDecl { addr }),
            Some(i) => {
                match &self.decls[i].kind {
                    DeclKind::Fn => Err(ToPatchError::FnPatch { addr }),
                    DeclKind::Var { typ } => {
                        let accum = LeftValue {
                            kind: LeftValueKind::Ident { name: self.decls[i].name.clone() },
                            typ: typ.clone(),
                            addr: self.decls[i].addr,
                        };
                        let ghost b = self@.structs.len() as int;
                        proof {
                            assert(self@.decls[i as int].kind == DeclKindV::Var {
                                typ: accum.typ@,
                            });
                            assert(accum@ =~= LeftValueV {
                                kind: LeftValueKindV::Ident { name: self@.decls[i as int].name },
                                typ: accum.typ@,
                                addr: self@.decls[i as int].addr,
                            });
                        }
                        self.addr_accum_to_lvalue(accum, addr, self.decls[i].addr, Ghost(b))
                    },
                }
            },
        }
    }

    /// Narrow the accumulated lvalue into the picked field of `struct_`.
    #[verifier::rlimit(60)]
    fn addr_and_struct_to_lvalue(
        &self,
        accum: LeftValue,
        addr: u32,
        struct_: &Struct,
        accum_addr: u32,
        Ghost(b): Ghost<int>,
    ) -> (r: Result<LeftValue, ToPatchError>)
        requires
            reg_wf(self@.structs),
            0 <= b <= self@.structs.len(),
            struct_wf(self@.structs, StructV { fields: fields_view(struct_.fields@) }, b),
            accum@.addr == accum_addr as nat,
            accum_addr <= addr,
        ensures
            lv_result_view(r) == s_accum_struct(
                self@.structs,
                accum@,
                addr as nat,
                StructV { fields: fields_view(struct_.fields@) },
                b,
            ),
            r matches Ok(lv) ==> primitive_cell(lv@.typ) && lv@.addr <= addr as nat,
        decreases b, (StructV { fields: fields_view(struct_.fields@) }), 0int,
    {
        let ghost reg = self@.structs;
        let ghost sv = StructV { fields: fields_view(struct_.fields@) };
        proof {
            crate::typ::lemma_fields_view(struct_.fields@);
            assert(fields_view(struct_.fields@).take(struct_.fields.len() as int) =~= fields_view(
                struct_.fields@,
            ));
        }
        match Self::pick_field_upto(&struct_.fields, accum_addr, addr, struct_.fields.len()) {
            None => Err(ToPatchError::NoField { addr }),
            Some(k) => {
                let field = &struct_.fields[k];
                let accum_addr = accum_addr + field.offset;
                proof {
                    lemma_fields_wf_index(reg, sv.fields, b, k as int);
                    assert(decreases_to!(sv => sv.fields));
                    assert(decreases_to!(sv.fields => sv.fields[k as int]));
                    assert(decreases_to!(sv.fields[k as int] => sv.fields[k as int].typ));
                }
                let next = LeftValue {
                    kind: LeftValueKind::StructField {
                        struct_: Box::new(accum),
                        field_name: field.name.clone(),
                    },
                    typ: field.typ.clone(),
                    addr: accum_addr,
                };
                proof {
                    assert(next@.typ == sv.fields[k as int].typ);
                }
                self.addr_accum_to_lvalue(next, addr, accum_addr, Ghost(b))
            },
        }
    }

    /// Get the lvalue corresponding to the address, given an initial
    /// accumulator.
    #[verifier::rlimit(60)]
    fn addr_accum_to_lvalue(
        &self,
        accum: LeftValue,
        addr: u32,
        accum_addr: u32,
        Ghost(b): Ghost<int>,
    ) -> (r: Result<LeftValue, ToPatchError>)
        requires
            reg_wf(self@.structs),
            0 <= b <= self@.structs.len(),
            type_wf(self@.structs, accum@.typ, b),
            accum@.addr == accum_addr as nat,
            accum_addr <= addr,
        ensures
            lv_result_view(r) == s_accum(self@.structs, accum@, addr as nat, b),
            r matches Ok(lv) ==> primitive_cell(lv@.typ) && lv@.addr <= addr as nat,
        decreases b, accum@.typ, 1int,
    {
        let ghost reg = self@.structs;
        let ghost tv = accum@.typ;
        let typ = accum.typ.clone();
        match typ {
            Type::AnonStruct(struct_) => {
                proof {
                    let sv = StructV { fields: fields_view(struct_.fields@) };
                    assert(accum@.typ == TypeV::AnonStruct(sv));
                    assert(decreases_to!(accum@.typ => accum@.typ->AnonStruct_0));
                }
                self.addr_and_struct_to_lvalue(accum, addr, &struct_, accum_addr, Ghost(b))
            },
            Type::Struct { name } => {
                match self.find_struct(&name) {
                    None => Err(ToPatchError::NoStruct { name }),
                    Some(j) => {
                        proof {
                            lemma_reg_index_of(reg, name@);
                            assert(struct_wf(reg, reg[j as int].1, j as int));
                            assert(reg[j as int].1 =~= StructV {
                                fields: fields_view(self.structs[j as int].1.fields@),
                            });
                        }
                        self.addr_and_struct_to_lvalue(
                            accum,
                            addr,
                            &self.structs[j].1,
                            accum_addr,
                            Ghost(j as int),
                        )
                    },
                }
            },
            Type::Int { .. } => Ok(accum),
            Type::Float => Ok(accum),
            Type::Array { element_type, num_elements } => {
                match self.size_of_type_at(&element_type, Ghost(b)) {
                    Err(e) => Err(e),
                    Ok(element_type_size) => {
                        if element_type_size == 0 {
                            Err(ToPatchError::IgnoredType)
                        } else {
                            let index = (addr - accum_addr) / element_type_size;
                            if index >= num_elements {
                                return Err(ToPatchError::ArrayOutOfBounds {
                                    addr,
                                    lvalue: accum,
                                });
                            }
                            proof {
                                vstd::arithmetic::div_mod::lemma_fundamental_div_mod(
                                    (addr - accum_addr) as int,
                                    element_type_size as int,
                                );
                                vstd::arithmetic::div_mod::lemma_remainder_lower(
                                    (addr - accum_addr) as int,
                                    element_type_size as int,
                                );
                                assert(index as int * element_type_size as int <= (addr
                                    - accum_addr) as int);
                            }
                            let accum_addr = accum_addr + index * element_type_size;
                            let next = LeftValue {
                                kind: LeftValueKind::ArrayIndex {
                                    array: Box::new(accum),
                                    index,
                                },
                                typ: (*element_type).clone(),
                                addr: accum_addr,
                            };
                            proof {
                                assert(tv == TypeV::Array {
                                    element_type: Box::new(type_view(*element_type)),
                                    num_elements: num_elements as nat,
                                });
                                assert(decreases_to!(tv => tv->Array_element_type));
                                assert(next@.typ == *tv->Array_element_type);
                            }
                            self.addr_accum_to_lvalue(next, addr, accum_addr, Ghost(b))
                        }
                    },
                }
            },
            Type::Pointer { .. } => Err(ToPatchError::PointerAssign { addr }),
            Type::Ignored => Err(ToPatchError::IgnoredType),
        }
    }
}

/// The model of a shift result.
pub open spec fn shift_result_view(r: Result<Option<u64>, ToPatchError>) -> Result<
    Option<nat>,
    ToPatchErrorV,
> {
    match r {
        Ok(Some(s)) => Ok(Some(s as nat)),
        Ok(None) => Ok(None),
        Err(e) => Err(e@),
    }
}

/// The model of a generated-text result.
pub open spec fn str_result_view(r: Result<String, ToPatchError>) -> Result<
    Seq<char>,
    ToPatchErrorV,
> {
    match r {
        Ok(s) => Ok(s@),
        Err(e) => Err(e@),
    }
}

/// The left bit shift that places a `width`-byte access at `addr` within
/// the storage of `lv`: storage size minus width minus the byte offset of
/// `addr` in the storage, in bits.  `None` when the access runs past the
/// end of the storage; on the big-endian target a low address within a
/// cell is a high bit position.
pub open spec fn s_shift(reg: RegV, lv: LeftValueV, width: nat, addr: nat, b: int) -> Result<
    Option<nat>,
    ToPatchErrorV,
> {
    match s_size_of(reg, lv.typ, b) {
        Err(e) => Err(e),
        Ok(sz) => {
            if sz >= width + (addr - lv.addr) {
                Ok(Some(((sz - width - (addr - lv.addr)) * 8) as nat))
            } else {
                Ok(None)
            }
        },
    }
}

/// The text of a masked write statement:
/// `lv = (lv & ~(mask << shift)) | (value << shift);`.
pub open spec fn s_write_stmt(
    lv: LeftValueV,
    size: crate::gameshark::ValueSize,
    value: u64,
    shift: u64,
) -> Seq<char> {
    lv_text(lv) + seq![' ', '=', ' ', '('] + lv_text(lv) + seq![' ', '&', ' ']
        + crate::numfmt::hex_prefixed((!(size.spec_mask() << shift)) as nat) + seq![
        ')',
        ' ',
        '|',
        ' ',
    ] + crate::numfmt::hex_prefixed((value << shift) as nat) + seq![';']
}

/// The text of a masked check:
/// `if ((lv & (mask << shift)) OP (value << shift))`.
pub open spec fn s_check_stmt(
    lv: LeftValueV,
    size: crate::gameshark::ValueSize,
    value: u64,
    shift: u64,
    check_eq: bool,
) -> Seq<char> {
    seq!['i', 'f', ' ', '(', '('] + lv_text(lv) + seq![' ', '&', ' ']
        + crate::numfmt::hex_prefixed((size.spec_mask() << shift) as nat) + seq![')', ' '] + (
    if check_eq {
        seq!['=', '=']
    } else {
        seq!['!', '=']
    }) + seq![' '] + crate::numfmt::hex_prefixed((value << shift) as nat) + seq![')']
}

/// Whether a `size`-wide access at `addr` stays clear of the one case the
/// generator does not handle: a boundary crossing whose one-byte remainder
/// crosses a boundary again, which would recurse without end.
#[verifier::opaque]
pub open spec fn s_access_ok(d: DecompDataV, size: crate::gameshark::ValueSize, addr: nat) -> bool
    decreases size.spec_num_bytes(),
{
    match s_resolve(d, addr) {
        Err(_) => true,
        Ok(lv) => match s_shift(d.structs, lv, size.spec_num_bytes(), addr, d.structs.len() as int) {
            Err(_) => true,
            Ok(Some(_)) => true,
            Ok(None) => size is Bits16 && addr + 1 <= u32::MAX && s_access_ok(
                d,
                crate::gameshark::ValueSize::Bits8,
                addr + 1,
            ),
        },
    }
}

/// The write statement text for a `size`-wide write of `value` at `addr`.
///
/// An access that overruns its location's storage is split: the low byte
/// is written at the following address, the high byte in the current
/// location at shift zero, and the two statements are concatenated.
#[verifier::opaque]
pub open spec fn s_format_write(
    d: DecompDataV,
    size: crate::gameshark::ValueSize,
    value: u64,
    addr: nat,
) -> Result<Seq<char>, ToPatchErrorV>
    decreases size.spec_num_bytes(),
{
    match s_resolve(d, addr) {
        Err(e) => Err(e),
        Ok(lv) => match s_shift(d.structs, lv, size.spec_num_bytes(), addr, d.structs.len() as int) {
            Err(e) => Err(e),
            Ok(Some(sh)) => Ok(s_write_stmt(lv, size, value, sh as u64)),
            Ok(None) => match size {
                crate::gameshark::ValueSize::Bits16 => match s_format_write(
                    d,
                    crate::gameshark::ValueSize::Bits8,
                    value & 0xff,
                    addr + 1,
                ) {
                    Err(e) => Err(e),
                    Ok(next) => Ok(
                        s_write_stmt(lv, crate::gameshark::ValueSize::Bits8, value >> 8, 0)
                            + seq![' '] + next,
                    ),
                },
                crate::gameshark::ValueSize::Bits8 => vstd::pervasive::arbitrary(),
            },
        },
    }
}

/// The check text for a `size`-wide comparison with `value` at `addr`,
/// split at a boundary crossing like the write; the two successive `if`s
/// express a logical AND through nesting.
#[verifier::opaque]
pub open spec fn s_format_check(
    d: DecompDataV,
    size: crate::gameshark::ValueSize,
    value: u64,
    addr: nat,
    check_eq: bool,
) -> Result<Seq<char>, ToPatchErrorV>
    decreases size.spec_num_bytes(),
{
    match s_resolve(d, addr) {
        Err(e) => Err(e),
        Ok(lv) => match s_shift(d.structs, lv, size.spec_num_bytes(), addr, d.structs.len() as int) {
            Err(e) => Err(e),
            Ok(Some(sh)) => Ok(s_check_stmt(lv, size, value, sh as u64, check_eq)),
            Ok(None) => match size {
                crate::gameshark::ValueSize::Bits16 => match s_format_check(
                    d,
                    crate::gameshark::ValueSize::Bits8,
                    value & 0xff,
                    addr + 1,
                    check_eq,
                ) {
                    Err(e) => Err(e),
                    Ok(next) => Ok(
                        s_check_stmt(
                            lv,
                            crate::gameshark::ValueSize::Bits8,
                            value >> 8,
                            0,
                            check_eq,
                        ) + seq![' '] + next,
                    ),
                },
                crate::gameshark::ValueSize::Bits8 => vstd::pervasive::arbitrary(),
            },
        },
    }
}

/// Render a masked write statement.
fn render_write_stmt(
    lvalue: &LeftValue,
    size: crate::gameshark::ValueSize,
    value: u64,
    shift: u64,
) -> (r: String)
    requires
        shift < 64,
    ensures
        r@ == s_write_stmt(lvalue@, size, value, shift),
{
    let mut out = String::new();
    let lvtext = lvalue.to_text();
    out.append(lvtext.as_str());
    out.append(" = (");
    out.append(lvtext.as_str());
    out.append(" & ");
    crate::numfmt::push_hex_prefixed(!(size.mask() << shift), &mut out);
    out.append(") | ");
    crate::numfmt::push_hex_prefixed(value << shift, &mut out);
    out.append(";");
    proof {
        reveal_strlit(" = (");
        reveal_strlit(" & ");
        reveal_strlit(") | ");
        reveal_strlit(";");
        assert(out@ =~= s_write_stmt(lvalue@, size, value, shift));
    }
    out
}

/// Render a masked check.
fn render_check_stmt(
    lvalue: &LeftValue,
    size: crate::gameshark::ValueSize,
    value: u64,
    shift: u64,
    check_eq: bool,
) -> (r: String)
    requires
        shift < 64,
    ensures
        r@ == s_check_stmt(lvalue@, size, value, shift, check_eq),
{
    let mut out = String::new();
    out.append("if ((");
    let lvtext = lvalue.to_text();
    out.append(lvtext.as_str());
    out.append(" & ");
    crate::numfmt::push_hex_prefixed(size.mask() << shift, &mut out);
    out.append(") ");
    if check_eq {
        out.append("==");
    } else {
        out.append("!=");
    }
    out.append(" ");
    crate::numfmt::push_hex_prefixed(value << shift, &mut out);
    out.append(")");
    proof {
        reveal_strlit("if ((");
        reveal_strlit(" & ");
        reveal_strlit(") ");
        reveal_strlit("==");
        reveal_strlit("!=");
        reveal_strlit(" ");
        reveal_strlit(")");
        assert(out@ =~= s_check_stmt(lvalue@, size, value, shift, check_eq));
    }
    out
}

impl DecompData {
    /// Get the left bit shift amount required to access a `value_size`d
    /// value at `addr` in `lvalue`.
    ///
    /// ## Return values
    ///   * `Ok(Some(shift))` - Success
    ///   * `Ok(None)` - No shift exists, because `value_size` at `addr`
    ///     overlaps the edge of the lvalue
    ///   * `Err(err)` - Error getting the size of the lvalue
    pub fn lvalue_get_shift(
        &self,
        lvalue: &LeftValue,
        value_size: crate::gameshark::ValueSize,
        addr: u32,
    ) -> (r: Result<Option<u64>, ToPatchError>)
        requires
            self.wf(),
            type_wf(self@.structs, lvalue@.typ, self@.structs.len() as int),
            lvalue@.addr <= addr as nat,
        ensures
            shift_result_view(r) == s_shift(
                self@.structs,
                lvalue@,
                value_size.spec_num_bytes(),
                addr as nat,
                self@.structs.len() as int,
            ),
    {
        let lvalue_size = match self.size_of_type(&lvalue.typ) {
            Ok(sz) => sz,
            Err(e) => {
                return Err(e);
            },
        };
        let width = value_size.num_bytes();
        let delta = addr - lvalue.addr;
        if lvalue_size as u64 >= width as u64 + delta as u64 {
            Ok(Some((lvalue_size as u64 - width as u64 - delta as u64) * 8))
        } else {
            Ok(None)
        }
    }

    /// Create a line of C source code that does a write to an address.
    ///
    /// ## Parameters
    ///   * `write_size` - Size of value to write
    ///   * `value` - Value to write
    ///   * `addr` - Address to write value
    pub fn format_write(
        &self,
        write_size: crate::gameshark::ValueSize,
        value: u64,
        addr: u32,
    ) -> (r: Result<String, ToPatchError>)
        requires
            self.wf(),
            s_access_ok(self@, write_size, addr as nat),
        ensures
            str_result_view(r) == s_format_write(self@, write_size, value, addr as nat),
        decreases write_size.spec_num_bytes(),
    {
        proof {
            reveal(s_access_ok);
            reveal(s_format_write);
        }
        let ghost reg = self@.structs;
        let lvalue = match self.addr_to_lvalue(addr) {
            Ok(lv) => lv,
            Err(e) => {
                return Err(e);
            },
        };
        proof {
            assert(type_wf(reg, lvalue@.typ, reg.len() as int));
        }
        let shift_opt = match self.lvalue_get_shift(&lvalue, write_size, addr) {
            Ok(s) => s,
            Err(e) => {
                return Err(e);
            },
        };
        match shift_opt {
            Some(shift) => {
                proof {
                    assert(shift < 64) by {
                        assert(s_size_of(reg, lvalue@.typ, reg.len() as int) matches Ok(sz) && sz
                            <= 8);
                    }
                }
                Ok(render_write_stmt(&lvalue, write_size, value, shift))
            },
            None => {
                let next = match self.format_write(
                    crate::gameshark::ValueSize::Bits8,
                    value & 0xff,
                    addr + 1,
                ) {
                    Ok(s) => s,
                    Err(e) => {
                        return Err(e);
                    },
                };
                let mut out = render_write_stmt(
                    &lvalue,
                    crate::gameshark::ValueSize::Bits8,
                    value >> 8,
                    0,
                );
                out.append(" ");
                out.append(next.as_str());
                proof {
                    reveal_strlit(" ");
                    assert(out@ =~= s_write_stmt(
                        lvalue@,
                        crate::gameshark::ValueSize::Bits8,
                        value >> 8,
                        0,
                    ) + seq![' '] + next@);
                }
                Ok(out)
            },
        }
    }

    /// Create a line of C source code that checks the value at an address.
    ///
    /// ## Parameters
    ///   * `read_size` - Size of value to read
    ///   * `value` - Value to compare with
    ///   * `addr` - Address to read value from
    ///   * `check_eq` - Whether the operation is `==` or `!=`
    pub fn format_check(
        &self,
        read_size: crate::gameshark::ValueSize,
        value: u64,
        addr: u32,
        check_eq: bool,
    ) -> (r: Result<String, ToPatchError>)
        requires
            self.wf(),
            s_access_ok(self@, read_size, addr as nat),
        ensures
            str_result_view(r) == s_format_check(self@, read_size, value, addr as nat, check_eq),
        decreases read_size.spec_num_bytes(),
    {
        proof {
            reveal(s_access_ok);
            reveal(s_format_check);
        }
        let ghost reg = self@.structs;
        let lvalue = match self.addr_to_lvalue(addr) {
            Ok(lv) => lv,
            Err(e) => {
                return Err(e);
            },
        };
        proof {
            assert(type_wf(reg, lvalue@.typ, reg.len() as int));
        }
        let shift_opt = match self.lvalue_get_shift(&lvalue, read_size, addr) {
            Ok(s) => s,
            Err(e) => {
                return Err(e);
            },
        };
        match shift_opt {
            Some(shift) => {
                proof {
                    assert(shift < 64) by {
                        assert(s_size_of(reg, lvalue@.typ, reg.len() as int) matches Ok(sz) && sz
                            <= 8);
                    }
                }
                Ok(render_check_stmt(&lvalue, read_size, value, shift, check_eq))
            },
            None => {
                let next = match self.format_check(
                    crate::gameshark::ValueSize::Bits8,
                    value & 0xff,
                    addr + 1,
                    check_eq,
                ) {
                    Ok(s) => s,
                    Err(e) => {
                        return Err(e);
                    },
                };
                let mut out = render_check_stmt(
                    &lvalue,
                    crate::gameshark::ValueSize::Bits8,
                    value >> 8,
                    0,
                    check_eq,
                );
                out.append(" ");
                out.append(next.as_str());
                proof {
                    reveal_strlit(" ");
                    assert(out@ =~= s_check_stmt(
                        lvalue@,
                        crate::gameshark::ValueSize::Bits8,
                        value >> 8,
                        0,
                        check_eq,
                    ) + seq![' '] + next@);
                }
                Ok(out)
            },
        }
    }
}

/// The size of the access a code line makes.
pub open spec fn s_line_size(cl: crate::gameshark::CodeLine) -> crate::gameshark::ValueSize {
    match cl {
        crate::gameshark::CodeLine::Write8 { .. } => crate::gameshark::ValueSize::Bits8,
        crate::gameshark::CodeLine::Write16 { .. } => crate::gameshark::ValueSize::Bits16,
        crate::gameshark::CodeLine::IfEq8 { .. } => crate::gameshark::ValueSize::Bits8,
        crate::gameshark::CodeLine::IfEq16 { .. } => crate::gameshark::ValueSize::Bits16,
        crate::gameshark::CodeLine::IfNotEq8 { .. } => crate::gameshark::ValueSize::Bits8,
        crate::gameshark::CodeLine::IfNotEq16 { .. } => crate::gameshark::ValueSize::Bits16,
    }
}

/// Whether a code line's absolute address fits the address space and its
/// access does not hit the unhandled double boundary crossing.
#[verifier::opaque]
pub open spec fn s_line_ok(d: DecompDataV, cl: crate::gameshark::CodeLine) -> bool {
    cl.spec_addr() + 0x80000000 <= u32::MAX && s_access_ok(
        d,
        s_line_size(cl),
        cl.spec_addr() + 0x80000000,
    )
}

/// The C statement for one code line, prefixed with a comment holding the
/// line's own text.  The absolute address is the line's 24-bit address
/// plus the RAM segment base.
#[verifier::opaque]
pub open spec fn s_gs_line_to_c(d: DecompDataV, code: crate::gameshark::CodeLine) -> Result<
    Seq<char>,
    ToPatchErrorV,
> {
    let addr = code.spec_addr() + 0x80000000;
    let inner = match code {
        crate::gameshark::CodeLine::Write8 { value, .. } => s_format_write(
            d,
            crate::gameshark::ValueSize::Bits8,
            value as u64,
            addr,
        ),
        crate::gameshark::CodeLine::Write16 { value, .. } => s_format_write(
            d,
            crate::gameshark::ValueSize::Bits16,
            value as u64,
            addr,
        ),
        crate::gameshark::CodeLine::IfEq8 { value, .. } => s_format_check(
            d,
            crate::gameshark::ValueSize::Bits8,
            value as u64,
            addr,
            true,
        ),
        crate::gameshark::CodeLine::IfEq16 { value, .. } => s_format_check(
            d,
            crate::gameshark::ValueSize::Bits16,
            value as u64,
            addr,
            true,
        ),
        crate::gameshark::CodeLine::IfNotEq8 { value, .. } => s_format_check(
            d,
            crate::gameshark::ValueSize::Bits8,
            value as u64,
            addr,
            false,
        ),
        crate::gameshark::CodeLine::IfNotEq16 { value, .. } => s_format_check(
            d,
            crate::gameshark::ValueSize::Bits16,
            value as u64,
            addr,
            false,
        ),
    };
    match inner {
        Err(e) => Err(e),
        Ok(c) => Ok(
            seq!['/', '*', ' '] + crate::gameshark::s_render_line(code) + seq![' ', '*', '/', ' ']
                + c,
        ),
    }
}

/// Prefix a generated statement with a comment holding the line's text.
fn prefix_comment(code: crate::gameshark::CodeLine, c_source: &String) -> (r: String)
    ensures
        r@ == seq!['/', '*', ' '] + crate::gameshark::s_render_line(code) + seq![' ', '*', '/', ' ']
            + c_source@,
{
    let mut out = String::new();
    out.append("/* ");
    let rendered = code.render();
    out.append(rendered.as_str());
    out.append(" */ ");
    out.append(c_source.as_str());
    proof {
        reveal_strlit("/* ");
        reveal_strlit(" */ ");
        assert(out@ =~= seq!['/', '*', ' '] + crate::gameshark::s_render_line(code) + seq![
            ' ',
            '*',
            '/',
            ' ',
        ] + c_source@);
    }
    out
}

impl DecompData {
    /// Convert a GameShark code line to a line of C source code.
    #[verifier::rlimit(100)]
    #[verifier::spinoff_prover]
    pub fn gs_line_to_c(&self, code: crate::gameshark::CodeLine) -> (r: Result<
        String,
        ToPatchError,
    >)
        requires
            self.wf(),
            s_line_ok(self@, code),
        ensures
            str_result_view(r) == s_gs_line_to_c(self@, code),
    {
        proof {
            reveal(s_gs_line_to_c);
            reveal(s_line_ok);
        }
        let addr = code.addr() + 0x80000000;
        let c_source = match code {
            crate::gameshark::CodeLine::Write8 { value, .. } => self.format_write(
                crate::gameshark::ValueSize::Bits8,
                value as u64,
                addr,
            ),
            crate::gameshark::CodeLine::Write16 { value, .. } => self.format_write(
                crate::gameshark::ValueSize::Bits16,
                value as u64,
                addr,
            ),
            crate::gameshark::CodeLine::IfEq8 { value, .. } => self.format_check(
                crate::gameshark::ValueSize::Bits8,
                value as u64,
                addr,
                true,
            ),
            crate::gameshark::CodeLine::IfEq16 { value, .. } => self.format_check(
                crate::gameshark::ValueSize::Bits16,
                value as u64,
                addr,
                true,
            ),
            crate::gameshark::CodeLine::IfNotEq8 { value, .. } => self.format_check(
                crate::gameshark::ValueSize::Bits8,
                value as u64,
                addr,
                false,
            ),
            crate::gameshark::CodeLine::IfNotEq16 { value, .. } => self.format_check(
                crate::gameshark::ValueSize::Bits16,
                value as u64,
                addr,
                false,
            ),
        };
        let c_source = match c_source {
            Ok(c) => c,
            Err(e) => {
                return Err(e);
            },
        };
        Ok(prefix_comment(code, &c_source))
    }

    /// The indented, commented statements for every line of a code.
    fn cheat_lines_to_c(&self, code: &crate::gameshark::Code) -> (r: Result<
        Vec<String>,
        ToPatchError,
    >)
        requires
            self.wf(),
            s_code_ok(self@, code@),
        ensures
            match r {
                Ok(v) => s_gs_lines_to_c(self@, code@) == Ok::<Seq<Seq<char>>, ToPatchErrorV>(
                    strings_view(v@),
                ),
                Err(e) => s_gs_lines_to_c(self@, code@) == Err::<Seq<Seq<char>>, ToPatchErrorV>(
                    e@,
                ),
            },
            r matches Ok(v) ==> v@.len() == code@.len(),
    {
        let ghost d = self@;
        let mut out: Vec<String> = Vec::new();
        let n = code.0.len();
        let mut i: usize = 0;
        proof {
            assert(code@.skip(0) =~= code@);
        }
        while i < n
            invariant
                i <= n,
                n == code@.len(),
                self.wf(),
                s_code_ok(d, code@),
                d == self@,
                out@.len() == i,
                match s_gs_lines_to_c(d, code@.skip(i as int)) {
                    Ok(rest) => s_gs_lines_to_c(d, code@) == Ok::<Seq<Seq<char>>, ToPatchErrorV>(
                        strings_view(out@) + rest,
                    ),
                    Err(e) => s_gs_lines_to_c(d, code@) == Err::<Seq<Seq<char>>, ToPatchErrorV>(e),
                },
            decreases n - i,
        {
            proof {
                assert(code@.skip(i as int)[0] == code@[i as int]);
                assert(code@.skip(i as int).drop_first() =~= code@.skip(i as int + 1));
                assert(s_line_ok(d, code@[i as int]));
            }
            let line = match self.gs_line_to_c(code.0[i]) {
                Ok(l) => l,
                Err(e) => {
                    return Err(e);
                },
            };
            let mut indented = String::new();
            indented.append("    ");
            indented.append(line.as_str());
            proof {
                reveal_strlit("    ");
                assert(indented@ =~= seq![' ', ' ', ' ', ' '] + line@);
            }
            let ghost old_out = out@;
            out.push(indented);
            proof {
                match s_gs_lines_to_c(d, code@.skip(i as int + 1)) {
                    Ok(rest) => {
                        assert(strings_view(old_out) + (seq![indented@] + rest) =~= strings_view(
                            out@,
                        ) + rest);
                    },
                    Err(_) => {},
                }
            }
            i = i + 1;
        }
        proof {
            assert(code@.skip(n as int) =~= Seq::<crate::gameshark::CodeLine>::empty());
            assert(strings_view(out@) + Seq::<Seq<char>>::empty() =~= strings_view(out@));
        }
        Ok(out)
    }
}

/// The models of a sequence of built strings.
pub open spec fn strings_view(v: Seq<String>) -> Seq<Seq<char>> {
    Seq::new(v.len(), |i: int| v[i]@)
}

/// Whether a path needs no quoting in a diff header: none of the
/// characters that make the diff emitter quote and escape it.
pub open spec fn plain_path(s: Seq<char>) -> bool {
    forall|i: int|
        0 <= i < s.len() ==> !((#[trigger] s[i]) == ' ' || s[i] == '\t' || s[i] == '\r' || s[i]
            == '\n' || s[i] == '"' || s[i] == '\u{0}' || s[i] == '\\')
}

/// The added lines of a hunk, each opened by a newline and a `+`.
pub open spec fn s_added_lines(added: Seq<Seq<char>>) -> Seq<char>
    decreases added.len(),
{
    if added.len() == 0 {
        Seq::empty()
    } else {
        seq!['\n', '+'] + added[0] + s_added_lines(added.drop_first())
    }
}

/// A unified diff with one hunk: the two header lines, the hunk header,
/// a leading context line, the added lines, a trailing context line, and
/// no final newline.
#[verifier::opaque]
pub open spec fn s_unified_diff(
    old_path: Seq<char>,
    new_path: Seq<char>,
    old_start: nat,
    old_count: nat,
    new_start: nat,
    new_count: nat,
    head: Seq<char>,
    added: Seq<Seq<char>>,
    tail: Seq<char>,
) -> Seq<char> {
    seq!['-', '-', '-', ' '] + old_path + seq!['\n', '+', '+', '+', ' '] + new_path + seq![
        '\n',
        '@',
        '@',
        ' ',
        '-',
    ] + crate::numfmt::decimal(old_start) + seq![','] + crate::numfmt::decimal(old_count) + seq![
        ' ',
        '+',
    ] + crate::numfmt::decimal(new_start) + seq![','] + crate::numfmt::decimal(new_count) + seq![
        ' ',
        '@',
        '@',
    ] + seq!['\n', ' '] + head + s_added_lines(added) + seq!['\n', ' '] + tail
}

/// Relies on the `patch` crate's `Display` implementations: a patch is
/// rendered as `--- old`, `\n+++ new`, then each hunk as
/// `\n@@ -start,count +start,count @@` followed by `\n` and one prefixed
/// line per hunk line (`+` for an addition, a space for context), with no
/// trailing newline; an unquoted path is printed verbatim.
#[verifier::external_body]
fn render_unified_diff(
    old_path: &str,
    new_path: &str,
    old_start: u64,
    old_count: u64,
    new_start: u64,
    new_count: u64,
    head: &str,
    added: &Vec<String>,
    tail: &str,
) -> (r: String)
    requires
        plain_path(old_path@),
        plain_path(new_path@),
    ensures
        r@ == s_unified_diff(
            old_path@,
            new_path@,
            old_start as nat,
            old_count as nat,
            new_start as nat,
            new_count as nat,
            head@,
            strings_view(added@),
            tail@,
        ),
{
    let mut lines = vec![patch::Line::Context(head)];
    lines.extend(added.iter().map(|l| patch::Line::Add(l)));
    lines.push(patch::Line::Context(tail));
    let old = patch::File { path: std::borrow::Cow::from(old_path), meta: None };
    let new = patch::File { path: std::borrow::Cow::from(new_path), meta: None };
    let old_range = patch::Range { start: old_start, count: old_count };
    let new_range = patch::Range { start: new_start, count: new_count };
    let hunk = patch::Hunk { old_range, new_range, range_hint: "", lines };
    patch::Patch { old, new, hunks: vec![hunk], end_newline: true }.to_string()
}

/// Whether every line of the code is within the generator's reach.
pub open spec fn s_code_ok(d: DecompDataV, lines: Seq<crate::gameshark::CodeLine>) -> bool {
    forall|i: int| 0 <= i < lines.len() ==> s_line_ok(d, #[trigger] lines[i])
}

/// The indented, commented C statements of a code's lines, in order,
/// failing at the first line that fails.
pub open spec fn s_gs_lines_to_c(d: DecompDataV, lines: Seq<crate::gameshark::CodeLine>) -> Result<
    Seq<Seq<char>>,
    ToPatchErrorV,
>
    decreases lines.len(),
{
    if lines.len() == 0 {
        Ok(Seq::empty())
    } else {
        match s_gs_line_to_c(d, lines[0]) {
            Err(e) => Err(e),
            Ok(c) => match s_gs_lines_to_c(d, lines.drop_first()) {
                Err(e) => Err(e),
                Ok(rest) => Ok(seq![seq![' ', ' ', ' ', ' '] + c] + rest),
            },
        }
    }
}

/// The patch for one named cheat: a unified diff that adds a blank line,
/// a comment holding the cheat's name, and the indented statements, into
/// the fixed host function.
pub open spec fn s_gs_code_to_patch(
    d: DecompDataV,
    name: Seq<char>,
    lines: Seq<crate::gameshark::CodeLine>,
) -> Result<Seq<char>, ToPatchErrorV> {
    match s_gs_lines_to_c(d, lines) {
        Err(e) => Err(e),
        Ok(cheat_lines) => {
            let added = seq![
                Seq::<char>::empty(),
                seq![' ', ' ', ' ', ' ', '/', '*', ' '] + name + seq![' ', '*', '/'],
            ] + cheat_lines;
            Ok(
                s_unified_diff(
                    "a/src/game/gameshark.c"@,
                    "b/src/game/gameshark.c"@,
                    4,
                    2,
                    4,
                    (added.len() + 2) as nat,
                    "void run_gameshark_cheats(void) {"@,
                    added,
                    ""@,
                ),
            )
        },
    }
}

impl DecompData {
    /// Convert a GameShark code to a patch in the unified diff format.
    ///
    /// ## Parameters
    ///   * `name` - Name of the cheat, included in a comment in the patch
    ///   * `code` - GameShark code to convert
    #[verifier::rlimit(100)]
    #[verifier::spinoff_prover]
    pub fn gs_code_to_patch(&self, name: &str, code: crate::gameshark::Code) -> (r: Result<
        String,
        ToPatchError,
    >)
        requires
            self.wf(),
            s_code_ok(self@, code@),
            code@.len() + 4 <= usize::MAX,
        ensures
            str_result_view(r) == s_gs_code_to_patch(self@, name@, code@),
    {
        let cheat_lines = match self.cheat_lines_to_c(&code) {
            Ok(v) => v,
            Err(e) => {
                return Err(e);
            },
        };
        let ghost cheats_v = strings_view(cheat_lines@);
        let added = assemble_added(name, cheat_lines);
        let count = added.len() as u64 + 2;
        proof {
            lemma_paths_plain();
        }
        let text = render_unified_diff(
            "a/src/game/gameshark.c",
            "b/src/game/gameshark.c",
            4,
            2,
            4,
            count,
            "void run_gameshark_cheats(void) {",
            &added,
            "",
        );
        Ok(text)
    }
}

/// The lines a cheat adds to the host function: a blank separator, a
/// comment with the cheat's name, then the generated statements.
fn assemble_added(name: &str, cheat_lines: Vec<String>) -> (r: Vec<String>)
    ensures
        r@.len() == cheat_lines@.len() + 2,
        strings_view(r@) == seq![
            Seq::<char>::empty(),
            seq![' ', ' ', ' ', ' ', '/', '*', ' '] + name@ + seq![' ', '*', '/'],
        ] + strings_view(cheat_lines@),
{
    let ghost cheats_v = strings_view(cheat_lines@);
    let mut rest = cheat_lines;
    let mut added: Vec<String> = Vec::new();
    added.push(String::new());
    let mut name_comment = String::new();
    name_comment.append("    /* ");
    name_comment.append(name);
    name_comment.append(" */");
    proof {
        reveal_strlit("    /* ");
        reveal_strlit(" */");
        assert(name_comment@ =~= seq![' ', ' ', ' ', ' ', '/', '*', ' '] + name@ + seq![
            ' ',
            '*',
            '/',
        ]);
    }
    added.push(name_comment);
    added.append(&mut rest);
    proof {
        assert(strings_view(added@) =~= seq![
            Seq::<char>::empty(),
            seq![' ', ' ', ' ', ' ', '/', '*', ' '] + name@ + seq![' ', '*', '/'],
        ] + cheats_v);
    }
    added
}

impl Default for DecompData {
    /// An empty model: no declarations, no structs.  It is well-formed.
    fn default() -> (r: Self)
        ensures
            r@.decls.len() == 0,
            r@.structs.len() == 0,
            r.wf(),
    {
        DecompData { decls: Vec::new(), structs: Vec::new() }
    }
}

/// `decls` with `dv` inserted by address: a declaration at the same
/// address is replaced, otherwise `dv` enters in address order.
pub open spec fn s_insert_decl(decls: Seq<DeclV>, dv: DeclV) -> Seq<DeclV>
    decreases decls.len(),
{
    if decls.len() == 0 {
        seq![dv]
    } else if decls.last().addr < dv.addr {
        decls + seq![dv]
    } else if decls.last().addr == dv.addr {
        decls.drop_last() + seq![dv]
    } else {
        s_insert_decl(decls.drop_last(), dv) + seq![decls.last()]
    }
}

/// `reg` with the struct `sv` recorded under `name`: an entry of the same
/// name is replaced in place, otherwise the entry is appended.
pub open spec fn s_insert_struct(reg: RegV, name: Seq<char>, sv: StructV) -> RegV {
    let j = reg_index_of(reg, name);
    if j >= 0 {
        reg.update(j, (name, sv))
    } else {
        reg + seq![(name, sv)]
    }
}

impl DecompData {
    /// Record a declaration, keeping the address order; a declaration at
    /// the same address is replaced.
    pub fn add_decl(&mut self, decl: Decl)
        ensures
            final(self)@.structs == old(self)@.structs,
            final(self)@.decls == s_insert_decl(old(self)@.decls, decl@),
    {
        let ghost orig = self@.decls;
        let mut k = self.decls.len();
        proof {
            assert(orig.take(orig.len() as int) =~= orig);
            assert(s_insert_decl(orig, decl@) + orig.skip(orig.len() as int) =~= s_insert_decl(
                orig,
                decl@,
            ));
        }
        while k > 0 && self.decls[k - 1].addr > decl.addr
            invariant
                k <= self.decls.len(),
                orig == self@.decls,
                orig.len() == self.decls.len(),
                s_insert_decl(orig, decl@) == s_insert_decl(orig.take(k as int), decl@)
                    + orig.skip(k as int),
            decreases k,
        {
            proof {
                assert(orig.take(k as int).last() == orig[k as int - 1]);
                assert(orig.take(k as int).drop_last() =~= orig.take(k as int - 1));
                assert((s_insert_decl(orig.take(k as int - 1), decl@) + seq![orig[k as int - 1]])
                    + orig.skip(k as int) =~= s_insert_decl(orig.take(k as int - 1), decl@)
                    + orig.skip(k as int - 1));
            }
            k = k - 1;
        }
        if k > 0 && self.decls[k - 1].addr == decl.addr {
            proof {
                assert(orig.take(k as int).last() == orig[k as int - 1]);
                assert(orig.take(k as int).drop_last() =~= orig.take(k as int - 1));
            }
            self.decls[k - 1] = decl;
            proof {
                assert(self@.decls =~= (orig.take(k as int - 1) + seq![decl@]) + orig.skip(
                    k as int,
                ));
                assert(self@.structs =~= old(self)@.structs);
            }
        } else {
            proof {
                if k > 0 {
                    assert(orig.take(k as int).last() == orig[k as int - 1]);
                }
                assert(s_insert_decl(orig.take(k as int), decl@) =~= orig.take(k as int) + seq![
                    decl@,
                ]);
            }
            self.decls.insert(k, decl);
            proof {
                assert(self@.decls =~= (orig.take(k as int) + seq![decl@]) + orig.skip(k as int));
                assert(self@.structs =~= old(self)@.structs);
            }
        }
    }

    /// Record a struct under its name; a struct of the same name is
    /// replaced.
    pub fn add_struct(&mut self, name: String, struct_: Struct)
        ensures
            final(self)@.decls == old(self)@.decls,
            final(self)@.structs == s_insert_struct(
                old(self)@.structs,
                name@,
                StructV { fields: fields_view(struct_.fields@) },
            ),
    {
        let ghost orig = self@.structs;
        let ghost sv = StructV { fields: fields_view(struct_.fields@) };
        match self.find_struct(&name) {
            Some(j) => {
                self.structs[j] = (name, struct_);
                proof {
                    assert(self@.structs =~= orig.update(j as int, (name@, sv)));
                    assert(self@.decls =~= old(self)@.decls);
                }
            },
            None => {
                self.structs.push((name, struct_));
                proof {
                    assert(self@.structs =~= orig + seq![(name@, sv)]);
                    assert(self@.decls =~= old(self)@.decls);
                }
            },
        }
    }
}

/// Resolving an address whose declaration is a pointer variable fails
/// with the pointer-assignment error: the resolver does not follow
/// indirection.
pub proof fn lemma_pointer_not_followed(d: DecompDataV, addr: nat)
    requires
        ({
            let i = s_floor_decl(d.decls, addr);
            0 <= i < d.decls.len() && (d.decls[i].kind matches DeclKindV::Var { typ } && typ
                is Pointer)
        }),
    ensures
        s_resolve(d, addr) == Err::<LeftValueV, ToPatchErrorV>(
            ToPatchErrorV::PointerAssign { addr },
        ),
{
}

/// Resolving the address one element past the end of an array declaration
/// fails with the array-out-of-bounds error.
pub proof fn lemma_array_end_out_of_bounds(
    d: DecompDataV,
    addr: nat,
    element_type: TypeV,
    num_elements: nat,
    esize: nat,
)
    requires
        ({
            let i = s_floor_decl(d.decls, addr);
            0 <= i < d.decls.len() && d.decls[i].kind == DeclKindV::Var {
                typ: TypeV::Array { element_type: Box::new(element_type), num_elements },
            } && s_size_of(d.structs, element_type, d.structs.len() as int) == Ok::<
                nat,
                ToPatchErrorV,
            >(esize) && esize > 0 && addr == d.decls[i].addr + num_elements * esize
        }),
    ensures
        s_resolve(d, addr) matches Err(e) && e is ArrayOutOfBounds,
{
    let i = s_floor_decl(d.decls, addr);
    let base = d.decls[i].addr;
    let delta = addr - base;
    assert(delta == num_elements * esize);
    assert(delta / esize as int == num_elements) by (nonlinear_arith)
        requires
            delta == num_elements * esize,
            esize > 0,
    ;
}

/// The sum of a field sequence's sizes splits at the last field.
proof fn lemma_size_fields_snoc(reg: RegV, fields: Seq<StructFieldV>, b: int, total: nat)
    requires
        fields.len() > 0,
        s_size_fields(reg, fields, b) == Ok::<nat, ToPatchErrorV>(total),
    ensures
        s_size_fields(reg, fields.drop_last(), b) matches Ok(pt) && (s_size_of(
            reg,
            fields.last().typ,
            b,
        ) matches Ok(lsz) && total == pt + lsz),
    decreases fields.len(),
{
    if fields.len() == 1 {
        assert(fields.drop_last() =~= Seq::<StructFieldV>::empty());
        assert(fields.drop_first() =~= Seq::<StructFieldV>::empty());
        assert(fields.last() == fields[0]);
    } else {
        let rest = fields.drop_first();
        assert(rest.len() > 0);
        let rt = match s_size_fields(reg, rest, b) {
            Ok(rt) => rt,
            Err(_) => 0,
        };
        lemma_size_fields_snoc(reg, rest, b, rt);
        assert(rest.drop_last() =~= fields.drop_last().drop_first());
        assert(rest.last() == fields.last());
        assert(fields.drop_last()[0] == fields[0]);
        assert(fields.drop_last().len() > 0);
    }
}

/// In a contiguous field sequence whose sizes are defined, the total size
/// reaches exactly the end of the last field.
proof fn lemma_contiguous_total(reg: RegV, fields: Seq<StructFieldV>, b: int, total: nat)
    requires
        fields.len() > 0,
        fields_contiguous(reg, fields, b),
        s_size_fields(reg, fields, b) == Ok::<nat, ToPatchErrorV>(total),
    ensures
        s_size_of(reg, fields.last().typ, b) matches Ok(lsz) && total == fields.last().offset
            + lsz,
    decreases fields.len(),
{
    lemma_size_fields_snoc(reg, fields, b, total);
    if fields.len() > 1 {
        let front = fields.drop_last();
        let pt = match s_size_fields(reg, front, b) {
            Ok(pt) => pt,
            Err(_) => 0,
        };
        assert(forall|i: int| 0 <= i < front.len() ==> #[trigger] front[i] == fields[i]);
        assert(fields_contiguous(reg, front, b));
        lemma_contiguous_total(reg, front, b, pt);
        assert(front.last() == fields[fields.len() - 2]);
        assert(fields[fields.len() - 1].offset == fields[fields.len() - 2].offset + (
        match s_size_of(reg, fields[fields.len() - 2].typ, b) {
            Ok(sz) => sz,
            Err(_) => 0,
        }));
    }
}

/// In a contiguous field sequence, an address inside the total span falls
/// inside the span of the picked field.
proof fn lemma_fields_span(
    reg: RegV,
    fields: Seq<StructFieldV>,
    b: int,
    base: nat,
    addr: nat,
    total: nat,
)
    requires
        fields_contiguous(reg, fields, b),
        s_size_fields(reg, fields, b) == Ok::<nat, ToPatchErrorV>(total),
        base <= addr < base + total,
    ensures
        ({
            let k = s_pick_field(fields, base, addr);
            0 <= k < fields.len() && (s_size_of(reg, fields[k].typ, b) matches Ok(fsz) && base
                + fields[k].offset <= addr < base + fields[k].offset + fsz && fields[k].offset
                + fsz <= total)
        }),
    decreases fields.len(),
{
    assert(fields.len() > 0);
    lemma_contiguous_total(reg, fields, b, total);
    let last = fields.last();
    if base + last.offset <= addr {
        assert(s_pick_field(fields, base, addr) == fields.len() - 1);
    } else {
        lemma_size_fields_snoc(reg, fields, b, total);
        let front = fields.drop_last();
        let pt = match s_size_fields(reg, front, b) {
            Ok(pt) => pt,
            Err(_) => 0,
        };
        assert(front.len() > 0) by {
            if fields.len() == 1 {
                assert(last.offset == 0);
                assert(base + last.offset <= addr);
            }
        }
        assert(forall|i: int| 0 <= i < front.len() ==> #[trigger] front[i] == fields[i]);
        assert(fields_contiguous(reg, front, b));
        lemma_contiguous_total(reg, front, b, pt);
        assert(front.last() == fields[fields.len() - 2]);
        assert(pt == last.offset) by {
            assert(last.offset == fields[fields.len() - 2].offset + (
            match s_size_of(reg, fields[fields.len() - 2].typ, b) {
                Ok(sz) => sz,
                Err(_) => 0,
            }));
        }
        lemma_fields_span(reg, front, b, base, addr, pt);
        let k = s_pick_field(front, base, addr);
        assert(front[k] == fields[k]);
        assert(s_pick_field(fields, base, addr) == k);
    }
}

/// An address inside an array's span falls inside the span of exactly
/// the element the division picks.
proof fn lemma_array_index_bounds(esize: nat, num_elements: nat, delta: int, sz: nat)
    requires
        esize > 0,
        sz == esize * num_elements,
        0 <= delta < sz,
    ensures
        ({
            let index = delta / esize as int;
            0 <= index < num_elements && index * esize <= delta < index * esize + esize && esize
                <= sz
        }),
{
    let index = delta / esize as int;
    vstd::arithmetic::div_mod::lemma_fundamental_div_mod(delta, esize as int);
    vstd::arithmetic::div_mod::lemma_remainder_lower(delta, esize as int);
    vstd::arithmetic::div_mod::lemma_remainder_upper(delta, esize as int);
    assert(index < num_elements && index * esize <= delta) by (nonlinear_arith)
        requires
            esize > 0,
            delta < sz,
            sz == esize * num_elements,
            delta == esize * index + delta % (esize as int),
            0 <= delta % (esize as int) < esize,
    ;
    assert(esize <= sz) by (nonlinear_arith)
        requires
            sz == esize * num_elements,
            index < num_elements,
            0 <= index,
            esize > 0,
    ;
}

/// Narrowing a location that contains the address yields a primitive cell
/// that still contains the address and fits inside the location.
#[verifier::rlimit(100)]
proof fn lemma_accum_within(
    reg: RegV,
    lv: LeftValueV,
    addr: nat,
    b: int,
    sz: nat,
    out: LeftValueV,
)
    requires
        reg_wf(reg),
        0 <= b <= reg.len(),
        type_wf(reg, lv.typ, b),
        s_size_of(reg, lv.typ, b) == Ok::<nat, ToPatchErrorV>(sz),
        lv.addr <= addr < lv.addr + sz,
        s_accum(reg, lv, addr, b) == Ok::<LeftValueV, ToPatchErrorV>(out),
    ensures
        s_size_of(reg, out.typ, b) matches Ok(osz) && osz <= sz && out.addr <= addr < out.addr
            + osz,
        type_wf(reg, out.typ, b),
    decreases b, lv.typ, 1int,
{
    match lv.typ {
        TypeV::AnonStruct(s) => {
            lemma_accum_struct_within(reg, lv, addr, s, b, sz, out);
        },
        TypeV::Struct { name } => {
            let j = reg_index_of(reg, name);
            assert(0 <= j < b);
            assert(struct_wf(reg, reg[j].1, j));
            lemma_accum_struct_within(reg, lv, addr, reg[j].1, j, sz, out);
            lemma_size_bound_widen(reg, out.typ, j, b);
        },
        TypeV::Int { .. } => {},
        TypeV::Float => {},
        TypeV::Array { element_type, num_elements } => {
            lemma_accum_within_array(reg, lv, addr, b, sz, out, *element_type, num_elements);
        },
        TypeV::Pointer { .. } => {},
        TypeV::Ignored => {},
    }
}

/// The array case of `lemma_accum_within`.
#[verifier::rlimit(100)]
proof fn lemma_accum_within_array(
    reg: RegV,
    lv: LeftValueV,
    addr: nat,
    b: int,
    sz: nat,
    out: LeftValueV,
    element_type: TypeV,
    num_elements: nat,
)
    requires
        reg_wf(reg),
        0 <= b <= reg.len(),
        lv.typ == (TypeV::Array { element_type: Box::new(element_type), num_elements }),
        type_wf(reg, lv.typ, b),
        s_size_of(reg, lv.typ, b) == Ok::<nat, ToPatchErrorV>(sz),
        lv.addr <= addr < lv.addr + sz,
        s_accum(reg, lv, addr, b) == Ok::<LeftValueV, ToPatchErrorV>(out),
    ensures
        s_size_of(reg, out.typ, b) matches Ok(osz) && osz <= sz && out.addr <= addr < out.addr
            + osz,
        type_wf(reg, out.typ, b),
    decreases b, lv.typ, 0int,
{
    let esize = match s_size_of(reg, element_type, b) {
        Ok(esize) => esize,
        Err(_) => 0,
    };
    assert(esize > 0);
    let delta = addr - lv.addr;
    lemma_array_index_bounds(esize, num_elements, delta, sz);
    let index = delta / esize as int;
    let lv2 = LeftValueV {
        kind: LeftValueKindV::ArrayIndex { array: Box::new(lv), index: index as nat },
        typ: element_type,
        addr: (lv.addr + index * esize) as nat,
    };
    assert(lv2.addr <= addr < lv2.addr + esize);
    assert(decreases_to!(lv.typ => lv.typ->Array_element_type));
    assert(lv2.typ == *lv.typ->Array_element_type);
    lemma_accum_within(reg, lv2, addr, b, esize, out);
}

/// Narrowing into a contiguous composite keeps the address inside the
/// picked field and the result inside the composite.
proof fn lemma_accum_struct_within(
    reg: RegV,
    lv: LeftValueV,
    addr: nat,
    s: StructV,
    b: int,
    sz: nat,
    out: LeftValueV,
)
    requires
        reg_wf(reg),
        0 <= b <= reg.len(),
        struct_wf(reg, s, b),
        s_size_struct(reg, s, b) == Ok::<nat, ToPatchErrorV>(sz),
        lv.addr <= addr < lv.addr + sz,
        s_accum_struct(reg, lv, addr, s, b) == Ok::<LeftValueV, ToPatchErrorV>(out),
    ensures
        s_size_of(reg, out.typ, b) matches Ok(osz) && osz <= sz && out.addr <= addr < out.addr
            + osz,
        type_wf(reg, out.typ, b),
    decreases b, s, 0int,
{
    lemma_fields_span(reg, s.fields, b, lv.addr, addr, sz);
    let k = s_pick_field(s.fields, lv.addr, addr);
    lemma_pick_field_props(s.fields, lv.addr, addr);
    let f = s.fields[k];
    let fsz = match s_size_of(reg, f.typ, b) {
        Ok(fsz) => fsz,
        Err(_) => 0,
    };
    let lv2 = LeftValueV {
        kind: LeftValueKindV::StructField { struct_: Box::new(lv), field_name: f.name },
        typ: f.typ,
        addr: (lv.addr + f.offset) as nat,
    };
    lemma_fields_wf_index(reg, s.fields, b, k);
    assert(decreases_to!(s => s.fields));
    assert(decreases_to!(s.fields => s.fields[k]));
    assert(decreases_to!(s.fields[k] => s.fields[k].typ));
    lemma_accum_within(reg, lv2, addr, b, fsz, out);
}

/// A size defined below one registry bound is the same below any larger
/// bound: the bound only mirrors the registry's stratification.
proof fn lemma_size_bound_widen(reg: RegV, t: TypeV, b1: int, b2: int)
    requires
        reg_wf(reg),
        0 <= b1 <= b2 <= reg.len(),
        type_wf(reg, t, b1),
    ensures
        s_size_of(reg, t, b2) == s_size_of(reg, t, b1),
        type_wf(reg, t, b2),
    decreases b1, t, 1int,
{
    match t {
        TypeV::AnonStruct(s) => {
            lemma_size_struct_bound_widen(reg, s, b1, b2);
        },
        TypeV::Struct { name } => {
            let j = reg_index_of(reg, name);
            if 0 <= j {
                assert(j < b1);
            }
        },
        TypeV::Array { element_type, .. } => {
            assert(decreases_to!(t => t->Array_element_type));
            lemma_size_bound_widen(reg, *element_type, b1, b2);
        },
        _ => {},
    }
}

/// `lemma_size_bound_widen`, for a composite's fields.
proof fn lemma_size_struct_bound_widen(reg: RegV, s: StructV, b1: int, b2: int)
    requires
        reg_wf(reg),
        0 <= b1 <= b2 <= reg.len(),
        struct_wf(reg, s, b1),
    ensures
        s_size_struct(reg, s, b2) == s_size_struct(reg, s, b1),
        struct_wf(reg, s, b2),
    decreases b1, s, 0int,
{
    lemma_size_fields_bound_widen(reg, s.fields, b1, b2);
    assert(fields_contiguous(reg, s.fields, b2)) by {
        assert(forall|i: int|
            0 < i < s.fields.len() ==> s_size_of(reg, (#[trigger] s.fields[i - 1]).typ, b2)
                == s_size_of(reg, s.fields[i - 1].typ, b1));
    }
}

/// `lemma_size_bound_widen`, elementwise over a field sequence.
proof fn lemma_size_fields_bound_widen(reg: RegV, fields: Seq<StructFieldV>, b1: int, b2: int)
    requires
        reg_wf(reg),
        0 <= b1 <= b2 <= reg.len(),
        fields_wf(reg, fields, b1),
    ensures
        s_size_fields(reg, fields, b2) == s_size_fields(reg, fields, b1),
        fields_wf(reg, fields, b2),
        forall|i: int|
            0 <= i < fields.len() ==> s_size_of(reg, (#[trigger] fields[i]).typ, b2) == s_size_of(
                reg,
                fields[i].typ,
                b1,
            ),
    decreases b1, fields, 2int,
{
    if fields.len() > 0 {
        assert(decreases_to!(fields => fields[0]));
        assert(decreases_to!(fields[0] => fields[0].typ));
        lemma_size_bound_widen(reg, fields[0].typ, b1, b2);
        lemma_size_fields_bound_widen(reg, fields.drop_first(), b1, b2);
        assert(forall|i: int|
            0 < i < fields.len() ==> #[trigger] fields[i] == fields.drop_first()[i - 1]);
    }
}

/// Any location resolved for an address inside a declaration's span is a
/// primitive cell whose storage contains the address and fits inside the
/// span; the resolution itself terminates by construction, descending one
/// type level per step.
pub proof fn lemma_resolution_within_span(d: DecompDataV, addr: nat, span: nat, lv: LeftValueV)
    requires
        data_wf(d),
        ({
            let i = s_floor_decl(d.decls, addr);
            0 <= i < d.decls.len() && (d.decls[i].kind matches DeclKindV::Var { typ }
                && s_size_of(d.structs, typ, d.structs.len() as int) == Ok::<nat, ToPatchErrorV>(
                span,
            ) && addr < d.decls[i].addr + span)
        }),
        s_resolve(d, addr) == Ok::<LeftValueV, ToPatchErrorV>(lv),
    ensures
        s_size_of(d.structs, lv.typ, d.structs.len() as int) matches Ok(sz) && sz <= span
            && lv.addr <= addr < lv.addr + sz,
        primitive_cell(lv.typ),
{
    let i = s_floor_decl(d.decls, addr);
    lemma_floor_found(d.decls, addr);
    let typ = d.decls[i].kind->Var_typ;
    let seed = LeftValueV {
        kind: LeftValueKindV::Ident { name: d.decls[i].name },
        typ,
        addr: d.decls[i].addr,
    };
    assert(type_wf(d.structs, typ, d.structs.len() as int));
    lemma_accum_within(d.structs, seed, addr, d.structs.len() as int, span, lv);
    lemma_accum_primitive(d.structs, seed, addr, d.structs.len() as int, lv);
}

/// A declaration found by the floor lookup starts at or below the address.
proof fn lemma_floor_found(decls: Seq<DeclV>, addr: nat)
    ensures
        s_floor_decl(decls, addr) >= 0 ==> s_floor_decl(decls, addr) < decls.len() && decls[
            s_floor_decl(decls, addr)
        ].addr <= addr,
    decreases decls.len(),
{
    if decls.len() > 0 && !(decls.last().addr <= addr) {
        lemma_floor_found(decls.drop_last(), addr);
        let k = s_floor_decl(decls.drop_last(), addr);
        if k >= 0 {
            assert(decls.drop_last()[k] == decls[k]);
        }
    }
}

/// A successful narrowing ends at a primitive cell.
proof fn lemma_accum_primitive(reg: RegV, lv: LeftValueV, addr: nat, b: int, out: LeftValueV)
    requires
        reg_wf(reg),
        0 <= b <= reg.len(),
        type_wf(reg, lv.typ, b),
        s_accum(reg, lv, addr, b) == Ok::<LeftValueV, ToPatchErrorV>(out),
    ensures
        primitive_cell(out.typ),
    decreases b, lv.typ, 1int,
{
    match lv.typ {
        TypeV::AnonStruct(s) => {
            lemma_accum_struct_primitive(reg, lv, addr, s, b, out);
        },
        TypeV::Struct { name } => {
            let j = reg_index_of(reg, name);
            if 0 <= j < b {
                assert(struct_wf(reg, reg[j].1, j));
                lemma_accum_struct_primitive(reg, lv, addr, reg[j].1, j, out);
            }
        },
        TypeV::Array { element_type, num_elements } => {
            match s_size_of(reg, *element_type, b) {
                Err(_) => {},
                Ok(esize) => {
                    if esize != 0 {
                        let delta = addr - lv.addr;
                        let index = delta / esize as int;
                        if index < num_elements {
                            let lv2 = LeftValueV {
                                kind: LeftValueKindV::ArrayIndex {
                                    array: Box::new(lv),
                                    index: index as nat,
                                },
                                typ: *element_type,
                                addr: (lv.addr + index * esize) as nat,
                            };
                            assert(decreases_to!(lv.typ => lv.typ->Array_element_type));
                            lemma_accum_primitive(reg, lv2, addr, b, out);
                        }
                    }
                },
            }
        },
        _ => {},
    }
}

/// `lemma_accum_primitive`, through a composite step.
proof fn lemma_accum_struct_primitive(
    reg: RegV,
    lv: LeftValueV,
    addr: nat,
    s: StructV,
    b: int,
    out: LeftValueV,
)
    requires
        reg_wf(reg),
        0 <= b <= reg.len(),
        struct_wf(reg, s, b),
        s_accum_struct(reg, lv, addr, s, b) == Ok::<LeftValueV, ToPatchErrorV>(out),
    ensures
        primitive_cell(out.typ),
    decreases b, s, 0int,
{
    let k = s_pick_field(s.fields, lv.addr, addr);
    if k >= 0 {
        lemma_pick_field_props(s.fields, lv.addr, addr);
        let f = s.fields[k];
        let lv2 = LeftValueV {
            kind: LeftValueKindV::StructField { struct_: Box::new(lv), field_name: f.name },
            typ: f.typ,
            addr: (lv.addr + f.offset) as nat,
        };
        lemma_fields_wf_index(reg, s.fields, b, k);
        assert(decreases_to!(s => s.fields));
        assert(decreases_to!(s.fields => s.fields[k]));
        assert(decreases_to!(s.fields[k] => s.fields[k].typ));
        lemma_accum_primitive(reg, lv2, addr, b, out);
    }
}

/// The diff header paths contain nothing that would make the emitter
/// quote them.
proof fn lemma_paths_plain()
    ensures
        plain_path("a/src/game/gameshark.c"@),
        plain_path("b/src/game/gameshark.c"@),
{
    reveal_strlit("a/src/game/gameshark.c");
    reveal_strlit("b/src/game/gameshark.c");
}

} // verus!
