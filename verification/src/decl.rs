//! C declarations known from the decompilation's symbol data.

use crate::typ::Type;
use crate::typ::TypeV;
use crate::typ::type_view;

use vstd::prelude::*;

verus! {

/// Mathematical model of a [`DeclKind`].
#[verifier::ext_equal]
pub enum DeclKindV {
    Fn,
    Var { typ: TypeV },
}

/// Mathematical model of a [`Decl`].
#[verifier::ext_equal]
pub struct DeclV {
    pub kind: DeclKindV,
    pub name: Seq<char>,
    pub addr: nat,
}

/// A kind of C declaration
#[derive(Debug)]
pub enum DeclKind {
    /// A function
    Fn,
    /// A variable
    Var {
        /// Type of the variable
        typ: Type,
    },
}

/// A C declaration
#[derive(Debug)]
pub struct Decl {
    /// The kind of declaration
    pub kind: DeclKind,
    /// Name of the declaration (function or variable name)
    pub name: String,
    /// Address of the declaration
    pub addr: u32,
}

impl View for DeclKind {
    type V = DeclKindV;

    open spec fn view(&self) -> DeclKindV {
        match self {
            DeclKind::Fn => DeclKindV::Fn,
            DeclKind::Var { typ } => DeclKindV::Var { typ: type_view(*typ) },
        }
    }
}

impl View for Decl {
    type V = DeclV;

    open spec fn view(&self) -> DeclV {
        DeclV { kind: self.kind@, name: self.name@, addr: self.addr as nat }
    }
}

} // verus!
