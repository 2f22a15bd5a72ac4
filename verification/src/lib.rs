//! Convert Nintendo 64 GameShark cheat codes for Super Mario 64 into
//! source-level patches against the decompiled PC port.
//!
//! A cheat code is a list of lines, each holding an operation byte, a RAM
//! address and a value.  Given symbol data extracted from the decompilation
//! (declarations with addresses and types, plus a struct registry), each line
//! is resolved to the C lvalue whose storage contains the address, and a
//! masked read or write statement is generated for it.  The statements are
//! assembled into a unified diff.

pub mod decl;
pub mod decomp_data;
pub mod gameshark;
pub mod left_value;
pub mod numfmt;
pub mod typ;

pub use decl::Decl;
pub use decl::DeclKind;
pub use decomp_data::DecompData;
pub use decomp_data::ToPatchError;
pub use left_value::LeftValue;
pub use left_value::LeftValueKind;
pub use typ::Struct;
pub use typ::StructField;
pub use typ::Type;
