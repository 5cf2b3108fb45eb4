//! Verified core of a cross-language type-definition transpiler.
//!
//! The crate consumes a language-neutral model of data types (structs,
//! enums, type aliases and their fields), orders the items so that every
//! type is declared before its first use, and emits the declarations
//! through a backend that supplies the concrete syntax of one target
//! language.  A Python backend is included.

pub mod errors;
pub mod language;
pub mod model;
pub mod python;
pub mod topsort;
