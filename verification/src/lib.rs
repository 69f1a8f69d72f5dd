//! Middle end of a compiler for a small Lisp: renaming into unique
//! identifiers, lambda lifting, literal interning, A-normal form for calls
//! and marking of self tail calls.
pub mod ident;
pub mod expr;
pub mod env;
pub mod copy;
pub mod rename;
pub mod binders;
pub mod unique;
pub mod lift;
pub mod shape;
pub mod intern;
pub mod anf;
pub mod tail;
pub mod pipeline;
