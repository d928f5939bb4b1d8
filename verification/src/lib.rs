//! Bindings for natively compiled functions, described by signatures of the
//! form `name :: type -> type -> ... -> type`.
//!
//! [`signature::Signature::parse`] reads one signature, and
//! [`render::render`] writes the Haskell module that imports the functions of
//! a list of signatures. Both are specified over sequences of characters.

pub mod descriptor;
pub mod error;
pub mod laws;
pub mod render;
pub mod signature;
pub mod text;
