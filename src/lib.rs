//! Untyped lambda-calculus terms in two representations, named and de Bruijn
//! indexed, with capture-avoiding substitution and conversion between them.

pub mod convert;
pub mod named;
pub mod laws;
pub mod names;
pub mod render;
mod text;
pub mod unnamed;
