//! Layer implementations.

pub mod linear;
