//! A lossless parser for a plaintext outline markup: every tree it builds
//! concatenates back to the exact source text it was built from.

pub mod bytes;
pub mod kind;
pub mod tree;
pub mod input;
pub mod combinator;
pub mod emphasis;
pub mod export;
pub mod paragraph;
