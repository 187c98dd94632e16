//! A runtime type-descriptor engine: a closed set of binary layout
//! descriptors (fixed-width primitives, pointers, fixed-length text, structs
//! keyed by byte offset, fixed-size arrays), a declarative grammar that
//! compiles descriptors from source text, and a recursive codec that moves
//! dynamically typed value trees between raw memory and the descriptor's
//! layout.

pub mod codec;
pub mod memory;
pub mod pointer;
pub mod native;
pub mod syntax;
pub mod value;
