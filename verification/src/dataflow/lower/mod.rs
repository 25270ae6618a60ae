//! Per-language lowering of a function's syntax tree to a `Cfg`. Only the
//! statement shapes that the dataflow rules need are recognised; everything
//! else becomes `Stmt::Other`.

pub mod go;
pub mod java;
pub mod javascript;
pub mod kotlin;
pub mod shape;
