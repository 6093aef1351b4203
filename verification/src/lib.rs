//! A recursive-descent reader for a small S-expression notation.
//!
//! The reader turns a character buffer into an ordered forest of typed
//! nodes (lists, strings, identifiers, numbers), tracking the precise
//! source position of every node and of any syntax error.

pub mod ast;
pub mod laws;
pub mod pos;
pub mod render;
pub mod report;
pub mod scan;

pub use ast::Error;
pub use ast::File;
pub use ast::Object;
pub use ast::ObjectParseError;
pub use pos::Location;
