//! Compiler and lookup core for large sets of URL redirect rules.
//!
//! Rule files are parsed and validated into a keyed redirect map, the induced
//! graph is checked for cycles, multi-hop chains are collapsed, and the final
//! map is encoded into two immutable artifacts: an ordered byte-string index
//! mapping each source path to an integer rank, and a front-coded dictionary
//! of redirect targets addressed by that rank. A lookup server answers each
//! request path from the two artifacts alone.

pub mod bytes;
pub mod compile;
pub mod encode;
pub mod fcdict;
pub mod fstmap;
pub mod lines;
pub mod loops;
pub mod num;
pub mod output;
pub mod rules;
pub mod server;
pub mod shorten;
pub mod validate;
