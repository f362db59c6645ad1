//! Verified core of a LaTeX translation helper.
//!
//! A document body is divided into translation chunks; each chunk is parsed
//! into a small LaTeX abstract syntax tree, from which a generation grammar
//! and a structural-distance score are derived to keep an external text
//! oracle's output structurally faithful to the source.

use vstd::prelude::*;

pub mod ast;
pub mod distance;
pub mod document;
pub mod extract;
pub mod grammar;
pub mod lang;
pub mod parser;
pub mod retry;
pub mod segment;
pub mod splitgen;
pub mod strutil;

pub use crate::ast::LtxNode;
pub use crate::document::Trsltx;

verus! {

} // verus!
