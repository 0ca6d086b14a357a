//! Decoding and encoding of calibration values in engine-control firmware
//! images, driven by a definition of where values live and how raw integers
//! map to physical units.
//!
//! - `rational`: exact fractions that physical values are kept in.
//! - `token`, `ast`, `eval`: the one-variable expression language; text to
//!   tokens, tokens to a tree, evaluation and symbolic inversion.
//! - `codec`: fixed-width cells stored least significant byte first.
//! - `definitions`: scalars, axes and tables, read from and written to an
//!   image through the expression engine and the codec.
//! - `records`: assembly of those from parsed definition records, with
//!   links between tables resolved.
//! - `views`: plain state for a presentation layer.
use vstd::prelude::*;

pub mod ast;
pub mod codec;
pub mod definitions;
pub mod eval;
pub mod rational;
pub mod records;
pub mod token;
pub mod views;

verus! {

} // verus!
