//! RADIX-50 encoding and decoding for the DEC PDP-10 and PDP-11/VAX
//! dialects: 6 characters packed into a 32-bit word (PDP-10) or 3
//! characters into a 16-bit word (PDP-11/VAX), each character drawn from
//! a fixed 40-symbol alphabet.
use vstd::prelude::*;

pub mod codec;
pub mod pdp10;
pub mod pdp11;

verus! {

/// RADIX-50 encoding errors.
#[derive(Debug, Clone, PartialEq, Eq)]
pub enum Error {
    /// The given character (at `pos` offset (1-based) in the original
    /// string) is not part of the dialect's RADIX-50 character set.
    IllegalChar { char: char, pos: usize },
}

} // verus!
