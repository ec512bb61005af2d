//! Size-optimizing packer core for a fantasy-console cartridge format.
//!
//! The library tokenises a small embedded scripting language, rewrites and
//! serialises it with minimal separators, analyses DEFLATE streams to
//! attribute a per-byte bit cost, and searches for identifier renames that
//! shrink the compressed cartridge.

pub mod bitstream;
pub mod deflate;
pub mod driver;
pub mod parse;
pub mod program;
pub mod rename;
pub mod search;
pub mod serialize;
pub mod tokenizer;
pub mod huffman;
pub mod compress;
pub mod tic_file;
pub mod token;
pub mod whitespace;

use vstd::prelude::*;

verus! {

/// Marker for an output byte that was produced directly by a literal code
/// rather than copied by a match.
pub const SENTINEL: usize = usize::MAX;

/// The failures the library itself can detect. I/O errors belong to the
/// callers that do the I/O.
#[derive(Debug, Clone, Copy, PartialEq, Eq, Structural)]
pub enum PackError {
    /// A malformed DEFLATE stream: invalid code, overrun, or a block type the
    /// analyser does not handle.
    Decompress,
    /// No code chunk in the cartridge.
    MissingCode,
}

impl PackError {
    pub fn message(&self) -> (r: &'static str)
        ensures
            r@.len() > 0,
    {
        let s = match self {
            PackError::Decompress => "malformed deflate stream",
            PackError::MissingCode => "no code chunk found",
        };
        proof {
            reveal_strlit("malformed deflate stream");
            reveal_strlit("no code chunk found");
        }
        s
    }
}

} // verus!
