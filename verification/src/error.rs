//! The errors of the library.

use vstd::prelude::*;

verus! {

/// `std::io::Error`, carried through as it comes; nothing is said of what is
/// inside.
#[verifier::external_type_specification]
#[verifier::external_body]
pub struct ExIoError(std::io::Error);

/// All that can go wrong.
#[derive(Debug)]
pub enum Error {
    /// Reading or writing failed.
    IoError(std::io::Error),
    /// The bytes are not a font file that the library can read.
    FormatError(String),
    /// The system layer failed.
    SystemError(String),
    /// The caller asked for something that is not there.
    UserError(String),
    /// The font has no glyph for the character.
    GlyphNotFound(char),
}

} // verus!
