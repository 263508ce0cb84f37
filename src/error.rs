use vstd::prelude::*;

verus! {

/// Why a directory load or a payload extraction failed.
#[derive(Clone, Copy, Debug, PartialEq, Eq, Structural)]
pub enum ArkError {
    /// The source ends before the bytes that were to be read.
    ShortRead,
    /// The header names a format version outside `1 ..= 3`.
    UnsupportedVersion(u32),
    /// An encrypted region whose length is not a multiple of four bytes.
    MisalignedBlock,
    /// The decoded directory holds fewer records than the header declares.
    TruncatedDirectory,
    /// A name or directory field is not valid UTF-8.
    InvalidText,
    /// The decompressor rejected its input.
    Decompress,
    /// An entry's recovered content is shorter than its declared content size.
    ShortContent,
}

} // verus!
