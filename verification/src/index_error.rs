//! The indexing error taxonomy.

use vstd::prelude::*;

verus! {

/// Represents an indexing error.
///
/// `BinaryFile` marks a file whose bytes failed the printable / UTF-8
/// prefix test during trigram extraction; such a file is skipped, not
/// indexed. `InvalidHeader` and `UnsupportedNGramLength` mark an index
/// file that cannot be loaded. `Other` stands for any remaining failure.
#[derive(Debug, Clone, Copy, PartialEq, Eq, Structural)]
pub enum IndexError {
    BinaryFile,
    InvalidHeader,
    UnsupportedNGramLength(u8),
    Other,
}

} // verus!
