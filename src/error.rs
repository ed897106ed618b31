use vstd::prelude::*;

verus! {

/// The ways in which an operation of the codec can fail.
#[derive(Debug, Clone, Copy, PartialEq, Eq, Structural)]
pub enum HuffmanError {
    /// There is no symbol to build a tree from.
    EmptyInput,
    /// A symbol to encode has no code in the table.
    UnknownSymbol,
    /// The encoded stream ends in the middle of a code.
    TruncatedStream,
    /// The encoded stream holds a bit that the tree cannot follow.
    CorruptStream,
    /// A persisted tree could not be read back.
    MalformedTree,
}

} // verus!
