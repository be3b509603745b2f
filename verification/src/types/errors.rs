//! What can go wrong while parsing, linking and handling libraries.

use vstd::prelude::*;

verus! {

/// Why a text is not an object module.
#[derive(Debug, PartialEq, Eq, Clone, Copy, Structural)]
pub enum ParseError {
    UnexpectedParseError,
    MissingMagicNumber,
    InvalidMagicNumber,
    MissingNSegsNSumsNRels,
    InvalidNSegsNSumsNRels,
    InvalidNSegsValue,
    InvalidNSymsValue,
    InvalidNRelsValue,
    InvalidSegment,
    InvalidSegmentName,
    InvalidSegmentStart,
    InvalidSegmentLen,
    InvalidSegmentDescr,
    InvalidNumOfSegments,
    InvalidSymbolTableEntry,
    InvalidSTEType,
    InvalidSTEValue,
    InvalidSTESegment,
    InvalidNumOfSTEs,
    STESegmentRefOutOfRange,
    InvalidRelocationEntry,
    InvalidRelRef,
    RelSegmentOutOfRange,
    RelSymbolOutOfRange,
    InvalidRelType,
    InvalidRelSegment,
    InvalidNumOfRelocations,
    InvalidObjectData,
    SegmentDataLengthMismatch,
    SegmentDataOutOfBounds,
}

/// Why a set of modules cannot be linked.
#[derive(Debug, PartialEq, Eq, Clone, Copy, Structural)]
pub enum LinkError {
    UnexpectedLinkError,
    DuplicateObjectError,
    MultipleSymbolDefinitions,
    UndefinedSymbolError,
    AddressOverflowError,
    IntOverflowError,
    WrappedSymbolNameAlreadyExists,
    SharedLibRefDefnNotFound,
    SharedLibsReferenceCycle,
}

/// Why a library cannot be read or built.
#[derive(Debug, PartialEq, Eq, Clone, Copy, Structural)]
pub enum LibError {
    UnexpectedLibError,
    ObjectParseFailure(ParseError),
    StubMemberParseFailure(ParseError),
    ParseLibError,
    IOError,
}

} // verus!
