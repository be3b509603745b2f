//! Relocation entries: where to patch, what the patch refers to, and how.

use crate::table::deep;
use crate::text::{
    chars_of, hex_digits, parse_signed_hex, parse_unsigned_hex, signed_hex, spells, split_words,
    string_of_str, unsigned_hex, words_of, push_hex, string_of,
};
use crate::types::errors::ParseError;
use crate::types::segment::{Segment, SegmentName, SegmentView};
use crate::types::symbol_table::SymbolTableEntry;
use vstd::prelude::*;

verus! {

/// What a relocation refers to, numbered from 0 within its module.
#[derive(Debug, Eq, PartialEq, Clone, Copy, Structural)]
pub enum RelRef {
    SegmentRef(usize),
    SymbolRef(usize),
    NoRef,
}

/// The kind of a relocation.
///
/// * `A4`: the four bytes at the location are an absolute reference to a segment.
/// * `R4`: they are a reference to a segment, relative to the address after the location.
/// * `AS4`: an absolute reference to a symbol, the bytes already there being the addend.
/// * `RS4`: a relative reference to a symbol, the bytes already there being the addend.
/// * `U2`: the two bytes at the location are the upper half of a symbol's address.
/// * `L2`: the two bytes at the location are the lower half of a symbol's address.
/// * `GA4`: the distance to the global offset table.
/// * `GP4`: the offset, in the global offset table, of a pointer to a symbol.
/// * `GR4`: an address in a segment, as an offset from the global offset table.
/// * `ER4`: an address relative to the start of the executable.
#[derive(Debug, Eq, PartialEq, Clone, Copy, Structural)]
pub enum RelType {
    A4,
    R4,
    AS4,
    RS4,
    U2,
    L2,
    GA4,
    GP4,
    GR4,
    ER4,
}

/// A relocation entry: `loc seg ref type`.
#[derive(Debug, Eq, PartialEq, Clone, Copy, Structural)]
pub struct Relocation {
    pub rel_loc: i32,
    pub rel_seg: SegmentName,
    pub rel_ref: RelRef,
    pub rel_type: RelType,
}

impl DeepView for Relocation {
    type V = Relocation;

    open spec fn deep_view(&self) -> Relocation {
        *self
    }
}

/// The spelling of a relocation kind.
pub open spec fn rel_type_text(t: RelType) -> Seq<char> {
    match t {
        RelType::A4 => "A4"@,
        RelType::R4 => "R4"@,
        RelType::AS4 => "AS4"@,
        RelType::RS4 => "RS4"@,
        RelType::U2 => "U2"@,
        RelType::L2 => "L2"@,
        RelType::GA4 => "GA4"@,
        RelType::GP4 => "GP4"@,
        RelType::GR4 => "GR4"@,
        RelType::ER4 => "ER4"@,
    }
}

/// The relocation kind that a word stands for.
pub open spec fn rel_type_of(w: Seq<char>) -> Option<RelType> {
    if w == "A4"@ {
        Some(RelType::A4)
    } else if w == "R4"@ {
        Some(RelType::R4)
    } else if w == "AS4"@ {
        Some(RelType::AS4)
    } else if w == "RS4"@ {
        Some(RelType::RS4)
    } else if w == "U2"@ {
        Some(RelType::U2)
    } else if w == "L2"@ {
        Some(RelType::L2)
    } else if w == "GA4"@ {
        Some(RelType::GA4)
    } else if w == "GP4"@ {
        Some(RelType::GP4)
    } else if w == "GR4"@ {
        Some(RelType::GR4)
    } else if w == "ER4"@ {
        Some(RelType::ER4)
    } else {
        None
    }
}

/// How a reference is written: its number in hexadecimal, nothing for no reference.
pub open spec fn rel_ref_text(r: RelRef) -> Seq<char> {
    match r {
        RelRef::SegmentRef(i) => hex_digits(i as nat),
        RelRef::SymbolRef(i) => hex_digits(i as nat),
        RelRef::NoRef => Seq::empty(),
    }
}

impl RelType {
    /// Whether relocations of this kind refer to a segment.
    pub open spec fn segment_rel(self) -> bool {
        self == RelType::A4 || self == RelType::R4 || self == RelType::GR4
    }

    /// Whether relocations of this kind refer to nothing.
    pub open spec fn no_rel(self) -> bool {
        self == RelType::GA4 || self == RelType::ER4
    }

    /// Whether relocations of this kind refer to a segment.
    pub fn is_segment_rel(&self) -> (b: bool)
        ensures
            b == self.segment_rel(),
    {
        match self {
            RelType::A4 | RelType::R4 | RelType::GR4 => true,
            _ => false,
        }
    }

    /// Whether relocations of this kind refer to nothing.
    pub fn is_no_rel(&self) -> (b: bool)
        ensures
            b == self.no_rel(),
    {
        match self {
            RelType::GA4 | RelType::ER4 => true,
            _ => false,
        }
    }

    /// The spelling of the kind.
    pub fn as_str(&self) -> (s: &'static str)
        ensures
            s@ == rel_type_text(*self),
    {
        match self {
            RelType::A4 => "A4",
            RelType::R4 => "R4",
            RelType::AS4 => "AS4",
            RelType::RS4 => "RS4",
            RelType::U2 => "U2",
            RelType::L2 => "L2",
            RelType::GA4 => "GA4",
            RelType::GP4 => "GP4",
            RelType::GR4 => "GR4",
            RelType::ER4 => "ER4",
        }
    }

    /// The spelling of the kind.
    pub fn to_string(&self) -> (s: String)
        ensures
            s@ == rel_type_text(*self),
    {
        string_of_str(self.as_str())
    }
}

impl RelRef {
    /// How the reference is written.
    pub fn to_string(&self) -> (s: String)
        ensures
            s@ == rel_ref_text(*self),
    {
        let mut out: Vec<char> = Vec::new();
        match self {
            RelRef::SegmentRef(i) => push_hex(&mut out, *i as u128),
            RelRef::SymbolRef(i) => push_hex(&mut out, *i as u128),
            RelRef::NoRef => {},
        }
        assert(Seq::<char>::empty() + rel_ref_text(*self) =~= rel_ref_text(*self));
        assert(out@.subrange(0, out@.len() as int) =~= out@);
        string_of(out.as_slice(), 0, out.len())
    }
}

impl Relocation {
    /// Whether the reference is of the form that the kind asks for.
    pub open spec fn well_typed(self) -> bool {
        if self.rel_type.segment_rel() {
            self.rel_ref is SegmentRef
        } else if self.rel_type.no_rel() {
            self.rel_ref is NoRef
        } else {
            self.rel_ref is SymbolRef
        }
    }
}

/// The reference that the number `r` stands for in a relocation of kind `t`,
/// within a module of `nsegs` segments and `nsyms` symbols. References are
/// written from 1.
pub open spec fn rel_ref_of(t: RelType, r: int, nsegs: int, nsyms: int) -> Result<
    RelRef,
    ParseError,
> {
    if t.segment_rel() {
        if 1 <= r <= nsegs {
            Ok(RelRef::SegmentRef((r - 1) as usize))
        } else {
            Err(ParseError::RelSegmentOutOfRange)
        }
    } else if t.no_rel() {
        Ok(RelRef::NoRef)
    } else {
        if 1 <= r <= nsyms {
            Ok(RelRef::SymbolRef((r - 1) as usize))
        } else {
            Err(ParseError::RelSymbolOutOfRange)
        }
    }
}

/// What a relocation line says in a module with the segments `segs` and
/// `nsyms` symbols: `loc seg ref type`.
pub open spec fn relocation_of(segs: Seq<SegmentView>, nsyms: int, line: Seq<char>) -> Result<
    Relocation,
    ParseError,
> {
    let w = words_of(line, true);
    if w.len() != 4 {
        Err(ParseError::InvalidRelocationEntry)
    } else {
        match signed_hex(w[0]) {
            None => Err(ParseError::InvalidRelRef),
            Some(loc) => match signed_hex(w[1]) {
                None => Err(ParseError::InvalidRelSegment),
                Some(seg) => if !(1 <= seg <= segs.len()) {
                    Err(ParseError::RelSegmentOutOfRange)
                } else {
                    match rel_type_of(w[3]) {
                        None => Err(ParseError::InvalidRelType),
                        Some(rel_type) => match unsigned_hex(w[2], usize::MAX as int) {
                            None => Err(ParseError::InvalidRelRef),
                            Some(r) => match rel_ref_of(rel_type, r, segs.len() as int, nsyms) {
                                Err(e) => Err(e),
                                Ok(rel_ref) => Ok(
                                    Relocation {
                                        rel_loc: loc as i32,
                                        rel_seg: segs[seg - 1].segment_name,
                                        rel_ref,
                                        rel_type,
                                    },
                                ),
                            },
                        },
                    }
                },
            },
        }
    }
}

fn rel_type_from_chars(w: &[char]) -> (r: Option<RelType>)
    ensures
        r == rel_type_of(w@),
{
    if spells(w, "A4") {
        Some(RelType::A4)
    } else if spells(w, "R4") {
        Some(RelType::R4)
    } else if spells(w, "AS4") {
        Some(RelType::AS4)
    } else if spells(w, "RS4") {
        Some(RelType::RS4)
    } else if spells(w, "U2") {
        Some(RelType::U2)
    } else if spells(w, "L2") {
        Some(RelType::L2)
    } else if spells(w, "GA4") {
        Some(RelType::GA4)
    } else if spells(w, "GP4") {
        Some(RelType::GP4)
    } else if spells(w, "GR4") {
        Some(RelType::GR4)
    } else if spells(w, "ER4") {
        Some(RelType::ER4)
    } else {
        None
    }
}

/// Reads a relocation line.
pub fn relocation_from_chars(segs: &[Segment], nsyms: usize, line: &[char]) -> (r: Result<
    Relocation,
    ParseError,
>)
    ensures
        r == relocation_of(deep(segs@), nsyms as int, line@),
{
    let w = split_words(line, true);
    if w.len() != 4 {
        return Err(ParseError::InvalidRelocationEntry);
    }
    let ghost ws = words_of(line@, true);
    assert(ws[0] == w@[0]@ && ws[1] == w@[1]@ && ws[2] == w@[2]@ && ws[3] == w@[3]@);
    let rel_loc = match parse_signed_hex(w[0].as_slice()) {
        None => {
            return Err(ParseError::InvalidRelRef);
        },
        Some(i) => i,
    };
    let seg = match parse_signed_hex(w[1].as_slice()) {
        None => {
            return Err(ParseError::InvalidRelSegment);
        },
        Some(i) => i,
    };
    if seg < 1 || seg as usize > segs.len() {
        return Err(ParseError::RelSegmentOutOfRange);
    }
    let rel_seg = segs[(seg - 1) as usize].segment_name;
    assert(deep(segs@)[seg - 1].segment_name == rel_seg);
    let rel_type = match rel_type_from_chars(w[3].as_slice()) {
        None => {
            return Err(ParseError::InvalidRelType);
        },
        Some(t) => t,
    };
    let r = match parse_unsigned_hex(w[2].as_slice(), usize::MAX as u64) {
        None => {
            return Err(ParseError::InvalidRelRef);
        },
        Some(r) => r as usize,
    };
    let rel_ref = if rel_type.is_segment_rel() {
        if 1 <= r && r <= segs.len() {
            RelRef::SegmentRef(r - 1)
        } else {
            return Err(ParseError::RelSegmentOutOfRange);
        }
    } else if rel_type.is_no_rel() {
        RelRef::NoRef
    } else {
        if 1 <= r && r <= nsyms {
            RelRef::SymbolRef(r - 1)
        } else {
            return Err(ParseError::RelSymbolOutOfRange);
        }
    };
    Ok(Relocation { rel_loc, rel_seg, rel_ref, rel_type })
}

/// Reads a relocation line of a module with the segments `segs` and the symbols `st`.
pub fn parse_relocation(segs: &[Segment], st: &[SymbolTableEntry], s: &str) -> (r: Result<
    Relocation,
    ParseError,
>)
    ensures
        r == relocation_of(deep(segs@), st@.len() as int, s@),
{
    let line = chars_of(s);
    relocation_from_chars(segs, st.len(), line.as_slice())
}

} // verus!
