//! Segments, their flags and their data.

use crate::text::{
    chars_of, parse_signed_hex, parse_unsigned_hex, signed_hex, spells, split_words, string_of_str,
    unsigned_hex, views, words_of,
};
use crate::types::errors::ParseError;
use vstd::prelude::*;

verus! {

/// The name of a segment. `.got` occurs in linked output only.
#[derive(Debug, Eq, PartialEq, Hash, Clone, Copy, Ord, PartialOrd, Structural)]
pub enum SegmentName {
    TEXT,
    GOT,
    DATA,
    BSS,
}

/// A flag of a segment: readable, writable, present in the object file.
#[derive(Debug, Eq, PartialEq, Clone, Copy, Structural)]
pub enum SegmentDescr {
    R,
    W,
    P,
}

/// A segment definition: name, start address, length in bytes and flags.
#[derive(Debug)]
pub struct Segment {
    pub segment_name: SegmentName,
    pub segment_start: i32,
    pub segment_len: i32,
    pub segment_descr: Vec<SegmentDescr>,
}

/// What a segment definition holds.
pub struct SegmentView {
    pub segment_name: SegmentName,
    pub segment_start: i32,
    pub segment_len: i32,
    pub segment_descr: Seq<SegmentDescr>,
}

impl View for Segment {
    type V = SegmentView;

    open spec fn view(&self) -> SegmentView {
        SegmentView {
            segment_name: self.segment_name,
            segment_start: self.segment_start,
            segment_len: self.segment_len,
            segment_descr: self.segment_descr@,
        }
    }
}

impl DeepView for Segment {
    type V = SegmentView;

    open spec fn deep_view(&self) -> SegmentView {
        self@
    }
}

/// The spelling of a segment name.
pub open spec fn segment_name_text(n: SegmentName) -> Seq<char> {
    match n {
        SegmentName::TEXT => ".text"@,
        SegmentName::GOT => ".got"@,
        SegmentName::DATA => ".data"@,
        SegmentName::BSS => ".bss"@,
    }
}

/// The letter of a flag.
pub open spec fn descr_char(d: SegmentDescr) -> char {
    match d {
        SegmentDescr::R => 'R',
        SegmentDescr::W => 'W',
        SegmentDescr::P => 'P',
    }
}

/// The letters of a list of flags.
pub open spec fn descr_text(ds: Seq<SegmentDescr>) -> Seq<char> {
    ds.map_values(|d: SegmentDescr| descr_char(d))
}

impl SegmentName {
    /// The segment names in the order in which output lists them.
    pub fn order() -> (r: [SegmentName; 4])
        ensures
            r@ == seq![SegmentName::TEXT, SegmentName::GOT, SegmentName::DATA, SegmentName::BSS],
    {
        let r = [SegmentName::TEXT, SegmentName::GOT, SegmentName::DATA, SegmentName::BSS];
        assert(r@ =~= seq![
            SegmentName::TEXT,
            SegmentName::GOT,
            SegmentName::DATA,
            SegmentName::BSS,
        ]);
        r
    }

    /// The spelling of the name.
    pub fn as_str(&self) -> (s: &'static str)
        ensures
            s@ == segment_name_text(*self),
    {
        match self {
            SegmentName::TEXT => ".text",
            SegmentName::GOT => ".got",
            SegmentName::DATA => ".data",
            SegmentName::BSS => ".bss",
        }
    }

    /// The spelling of the name.
    pub fn to_string(&self) -> (s: String)
        ensures
            s@ == segment_name_text(*self),
    {
        string_of_str(self.as_str())
    }
}

impl Segment {
    /// An empty segment at address 0 without flags.
    pub fn new(segment_name: SegmentName) -> (s: Segment)
        ensures
            s@ == (SegmentView {
                segment_name,
                segment_start: 0,
                segment_len: 0,
                segment_descr: Seq::empty(),
            }),
    {
        Segment { segment_name, segment_start: 0, segment_len: 0, segment_descr: Vec::new() }
    }

    /// A copy of the segment.
    pub fn duplicate(&self) -> (s: Segment)
        ensures
            s@ == self@,
    {
        let mut descr: Vec<SegmentDescr> = Vec::new();
        let mut k: usize = 0;
        while k < self.segment_descr.len()
            invariant
                k <= self.segment_descr@.len(),
                descr@ == self.segment_descr@.take(k as int),
            decreases self.segment_descr@.len() - k,
        {
            descr.push(self.segment_descr[k]);
            assert(self.segment_descr@.take(k + 1) =~= self.segment_descr@.take(k as int).push(
                self.segment_descr@[k as int],
            ));
            k += 1;
        }
        assert(self.segment_descr@.take(self.segment_descr@.len() as int) =~= self.segment_descr@);
        Segment {
            segment_name: self.segment_name,
            segment_start: self.segment_start,
            segment_len: self.segment_len,
            segment_descr: descr,
        }
    }

    /// The letters of the flags, in the order in which the segment holds them.
    pub fn ppr_seg_descr(&self) -> (s: String)
        ensures
            s@ == descr_text(self.segment_descr@),
    {
        let mut s = String::new();
        let mut k: usize = 0;
        while k < self.segment_descr.len()
            invariant
                k <= self.segment_descr@.len(),
                s@ == descr_text(self.segment_descr@.take(k as int)),
            decreases self.segment_descr@.len() - k,
        {
            let c = match self.segment_descr[k] {
                SegmentDescr::R => 'R',
                SegmentDescr::W => 'W',
                SegmentDescr::P => 'P',
            };
            s.push(c);
            assert(descr_text(self.segment_descr@.take(k + 1)) =~= descr_text(
                self.segment_descr@.take(k as int),
            ).push(c));
            k += 1;
        }
        assert(self.segment_descr@.take(self.segment_descr@.len() as int) =~= self.segment_descr@);
        s
    }
}

/// The bytes of one segment.
#[derive(Debug)]
pub struct SegmentData(pub Vec<u8>);

impl View for SegmentData {
    type V = Seq<u8>;

    open spec fn view(&self) -> Seq<u8> {
        self.0@
    }
}

impl DeepView for SegmentData {
    type V = Seq<u8>;

    open spec fn deep_view(&self) -> Seq<u8> {
        self@
    }
}

/// `data` with the bytes from `start` on replaced by `patch`.
pub open spec fn patched(data: Seq<u8>, start: int, patch: Seq<u8>) -> Seq<u8> {
    data.take(start) + patch + data.skip(start + patch.len())
}

impl SegmentData {
    /// `len` zero bytes.
    pub fn new(len: usize) -> (d: SegmentData)
        ensures
            d@ == Seq::new(len as nat, |i: int| 0u8),
    {
        let mut v: Vec<u8> = Vec::new();
        let mut k: usize = 0;
        while k < len
            invariant
                k <= len,
                v@ == Seq::new(k as nat, |i: int| 0u8),
            decreases len - k,
        {
            v.push(0u8);
            k += 1;
            assert(v@ =~= Seq::new(k as nat, |i: int| 0u8));
        }
        SegmentData(v)
    }

    /// The data made of the given bytes.
    pub fn from_bytes(bytes: Vec<u8>) -> (d: SegmentData)
        ensures
            d@ == bytes@,
    {
        SegmentData(bytes)
    }

    /// The bytes.
    pub fn deref(&self) -> (v: &Vec<u8>)
        ensures
            v@ == self@,
    {
        &self.0
    }

    /// A copy of the data.
    pub fn duplicate(&self) -> (d: SegmentData)
        ensures
            d@ == self@,
    {
        let mut v: Vec<u8> = Vec::new();
        let mut k: usize = 0;
        while k < self.0.len()
            invariant
                k <= self.0@.len(),
                v@ == self.0@.take(k as int),
            decreases self.0@.len() - k,
        {
            v.push(self.0[k]);
            assert(self.0@.take(k + 1) =~= self.0@.take(k as int).push(self.0@[k as int]));
            k += 1;
        }
        assert(self.0@.take(self.0@.len() as int) =~= self.0@);
        SegmentData(v)
    }

    /// The bytes of `self` followed by those of `other`.
    pub fn concat(&self, other: &SegmentData) -> (d: SegmentData)
        ensures
            d@ == self@ + other@,
    {
        let mut d = self.duplicate();
        let mut k: usize = 0;
        while k < other.0.len()
            invariant
                k <= other.0@.len(),
                d@ == self@ + other.0@.take(k as int),
            decreases other.0@.len() - k,
        {
            d.0.push(other.0[k]);
            assert(self@ + other.0@.take(k + 1) =~= (self@ + other.0@.take(k as int)).push(
                other.0@[k as int],
            ));
            k += 1;
        }
        assert(other.0@.take(other.0@.len() as int) =~= other.0@);
        d
    }

    /// The number of bytes.
    pub fn len(&self) -> (n: usize)
        ensures
            n == self@.len(),
    {
        self.0.len()
    }

    /// Whether there is no byte.
    pub fn is_empty(&self) -> (b: bool)
        ensures
            b == (self@.len() == 0),
    {
        self.0.len() == 0
    }

    /// Replaces the `len` bytes from `start` on by `patch`.
    pub fn update(&mut self, start: usize, len: usize, patch: Vec<u8>)
        requires
            start + len <= old(self)@.len(),
            patch@.len() == len,
        ensures
            final(self)@ == patched(old(self)@, start as int, patch@),
            final(self)@.len() == old(self)@.len(),
    {
        let n: usize = self.0.len();
        let mut k: usize = 0;
        while k < len
            invariant
                k <= len,
                start + len <= n,
                n == self@.len(),
                self@.len() == old(self)@.len(),
                patch@.len() == len,
                self@ == patched(old(self)@, start as int, patch@.take(k as int)),
            decreases len - k,
        {
            self.0.set(start + k, patch[k]);
            assert(self@ =~= patched(old(self)@, start as int, patch@.take(k + 1)));
            k += 1;
        }
        assert(patch@.take(len as int) =~= patch@);
    }

    /// The `len` bytes from `start` on, if the data holds them.
    pub fn get_at(&self, start: usize, len: usize) -> (r: Option<&[u8]>)
        ensures
            r is Some <==> start + len <= self@.len(),
            r is Some ==> r->0@ == self@.subrange(start as int, start + len),
    {
        if len > self.0.len() || start > self.0.len() - len {
            return None;
        }
        Some(vstd::slice::slice_subrange(self.0.as_slice(), start, start + len))
    }
}


/// The segment that a name in an object file stands for.
pub open spec fn segment_name_of(w: Seq<char>) -> Option<SegmentName> {
    if w == ".text"@ {
        Some(SegmentName::TEXT)
    } else if w == ".data"@ {
        Some(SegmentName::DATA)
    } else if w == ".bss"@ {
        Some(SegmentName::BSS)
    } else {
        None
    }
}

/// The flag that a letter stands for.
pub open spec fn descr_of(c: char) -> Option<SegmentDescr> {
    if c == 'R' {
        Some(SegmentDescr::R)
    } else if c == 'W' {
        Some(SegmentDescr::W)
    } else if c == 'P' {
        Some(SegmentDescr::P)
    } else {
        None
    }
}

/// The flags that a run of letters stands for, if each letter is a flag.
pub open spec fn descrs_of(w: Seq<char>) -> Option<Seq<SegmentDescr>> {
    if forall|j: int| 0 <= j < w.len() ==> (#[trigger] descr_of(w[j])) is Some {
        Some(Seq::new(w.len(), |j: int| descr_of(w[j])->0))
    } else {
        None
    }
}

/// What a segment line of an object file says: `name start len flags`.
pub open spec fn segment_of(line: Seq<char>) -> Result<SegmentView, ParseError> {
    let w = words_of(line, true);
    if w.len() != 4 {
        Err(ParseError::InvalidSegment)
    } else {
        match segment_name_of(w[0]) {
            None => Err(ParseError::InvalidSegmentName),
            Some(segment_name) => match signed_hex(w[1]) {
                None => Err(ParseError::InvalidSegmentStart),
                Some(start) => match signed_hex(w[2]) {
                    None => Err(ParseError::InvalidSegmentLen),
                    Some(len) => match descrs_of(w[3]) {
                        None => Err(ParseError::InvalidSegmentDescr),
                        Some(segment_descr) => Ok(
                            SegmentView {
                                segment_name,
                                segment_start: start as i32,
                                segment_len: len as i32,
                                segment_descr,
                            },
                        ),
                    },
                },
            },
        }
    }
}

/// The bytes that a list of words stands for, each word a hexadecimal number below 256.
pub open spec fn bytes_of(w: Seq<Seq<char>>) -> Option<Seq<u8>> {
    if forall|j: int| 0 <= j < w.len() ==> (#[trigger] unsigned_hex(w[j], 255)) is Some {
        Some(Seq::new(w.len(), |j: int| unsigned_hex(w[j], 255)->0 as u8))
    } else {
        None
    }
}

/// What a data line says for a segment of `seg_len` bytes.
pub open spec fn segment_data_of(seg_len: int, line: Seq<char>) -> Result<Seq<u8>, ParseError> {
    match bytes_of(words_of(line, false)) {
        None => Err(ParseError::InvalidObjectData),
        Some(bytes) => if bytes.len() != seg_len {
            Err(ParseError::SegmentDataLengthMismatch)
        } else {
            Ok(bytes)
        },
    }
}

fn segment_descr_from_chr(c: char) -> (r: Result<SegmentDescr, ParseError>)
    ensures
        match r {
            Ok(d) => descr_of(c) == Some(d),
            Err(e) => descr_of(c) is None && e == ParseError::InvalidSegmentDescr,
        },
{
    if c == 'R' {
        Ok(SegmentDescr::R)
    } else if c == 'W' {
        Ok(SegmentDescr::W)
    } else if c == 'P' {
        Ok(SegmentDescr::P)
    } else {
        Err(ParseError::InvalidSegmentDescr)
    }
}

/// Reads a segment line.
pub fn segment_from_chars(line: &[char]) -> (r: Result<Segment, ParseError>)
    ensures
        match r {
            Ok(seg) => segment_of(line@) == Ok::<SegmentView, ParseError>(seg@),
            Err(e) => segment_of(line@) == Err::<SegmentView, ParseError>(e),
        },
{
    let w = split_words(line, true);
    if w.len() != 4 {
        return Err(ParseError::InvalidSegment);
    }
    let ghost ws = words_of(line@, true);
    assert(ws[0] == w@[0]@ && ws[1] == w@[1]@ && ws[2] == w@[2]@ && ws[3] == w@[3]@);
    let segment_name = if spells(w[0].as_slice(), ".text") {
        SegmentName::TEXT
    } else if spells(w[0].as_slice(), ".data") {
        SegmentName::DATA
    } else if spells(w[0].as_slice(), ".bss") {
        SegmentName::BSS
    } else {
        return Err(ParseError::InvalidSegmentName);
    };
    let segment_start = match parse_signed_hex(w[1].as_slice()) {
        None => {
            return Err(ParseError::InvalidSegmentStart);
        },
        Some(i) => i,
    };
    let segment_len = match parse_signed_hex(w[2].as_slice()) {
        None => {
            return Err(ParseError::InvalidSegmentLen);
        },
        Some(i) => i,
    };
    let mut descrs: Vec<SegmentDescr> = Vec::new();
    let mut k: usize = 0;
    while k < w[3].len()
        invariant
            w@.len() == 4,
            ws[3] == w@[3]@,
            ws == words_of(line@, true),
            ws.len() == 4,
            segment_name_of(ws[0]) == Some(segment_name),
            signed_hex(ws[1]) == Some(segment_start as int),
            signed_hex(ws[2]) == Some(segment_len as int),
            k <= w@[3]@.len(),
            descrs@.len() == k,
            forall|j: int| 0 <= j < k ==> (#[trigger] descr_of(w@[3]@[j])) == Some(descrs@[j]),
        decreases w@[3]@.len() - k,
    {
        match segment_descr_from_chr(w[3][k]) {
            Err(e) => {
                assert(descr_of(ws[3][k as int]) is None);
                return Err(e);
            },
            Ok(sd) => descrs.push(sd),
        }
        k += 1;
    }
    assert(descrs_of(ws[3]) is Some);
    assert(descrs_of(ws[3])->0 =~= descrs@);
    Ok(Segment { segment_name, segment_start, segment_len, segment_descr: descrs })
}

/// Reads a segment line.
pub fn parse_segment(s: &str) -> (r: Result<Segment, ParseError>)
    ensures
        match r {
            Ok(seg) => segment_of(s@) == Ok::<SegmentView, ParseError>(seg@),
            Err(e) => segment_of(s@) == Err::<SegmentView, ParseError>(e),
        },
{
    let line = chars_of(s);
    segment_from_chars(line.as_slice())
}

/// Reads the bytes of a data line.
pub fn bytes_from_chars(line: &[char]) -> (r: Option<Vec<u8>>)
    ensures
        match r {
            Some(v) => bytes_of(words_of(line@, false)) == Some(v@),
            None => bytes_of(words_of(line@, false)) is None,
        },
{
    let w = split_words(line, false);
    let ghost ws = words_of(line@, false);
    let mut bytes: Vec<u8> = Vec::new();
    let mut k: usize = 0;
    while k < w.len()
        invariant
            ws == views(w@),
            ws == words_of(line@, false),
            k <= w@.len(),
            bytes@.len() == k,
            forall|j: int| 0 <= j < k ==> (#[trigger] unsigned_hex(ws[j], 255)) == Some(bytes@[j] as int),
        decreases w@.len() - k,
    {
        assert(ws[k as int] == w@[k as int]@);
        match parse_unsigned_hex(w[k].as_slice(), 255) {
            None => {
                assert(unsigned_hex(ws[k as int], 255) is None);
                return None;
            },
            Some(b) => bytes.push(b as u8),
        }
        k += 1;
    }
    assert(bytes_of(ws) is Some);
    assert(bytes_of(ws)->0 =~= bytes@);
    Some(bytes)
}

/// Reads a data line for a segment of `seg_len` bytes.
pub fn parse_segment_data(seg_len: usize, s: &str) -> (r: Result<SegmentData, ParseError>)
    ensures
        match r {
            Ok(d) => segment_data_of(seg_len as int, s@) == Ok::<Seq<u8>, ParseError>(d@),
            Err(e) => segment_data_of(seg_len as int, s@) == Err::<Seq<u8>, ParseError>(e),
        },
{
    let line = chars_of(s);
    match bytes_from_chars(line.as_slice()) {
        None => Err(ParseError::InvalidObjectData),
        Some(bytes) => if bytes.len() != seg_len {
            Err(ParseError::SegmentDataLengthMismatch)
        } else {
            Ok(SegmentData(bytes))
        },
    }
}

} // verus!
