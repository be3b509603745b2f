//! Object modules and the reader of their text form.

use crate::table::deep;
use crate::text::{
    chars_of, hex_byte, hex_digits, hex_i32, join, join_lines, join_with, lemma_views_push,
    lines_of, parse_signed_hex, push_hex, push_hex_byte, push_hex_i32, push_str, signed_hex,
    spells, split_lines, split_words, string_of, views, words_of,
};
use crate::types::errors::ParseError;
use crate::types::relocation::{
    rel_type_text, relocation_from_chars, relocation_of, RelRef, Relocation,
};
use crate::types::segment::{
    bytes_from_chars, descr_text, segment_data_of, segment_from_chars, segment_name_text,
    segment_of, Segment, SegmentData, SegmentName, SegmentView,
};
use crate::types::symbol_table::{
    symbol_from_chars, symbol_of, symbol_type_text, SymbolTableEntry, SymbolTableEntryType,
    SymbolView,
};
use vstd::prelude::*;

verus! {

/// The first line of every object file.
pub const MAGIC_NUMBER: &'static str = "LINK";

/// An object module: three counts, then the segments, the symbols, the
/// relocations, and the data of each segment in the order of the segments.
#[derive(Debug)]
pub struct ObjectIn {
    pub nsegs: i32,
    pub nsyms: i32,
    pub nrels: i32,
    pub segments: Vec<Segment>,
    pub symbol_table: Vec<SymbolTableEntry>,
    pub relocations: Vec<Relocation>,
    pub object_data: Vec<SegmentData>,
}

/// What an object module holds.
pub struct ObjectView {
    pub nsegs: i32,
    pub nsyms: i32,
    pub nrels: i32,
    pub segments: Seq<SegmentView>,
    pub symbol_table: Seq<SymbolView>,
    pub relocations: Seq<Relocation>,
    pub object_data: Seq<Seq<u8>>,
}

impl View for ObjectIn {
    type V = ObjectView;

    open spec fn view(&self) -> ObjectView {
        ObjectView {
            nsegs: self.nsegs,
            nsyms: self.nsyms,
            nrels: self.nrels,
            segments: deep(self.segments@),
            symbol_table: deep(self.symbol_table@),
            relocations: self.relocations@,
            object_data: deep(self.object_data@),
        }
    }
}

impl DeepView for ObjectIn {
    type V = ObjectView;

    open spec fn deep_view(&self) -> ObjectView {
        self@
    }
}

/// Whether one of the segments has the given name.
pub open spec fn has_segment(segs: Seq<SegmentView>, name: SegmentName) -> bool {
    exists|i: int| 0 <= i < segs.len() && (#[trigger] segs[i]).segment_name == name
}

/// Whether a relocation fits a module with the segments `segs` and `nsyms`
/// symbols: its segment is one of the module's, and what it refers to exists
/// and is of the form that its kind asks for.
pub open spec fn rel_fits(segs: Seq<SegmentView>, nsyms: int, r: Relocation) -> bool {
    &&& has_segment(segs, r.rel_seg)
    &&& r.well_typed()
    &&& match r.rel_ref {
        RelRef::SegmentRef(i) => i < segs.len(),
        RelRef::SymbolRef(i) => i < nsyms,
        RelRef::NoRef => true,
    }
}

impl ObjectView {
    /// Whether a relocation fits the module.
    pub open spec fn fits(self, r: Relocation) -> bool {
        rel_fits(self.segments, self.symbol_table.len() as int, r)
    }

    /// The invariant of a module: each count is the size of its collection,
    /// there is data for each segment, of the length of the segment, the
    /// segment of each symbol is 0 or the number of a segment of the module,
    /// and each relocation fits.
    pub open spec fn wf(self) -> bool {
        &&& self.segments.len() == self.nsegs
        &&& self.symbol_table.len() == self.nsyms
        &&& self.relocations.len() == self.nrels
        &&& self.object_data.len() == self.nsegs
        &&& forall|i: int|
            0 <= i < self.segments.len() ==> (#[trigger] self.object_data[i]).len()
                == self.segments[i].segment_len
        &&& forall|i: int|
            0 <= i < self.segments.len() ==> (#[trigger] self.segments[i]).segment_name
                != SegmentName::GOT
        &&& forall|i: int|
            0 <= i < self.symbol_table.len() ==> 0 <= (#[trigger] self.symbol_table[i]).st_seg
                <= self.nsegs
        &&& forall|i: int| 0 <= i < self.relocations.len() ==> self.fits(#[trigger] self.relocations[i])
    }
}

/// A count of the header line: a hexadecimal number that is not negative.
pub open spec fn count_of(w: Seq<char>) -> Option<int> {
    match signed_hex(w) {
        Some(n) => if n >= 0 {
            Some(n)
        } else {
            None
        },
        None => None,
    }
}

/// What the header line says: `nsegs nsyms nrels`.
pub open spec fn header_of(line: Seq<char>) -> Result<(int, int, int), ParseError> {
    let w = words_of(line, false);
    if w.len() != 3 {
        Err(ParseError::InvalidNSegsNSumsNRels)
    } else {
        match count_of(w[0]) {
            None => Err(ParseError::InvalidNSegsValue),
            Some(nsegs) => match count_of(w[1]) {
                None => Err(ParseError::InvalidNSymsValue),
                Some(nsyms) => match count_of(w[2]) {
                    None => Err(ParseError::InvalidNRelsValue),
                    Some(nrels) => Ok((nsegs, nsyms, nrels)),
                },
            },
        }
    }
}

/// What the first `n` of the given lines say, each read by `read`. A line that
/// is not there is the error `missing`; the first line at fault decides.
pub open spec fn section_of<T>(
    lines: Seq<Seq<char>>,
    n: int,
    read: spec_fn(Seq<char>) -> Result<T, ParseError>,
    missing: ParseError,
) -> Result<Seq<T>, ParseError>
    decreases n,
{
    if n <= 0 {
        Ok(Seq::empty())
    } else {
        match section_of(lines, n - 1, read, missing) {
            Err(e) => Err(e),
            Ok(items) => if lines.len() < n {
                Err(missing)
            } else {
                match read(lines[n - 1]) {
                    Err(e) => Err(e),
                    Ok(t) => Ok(items.push(t)),
                }
            },
        }
    }
}

/// What the first `n` of the given lines say as the data of the first `n` segments.
pub open spec fn data_section_of(lines: Seq<Seq<char>>, segs: Seq<SegmentView>, n: int) -> Result<
    Seq<Seq<u8>>,
    ParseError,
>
    decreases n,
{
    if n <= 0 {
        Ok(Seq::empty())
    } else {
        match data_section_of(lines, segs, n - 1) {
            Err(e) => Err(e),
            Ok(items) => if lines.len() < n {
                Err(ParseError::InvalidObjectData)
            } else {
                match segment_data_of(segs[n - 1].segment_len as int, lines[n - 1]) {
                    Err(e) => Err(e),
                    Ok(t) => Ok(items.push(t)),
                }
            },
        }
    }
}

/// Whether there is a line at position `at` that `read` accepts: one entry too many.
pub open spec fn one_more<T>(
    lines: Seq<Seq<char>>,
    at: int,
    read: spec_fn(Seq<char>) -> Result<T, ParseError>,
) -> bool {
    at < lines.len() && read(lines[at]) is Ok
}

/// The reader of segment lines.
pub open spec fn seg_reader() -> spec_fn(Seq<char>) -> Result<SegmentView, ParseError> {
    |l: Seq<char>| segment_of(l)
}

/// The reader of symbol lines in a module of `nsegs` segments.
pub open spec fn sym_reader(nsegs: int) -> spec_fn(Seq<char>) -> Result<SymbolView, ParseError> {
    |l: Seq<char>| symbol_of(nsegs, l)
}

/// The reader of relocation lines in a module with the segments `segs` and `nsyms` symbols.
pub open spec fn rel_reader(segs: Seq<SegmentView>, nsyms: int) -> spec_fn(Seq<char>) -> Result<
    Relocation,
    ParseError,
> {
    |l: Seq<char>| relocation_of(segs, nsyms, l)
}

/// What the lines after the header say, given its counts.
pub open spec fn body_of(lines: Seq<Seq<char>>, nsegs: int, nsyms: int, nrels: int) -> Result<
    ObjectView,
    ParseError,
> {
    let read_seg = seg_reader();
    let read_sym = sym_reader(nsegs);
    match section_of(lines, nsegs, read_seg, ParseError::InvalidNumOfSegments) {
        Err(e) => Err(e),
        Ok(segments) => if one_more(lines, nsegs, read_seg) {
            Err(ParseError::InvalidNumOfSegments)
        } else {
            match section_of(lines.skip(nsegs), nsyms, read_sym, ParseError::InvalidNumOfSTEs) {
                Err(e) => Err(e),
                Ok(symbol_table) => if one_more(lines, nsegs + nsyms, read_sym) {
                    Err(ParseError::InvalidNumOfSTEs)
                } else {
                    let read_rel = rel_reader(segments, nsyms);
                    match section_of(
                        lines.skip(nsegs + nsyms),
                        nrels,
                        read_rel,
                        ParseError::InvalidNumOfRelocations,
                    ) {
                        Err(e) => Err(e),
                        Ok(relocations) => if one_more(lines, nsegs + nsyms + nrels, read_rel) {
                            Err(ParseError::InvalidNumOfRelocations)
                        } else {
                            match data_section_of(
                                lines.skip(nsegs + nsyms + nrels),
                                segments,
                                nsegs,
                            ) {
                                Err(e) => Err(e),
                                Ok(object_data) => if nsegs + nsyms + nrels + nsegs < lines.len() {
                                    Err(ParseError::SegmentDataOutOfBounds)
                                } else {
                                    Ok(
                                        ObjectView {
                                            nsegs: nsegs as i32,
                                            nsyms: nsyms as i32,
                                            nrels: nrels as i32,
                                            segments,
                                            symbol_table,
                                            relocations,
                                            object_data,
                                        },
                                    )
                                },
                            }
                        },
                    }
                },
            }
        },
    }
}

/// What the lines of an object file say: the magic line, the header line,
/// then the body.
pub open spec fn object_of_lines(lines: Seq<Seq<char>>) -> Result<ObjectView, ParseError> {
    if lines.len() == 0 {
        Err(ParseError::MissingMagicNumber)
    } else if lines[0] != MAGIC_NUMBER@ {
        Err(ParseError::InvalidMagicNumber)
    } else if lines.len() < 2 {
        Err(ParseError::MissingNSegsNSumsNRels)
    } else {
        match header_of(lines[1]) {
            Err(e) => Err(e),
            Ok((nsegs, nsyms, nrels)) => body_of(lines.skip(2), nsegs, nsyms, nrels),
        }
    }
}

/// What the text of an object file says.
pub open spec fn object_of(text: Seq<char>) -> Result<ObjectView, ParseError> {
    object_of_lines(lines_of(text))
}

fn count_from_chars(w: &[char]) -> (r: Option<i32>)
    ensures
        match r {
            Some(n) => count_of(w@) == Some(n as int),
            None => count_of(w@) is None,
        },
{
    match parse_signed_hex(w) {
        Some(n) => if n >= 0 {
            Some(n)
        } else {
            None
        },
        None => None,
    }
}

fn parse_nsegs_nsyms_nrels(line: &[char]) -> (r: Result<(i32, i32, i32), ParseError>)
    ensures
        match r {
            Ok(c) => header_of(line@) == Ok::<(int, int, int), ParseError>(
                (c.0 as int, c.1 as int, c.2 as int),
            ),
            Err(e) => header_of(line@) == Err::<(int, int, int), ParseError>(e),
        },
{
    let w = split_words(line, false);
    if w.len() != 3 {
        return Err(ParseError::InvalidNSegsNSumsNRels);
    }
    let ghost ws = words_of(line@, false);
    assert(ws[0] == w@[0]@ && ws[1] == w@[1]@ && ws[2] == w@[2]@);
    let nsegs = match count_from_chars(w[0].as_slice()) {
        None => {
            return Err(ParseError::InvalidNSegsValue);
        },
        Some(n) => n,
    };
    let nsyms = match count_from_chars(w[1].as_slice()) {
        None => {
            return Err(ParseError::InvalidNSymsValue);
        },
        Some(n) => n,
    };
    let nrels = match count_from_chars(w[2].as_slice()) {
        None => {
            return Err(ParseError::InvalidNRelsValue);
        },
        Some(n) => n,
    };
    Ok((nsegs, nsyms, nrels))
}


/// A section that fails on its first `k` lines fails in the same way on more.
pub proof fn lemma_section_err<T>(
    lines: Seq<Seq<char>>,
    k: int,
    n: int,
    read: spec_fn(Seq<char>) -> Result<T, ParseError>,
    missing: ParseError,
)
    requires
        k <= n,
        section_of(lines, k, read, missing) is Err,
    ensures
        section_of(lines, n, read, missing) == section_of(lines, k, read, missing),
    decreases n - k,
{
    if k < n {
        lemma_section_err(lines, k, n - 1, read, missing);
    }
}

/// A data section that fails on its first `k` lines fails in the same way on more.
pub proof fn lemma_data_section_err(lines: Seq<Seq<char>>, segs: Seq<SegmentView>, k: int, n: int)
    requires
        k <= n,
        data_section_of(lines, segs, k) is Err,
    ensures
        data_section_of(lines, segs, n) == data_section_of(lines, segs, k),
    decreases n - k,
{
    if k < n {
        lemma_data_section_err(lines, segs, k, n - 1);
    }
}

/// A section that reads well has read `n` lines, which were there.
pub proof fn lemma_section_len<T>(
    lines: Seq<Seq<char>>,
    n: int,
    read: spec_fn(Seq<char>) -> Result<T, ParseError>,
    missing: ParseError,
)
    requires
        0 <= n,
        section_of(lines, n, read, missing) is Ok,
    ensures
        lines.len() >= n,
        section_of(lines, n, read, missing)->Ok_0.len() == n,
    decreases n,
{
    if n > 0 {
        lemma_section_len(lines, n - 1, read, missing);
    }
}

/// One more line extends a section that has read `k` lines.
pub proof fn lemma_section_step<T>(
    lines: Seq<Seq<char>>,
    k: int,
    read: spec_fn(Seq<char>) -> Result<T, ParseError>,
    missing: ParseError,
)
    requires
        0 <= k,
        section_of(lines, k, read, missing) is Ok,
    ensures
        section_of(lines, k + 1, read, missing) == (if lines.len() < k + 1 {
            Err::<Seq<T>, ParseError>(missing)
        } else {
            match read(lines[k]) {
                Err(e) => Err::<Seq<T>, ParseError>(e),
                Ok(t) => Ok::<Seq<T>, ParseError>(section_of(lines, k, read, missing)->Ok_0.push(t)),
            }
        }),
{
}

fn read_segments(lines: &Vec<Vec<char>>, nsegs: i32) -> (r: Result<Vec<Segment>, ParseError>)
    requires
        nsegs >= 0,
        lines@.len() >= 2,
    ensures
        match r {
            Ok(v) => section_of(
                views(lines@).skip(2),
                nsegs as int,
                seg_reader(),
                ParseError::InvalidNumOfSegments,
            ) == Ok::<Seq<SegmentView>, ParseError>(deep(v@)) && v@.len() == nsegs && (forall|
                i: int,
            |
                0 <= i < nsegs ==> (#[trigger] deep(v@)[i]).segment_name != SegmentName::GOT),
            Err(e) => section_of(
                views(lines@).skip(2),
                nsegs as int,
                seg_reader(),
                ParseError::InvalidNumOfSegments,
            ) == Err::<Seq<SegmentView>, ParseError>(e),
        },
{
    let ghost body = views(lines@).skip(2);
    let total: u64 = lines.len() as u64;
    let mut segments: Vec<Segment> = Vec::new();
    let mut k: i32 = 0;
    assert(deep(segments@) =~= Seq::<SegmentView>::empty());
    while k < nsegs
        invariant
            0 <= k <= nsegs,
            body == views(lines@).skip(2),
            total == lines@.len(),
            total >= 2,
            segments@.len() == k,
            section_of(body, k as int, seg_reader(), ParseError::InvalidNumOfSegments) == Ok::<
                Seq<SegmentView>,
                ParseError,
            >(deep(segments@)),
            forall|i: int|
                0 <= i < k ==> (#[trigger] deep(segments@)[i]).segment_name != SegmentName::GOT,
        decreases nsegs - k,
    {
        let at: u64 = 2 + k as u64;
        proof {
            lemma_section_step(body, k as int, seg_reader(), ParseError::InvalidNumOfSegments);
        }
        if at >= total {
            proof {
                lemma_section_err(
                    body,
                    k + 1,
                    nsegs as int,
                    seg_reader(),
                    ParseError::InvalidNumOfSegments,
                );
            }
            return Err(ParseError::InvalidNumOfSegments);
        }
        assert(body[k as int] == lines@[at as int]@);
        match segment_from_chars(lines[at as usize].as_slice()) {
            Err(e) => {
                proof {
                    lemma_section_err(
                        body,
                        k + 1,
                        nsegs as int,
                        seg_reader(),
                        ParseError::InvalidNumOfSegments,
                    );
                }
                return Err(e);
            },
            Ok(seg) => {
                let ghost before = deep(segments@);
                segments.push(seg);
                assert(deep(segments@) =~= before.push(seg@));
            },
        }
        k += 1;
    }
    Ok(segments)
}

fn read_symbols(lines: &Vec<Vec<char>>, nsegs: i32, nsyms: i32) -> (r: Result<
    Vec<SymbolTableEntry>,
    ParseError,
>)
    requires
        nsegs >= 0,
        nsyms >= 0,
        lines@.len() >= 2 + nsegs,
    ensures
        match r {
            Ok(v) => section_of(
                views(lines@).skip(2).skip(nsegs as int),
                nsyms as int,
                sym_reader(nsegs as int),
                ParseError::InvalidNumOfSTEs,
            ) == Ok::<Seq<SymbolView>, ParseError>(deep(v@)) && v@.len() == nsyms && (forall|
                i: int,
            |
                0 <= i < nsyms ==> 0 <= (#[trigger] deep(v@)[i]).st_seg <= nsegs),
            Err(e) => section_of(
                views(lines@).skip(2).skip(nsegs as int),
                nsyms as int,
                sym_reader(nsegs as int),
                ParseError::InvalidNumOfSTEs,
            ) == Err::<Seq<SymbolView>, ParseError>(e),
        },
{
    let ghost body = views(lines@).skip(2).skip(nsegs as int);
    let total: u64 = lines.len() as u64;
    let base: u64 = 2 + nsegs as u64;
    let mut symbol_table: Vec<SymbolTableEntry> = Vec::new();
    let mut k: i32 = 0;
    assert(deep(symbol_table@) =~= Seq::<SymbolView>::empty());
    while k < nsyms
        invariant
            0 <= k <= nsyms,
            0 <= nsegs,
            body == views(lines@).skip(2).skip(nsegs as int),
            total == lines@.len(),
            total >= 2 + nsegs,
            base == 2 + nsegs,
            symbol_table@.len() == k,
            section_of(body, k as int, sym_reader(nsegs as int), ParseError::InvalidNumOfSTEs)
                == Ok::<Seq<SymbolView>, ParseError>(deep(symbol_table@)),
            forall|i: int| 0 <= i < k ==> 0 <= (#[trigger] deep(symbol_table@)[i]).st_seg <= nsegs,
        decreases nsyms - k,
    {
        let at: u64 = base + k as u64;
        proof {
            lemma_section_step(
                body,
                k as int,
                sym_reader(nsegs as int),
                ParseError::InvalidNumOfSTEs,
            );
        }
        if at >= total {
            proof {
                lemma_section_err(
                    body,
                    k + 1,
                    nsyms as int,
                    sym_reader(nsegs as int),
                    ParseError::InvalidNumOfSTEs,
                );
            }
            return Err(ParseError::InvalidNumOfSTEs);
        }
        assert(body[k as int] == lines@[at as int]@);
        match symbol_from_chars(nsegs, lines[at as usize].as_slice()) {
            Err(e) => {
                proof {
                    lemma_section_err(
                        body,
                        k + 1,
                        nsyms as int,
                        sym_reader(nsegs as int),
                        ParseError::InvalidNumOfSTEs,
                    );
                }
                return Err(e);
            },
            Ok(sym) => {
                let ghost before = deep(symbol_table@);
                symbol_table.push(sym);
                assert(deep(symbol_table@) =~= before.push(sym@));
            },
        }
        k += 1;
    }
    Ok(symbol_table)
}

/// A relocation line that reads well fits the module.
pub proof fn lemma_relocation_fits(segs: Seq<SegmentView>, nsyms: int, line: Seq<char>)
    requires
        relocation_of(segs, nsyms, line) is Ok,
    ensures
        rel_fits(segs, nsyms, relocation_of(segs, nsyms, line)->Ok_0),
{
    let w = words_of(line, true);
    let seg = signed_hex(w[1])->0;
    let r = relocation_of(segs, nsyms, line)->Ok_0;
    assert(segs[seg - 1].segment_name == r.rel_seg);
}

fn read_relocations(
    lines: &Vec<Vec<char>>,
    base: u64,
    segments: &Vec<Segment>,
    nsyms: i32,
    nrels: i32,
) -> (r: Result<Vec<Relocation>, ParseError>)
    requires
        nsyms >= 0,
        nrels >= 0,
        2 <= base <= 2 + 2 * 0x8000_0000,
        base <= lines@.len(),
    ensures
        match r {
            Ok(v) => section_of(
                views(lines@).skip(base as int),
                nrels as int,
                rel_reader(deep(segments@), nsyms as int),
                ParseError::InvalidNumOfRelocations,
            ) == Ok::<Seq<Relocation>, ParseError>(v@) && v@.len() == nrels && (forall|i: int|
                0 <= i < nrels ==> rel_fits(deep(segments@), nsyms as int, #[trigger] v@[i])),
            Err(e) => section_of(
                views(lines@).skip(base as int),
                nrels as int,
                rel_reader(deep(segments@), nsyms as int),
                ParseError::InvalidNumOfRelocations,
            ) == Err::<Seq<Relocation>, ParseError>(e),
        },
{
    let ghost body = views(lines@).skip(base as int);
    let ghost segs = deep(segments@);
    let total: u64 = lines.len() as u64;
    let mut relocations: Vec<Relocation> = Vec::new();
    let mut k: i32 = 0;
    while k < nrels
        invariant
            0 <= k <= nrels,
            0 <= nsyms,
            2 <= base <= 2 + 2 * 0x8000_0000,
            base <= lines@.len(),
            total <= usize::MAX,
            body == views(lines@).skip(base as int),
            total == lines@.len(),
            segs == deep(segments@),
            relocations@.len() == k,
            section_of(
                body,
                k as int,
                rel_reader(segs, nsyms as int),
                ParseError::InvalidNumOfRelocations,
            ) == Ok::<Seq<Relocation>, ParseError>(relocations@),
            forall|i: int| 0 <= i < k ==> rel_fits(segs, nsyms as int, #[trigger] relocations@[i]),
        decreases nrels - k,
    {
        let at: u64 = base + k as u64;
        proof {
            lemma_section_step(
                body,
                k as int,
                rel_reader(segs, nsyms as int),
                ParseError::InvalidNumOfRelocations,
            );
        }
        if at >= total {
            proof {
                lemma_section_err(
                    body,
                    k + 1,
                    nrels as int,
                    rel_reader(segs, nsyms as int),
                    ParseError::InvalidNumOfRelocations,
                );
            }
            return Err(ParseError::InvalidNumOfRelocations);
        }
        let ix: usize = at as usize;
        let line: &Vec<char> = &lines[ix];
        assert(body[k as int] == line@);
        let read = relocation_from_chars(segments.as_slice(), nsyms as usize, line.as_slice());
        assert(read == relocation_of(segs, nsyms as int, body[k as int]));
        assert(rel_reader(segs, nsyms as int)(body[k as int]) == read);
        match read {
            Err(e) => {
                proof {
                    lemma_section_err(
                        body,
                        k + 1,
                        nrels as int,
                        rel_reader(segs, nsyms as int),
                        ParseError::InvalidNumOfRelocations,
                    );
                }
                return Err(e);
            },
            Ok(rel) => {
                proof {
                    lemma_relocation_fits(segs, nsyms as int, line@);
                }
                relocations.push(rel);
            },
        }
        k += 1;
    }
    Ok(relocations)
}

/// One more line extends a data section that has read `k` lines.
pub proof fn lemma_data_section_step(lines: Seq<Seq<char>>, segs: Seq<SegmentView>, k: int)
    requires
        0 <= k,
        data_section_of(lines, segs, k) is Ok,
    ensures
        data_section_of(lines, segs, k + 1) == (if lines.len() < k + 1 {
            Err::<Seq<Seq<u8>>, ParseError>(ParseError::InvalidObjectData)
        } else {
            match segment_data_of(segs[k].segment_len as int, lines[k]) {
                Err(e) => Err::<Seq<Seq<u8>>, ParseError>(e),
                Ok(t) => Ok::<Seq<Seq<u8>>, ParseError>(
                    data_section_of(lines, segs, k)->Ok_0.push(t),
                ),
            }
        }),
{
}

fn read_data(lines: &Vec<Vec<char>>, base: u64, segments: &Vec<Segment>, nsegs: i32) -> (r: Result<
    Vec<SegmentData>,
    ParseError,
>)
    requires
        nsegs >= 0,
        segments@.len() == nsegs,
        2 <= base <= 2 + 3 * 0x8000_0000,
        base <= lines@.len(),
    ensures
        match r {
            Ok(v) => data_section_of(
                views(lines@).skip(base as int),
                deep(segments@),
                nsegs as int,
            ) == Ok::<Seq<Seq<u8>>, ParseError>(deep(v@)) && v@.len() == nsegs && (forall|i: int|
                0 <= i < nsegs ==> (#[trigger] deep(v@)[i]).len() == deep(
                    segments@,
                )[i].segment_len),
            Err(e) => data_section_of(
                views(lines@).skip(base as int),
                deep(segments@),
                nsegs as int,
            ) == Err::<Seq<Seq<u8>>, ParseError>(e),
        },
{
    let ghost body = views(lines@).skip(base as int);
    let ghost segs = deep(segments@);
    let total: u64 = lines.len() as u64;
    let mut object_data: Vec<SegmentData> = Vec::new();
    let mut k: i32 = 0;
    assert(deep(object_data@) =~= Seq::<Seq<u8>>::empty());
    while k < nsegs
        invariant
            0 <= k <= nsegs,
            2 <= base <= 2 + 3 * 0x8000_0000,
            base <= lines@.len(),
            total <= usize::MAX,
            body == views(lines@).skip(base as int),
            total == lines@.len(),
            segs == deep(segments@),
            segments@.len() == nsegs,
            object_data@.len() == k,
            data_section_of(body, segs, k as int) == Ok::<Seq<Seq<u8>>, ParseError>(
                deep(object_data@),
            ),
            forall|i: int|
                0 <= i < k ==> (#[trigger] deep(object_data@)[i]).len() == segs[i].segment_len,
        decreases nsegs - k,
    {
        let at: u64 = base + k as u64;
        proof {
            lemma_data_section_step(body, segs, k as int);
        }
        if at >= total {
            proof {
                lemma_data_section_err(body, segs, k + 1, nsegs as int);
            }
            return Err(ParseError::InvalidObjectData);
        }
        let ix: usize = at as usize;
        let line: &Vec<char> = &lines[ix];
        assert(body[k as int] == line@);
        let seg_len = segments[k as usize].segment_len;
        assert(segs[k as int].segment_len == seg_len);
        match bytes_from_chars(line.as_slice()) {
            None => {
                proof {
                    lemma_data_section_err(body, segs, k + 1, nsegs as int);
                }
                return Err(ParseError::InvalidObjectData);
            },
            Some(bytes) => {
                if seg_len < 0 || bytes.len() != seg_len as usize {
                    proof {
                        lemma_data_section_err(body, segs, k + 1, nsegs as int);
                    }
                    return Err(ParseError::SegmentDataLengthMismatch);
                }
                let ghost before = deep(object_data@);
                let data = SegmentData::from_bytes(bytes);
                object_data.push(data);
                assert(deep(object_data@) =~= before.push(data@));
            },
        }
        k += 1;
    }
    Ok(object_data)
}

/// Reads the lines of an object file.
pub fn object_from_lines(lines: &Vec<Vec<char>>) -> (r: Result<ObjectIn, ParseError>)
    ensures
        match r {
            Ok(o) => object_of_lines(views(lines@)) == Ok::<ObjectView, ParseError>(o@) && o@.wf(),
            Err(e) => object_of_lines(views(lines@)) == Err::<ObjectView, ParseError>(e),
        },
{
    let ghost rows = views(lines@);
    if lines.len() == 0 {
        return Err(ParseError::MissingMagicNumber);
    }
    assert(rows[0] == lines@[0]@);
    if !spells(lines[0].as_slice(), MAGIC_NUMBER) {
        return Err(ParseError::InvalidMagicNumber);
    }
    if lines.len() < 2 {
        return Err(ParseError::MissingNSegsNSumsNRels);
    }
    assert(rows[1] == lines@[1]@);
    let (nsegs, nsyms, nrels) = match parse_nsegs_nsyms_nrels(lines[1].as_slice()) {
        Err(e) => {
            return Err(e);
        },
        Ok(c) => c,
    };
    let ghost body = rows.skip(2);
    let total: u64 = lines.len() as u64;

    let segments = match read_segments(lines, nsegs) {
        Err(e) => {
            return Err(e);
        },
        Ok(v) => v,
    };
    let ghost segs = deep(segments@);
    proof {
        lemma_section_len(body, nsegs as int, seg_reader(), ParseError::InvalidNumOfSegments);
    }
    let base: u64 = 2 + nsegs as u64;
    if base < total {
        assert(body[nsegs as int] == lines@[base as int]@);
        if segment_from_chars(lines[base as usize].as_slice()).is_ok() {
            return Err(ParseError::InvalidNumOfSegments);
        }
    }
    assert(!one_more(body, nsegs as int, seg_reader()));

    let symbol_table = match read_symbols(lines, nsegs, nsyms) {
        Err(e) => {
            return Err(e);
        },
        Ok(v) => v,
    };
    proof {
        lemma_section_len(
            body.skip(nsegs as int),
            nsyms as int,
            sym_reader(nsegs as int),
            ParseError::InvalidNumOfSTEs,
        );
    }
    let base: u64 = 2 + nsegs as u64 + nsyms as u64;
    if base < total {
        assert(body[nsegs + nsyms] == lines@[base as int]@);
        if symbol_from_chars(nsegs, lines[base as usize].as_slice()).is_ok() {
            return Err(ParseError::InvalidNumOfSTEs);
        }
    }
    assert(!one_more(body, nsegs + nsyms, sym_reader(nsegs as int)));

    assert(rows.skip(base as int) =~= body.skip(nsegs + nsyms));
    let relocations = match read_relocations(lines, base, &segments, nsyms, nrels) {
        Err(e) => {
            return Err(e);
        },
        Ok(v) => v,
    };
    proof {
        lemma_section_len(
            body.skip(nsegs + nsyms),
            nrels as int,
            rel_reader(segs, nsyms as int),
            ParseError::InvalidNumOfRelocations,
        );
    }
    let base: u64 = 2 + nsegs as u64 + nsyms as u64 + nrels as u64;
    if base < total {
        assert(body[nsegs + nsyms + nrels] == lines@[base as int]@);
        if relocation_from_chars(
            segments.as_slice(),
            nsyms as usize,
            lines[base as usize].as_slice(),
        ).is_ok() {
            return Err(ParseError::InvalidNumOfRelocations);
        }
    }
    assert(!one_more(body, nsegs + nsyms + nrels, rel_reader(segs, nsyms as int)));

    assert(rows.skip(base as int) =~= body.skip(nsegs + nsyms + nrels));
    let object_data = match read_data(lines, base, &segments, nsegs) {
        Err(e) => {
            return Err(e);
        },
        Ok(v) => v,
    };
    let last: u64 = 2 + nsegs as u64 + nsyms as u64 + nrels as u64 + nsegs as u64;
    if last < total {
        return Err(ParseError::SegmentDataOutOfBounds);
    }
    let o = ObjectIn { nsegs, nsyms, nrels, segments, symbol_table, relocations, object_data };
    assert(body_of(body, nsegs as int, nsyms as int, nrels as int) == Ok::<ObjectView, ParseError>(
        o@,
    ));
    Ok(o)
}

/// Reads the characters of an object file.
pub fn object_from_chars(text: &[char]) -> (r: Result<ObjectIn, ParseError>)
    ensures
        match r {
            Ok(o) => object_of(text@) == Ok::<ObjectView, ParseError>(o@) && o@.wf(),
            Err(e) => object_of(text@) == Err::<ObjectView, ParseError>(e),
        },
{
    let lines = split_lines(text);
    object_from_lines(&lines)
}

/// Reads the text of an object file.
pub fn parse_object_file(file_contents: String) -> (r: Result<ObjectIn, ParseError>)
    ensures
        match r {
            Ok(o) => object_of(file_contents@) == Ok::<ObjectView, ParseError>(o@) && o@.wf(),
            Err(e) => object_of(file_contents@) == Err::<ObjectView, ParseError>(e),
        },
{
    let text = chars_of(file_contents.as_str());
    let lines = split_lines(text.as_slice());
    object_from_lines(&lines)
}


/// The header line of a module.
pub open spec fn header_line(nsegs: i32, nsyms: i32, nrels: i32) -> Seq<char> {
    join(seq![hex_i32(nsegs as int), hex_i32(nsyms as int), hex_i32(nrels as int)], seq![' '])
}

/// The line of a segment: `name start len flags`.
pub open spec fn segment_line(seg: SegmentView) -> Seq<char> {
    join(
        seq![
            segment_name_text(seg.segment_name),
            hex_i32(seg.segment_start as int),
            hex_i32(seg.segment_len as int),
            descr_text(seg.segment_descr),
        ],
        seq![' '],
    )
}

/// How the name of a symbol is printed: a wrapped name of `N` as `real_N`
/// where it is defined and as `wrap_N` where it is not.
pub open spec fn printed_name(sym: SymbolView) -> Seq<char> {
    if !sym.st_name.wrapped {
        sym.st_name.text
    } else if sym.st_type == SymbolTableEntryType::D {
        "real_"@ + sym.st_name.text
    } else {
        "wrap_"@ + sym.st_name.text
    }
}

/// The line of a symbol: `name value seg type`.
pub open spec fn symbol_line(sym: SymbolView) -> Seq<char> {
    join(
        seq![
            printed_name(sym),
            hex_i32(sym.st_value as int),
            hex_i32(sym.st_seg as int),
            symbol_type_text(sym.st_type),
        ],
        seq![' '],
    )
}

/// The number, from 1, of the first segment of the given name; 0 if there is none.
pub open spec fn segment_number(segs: Seq<SegmentView>, name: SegmentName) -> int
    decreases segs.len(),
{
    if segs.len() == 0 {
        0
    } else if segment_number(segs.drop_last(), name) != 0 {
        segment_number(segs.drop_last(), name)
    } else if segs.last().segment_name == name {
        segs.len() as int
    } else {
        0
    }
}

/// The number that is printed for a reference: counted from 1, 0 for no reference.
pub open spec fn ref_number(r: RelRef) -> int {
    match r {
        RelRef::SegmentRef(i) => i + 1,
        RelRef::SymbolRef(i) => i + 1,
        RelRef::NoRef => 0,
    }
}

/// The line of a relocation in a module with the segments `segs`: `loc seg ref type`.
pub open spec fn relocation_line(segs: Seq<SegmentView>, r: Relocation) -> Seq<char> {
    join(
        seq![
            hex_i32(r.rel_loc as int),
            hex_digits(segment_number(segs, r.rel_seg) as nat),
            hex_digits(ref_number(r.rel_ref) as nat),
            rel_type_text(r.rel_type),
        ],
        seq![' '],
    )
}

/// The line of the data of a segment: two digits for each byte.
pub open spec fn data_line(bytes: Seq<u8>) -> Seq<char> {
    join(bytes.map_values(|b: u8| hex_byte(b)), seq![' '])
}

/// The lines of a module after the magic line: the header, the segments, the
/// symbols, the relocations, and the data of each segment.
pub open spec fn object_lines(o: ObjectView) -> Seq<Seq<char>> {
    seq![header_line(o.nsegs, o.nsyms, o.nrels)] + o.segments.map_values(
        |s: SegmentView| segment_line(s),
    ) + o.symbol_table.map_values(|s: SymbolView| symbol_line(s)) + o.relocations.map_values(
        |r: Relocation| relocation_line(o.segments, r),
    ) + o.object_data.map_values(|d: Seq<u8>| data_line(d))
}

/// The text of a module, with or without the magic line.
pub open spec fn object_text(o: ObjectView, include_hdr: bool) -> Seq<char> {
    if include_hdr {
        join_lines(seq![MAGIC_NUMBER@] + object_lines(o))
    } else {
        join_lines(object_lines(o))
    }
}

/// The header line.
pub fn header_chars(nsegs: i32, nsyms: i32, nrels: i32) -> (line: Vec<char>)
    ensures
        line@ == header_line(nsegs, nsyms, nrels),
{
    let mut a: Vec<char> = Vec::new();
    push_hex_i32(&mut a, nsegs);
    let mut b: Vec<char> = Vec::new();
    push_hex_i32(&mut b, nsyms);
    let mut c: Vec<char> = Vec::new();
    push_hex_i32(&mut c, nrels);
    assert(a@ =~= hex_i32(nsegs as int) && b@ =~= hex_i32(nsyms as int) && c@ =~= hex_i32(
        nrels as int,
    ));
    let mut words: Vec<Vec<char>> = Vec::new();
    words.push(a);
    words.push(b);
    words.push(c);
    assert(views(words@) =~= seq![
        hex_i32(nsegs as int),
        hex_i32(nsyms as int),
        hex_i32(nrels as int),
    ]);
    join_with(&words, ' ')
}

/// The line of a segment.
pub fn segment_chars(seg: &Segment) -> (line: Vec<char>)
    ensures
        line@ == segment_line(seg@),
{
    let mut a: Vec<char> = Vec::new();
    push_str(&mut a, seg.segment_name.as_str());
    let mut b: Vec<char> = Vec::new();
    push_hex_i32(&mut b, seg.segment_start);
    let mut c: Vec<char> = Vec::new();
    push_hex_i32(&mut c, seg.segment_len);
    let mut d: Vec<char> = Vec::new();
    let descr = seg.ppr_seg_descr();
    push_str(&mut d, descr.as_str());
    assert(a@ =~= segment_name_text(seg.segment_name));
    assert(b@ =~= hex_i32(seg.segment_start as int));
    assert(c@ =~= hex_i32(seg.segment_len as int));
    assert(d@ =~= descr_text(seg.segment_descr@));
    let mut words: Vec<Vec<char>> = Vec::new();
    words.push(a);
    words.push(b);
    words.push(c);
    words.push(d);
    assert(views(words@) =~= seq![
        segment_name_text(seg.segment_name),
        hex_i32(seg.segment_start as int),
        hex_i32(seg.segment_len as int),
        descr_text(seg.segment_descr@),
    ]);
    join_with(&words, ' ')
}

/// The line of a symbol.
pub fn symbol_chars(sym: &SymbolTableEntry) -> (line: Vec<char>)
    ensures
        line@ == symbol_line(sym@),
{
    let mut a: Vec<char> = Vec::new();
    if sym.st_name.is_wrapped() {
        match sym.st_type {
            SymbolTableEntryType::D => push_str(&mut a, "real_"),
            SymbolTableEntryType::U => push_str(&mut a, "wrap_"),
        }
    }
    push_str(&mut a, sym.st_name.as_str());
    let mut b: Vec<char> = Vec::new();
    push_hex_i32(&mut b, sym.st_value);
    let mut c: Vec<char> = Vec::new();
    push_hex_i32(&mut c, sym.st_seg);
    let mut d: Vec<char> = Vec::new();
    match sym.st_type {
        SymbolTableEntryType::D => push_str(&mut d, "D"),
        SymbolTableEntryType::U => push_str(&mut d, "U"),
    }
    assert(a@ =~= printed_name(sym@));
    assert(b@ =~= hex_i32(sym.st_value as int));
    assert(c@ =~= hex_i32(sym.st_seg as int));
    assert(d@ =~= symbol_type_text(sym.st_type));
    let mut words: Vec<Vec<char>> = Vec::new();
    words.push(a);
    words.push(b);
    words.push(c);
    words.push(d);
    assert(views(words@) =~= seq![
        printed_name(sym@),
        hex_i32(sym.st_value as int),
        hex_i32(sym.st_seg as int),
        symbol_type_text(sym.st_type),
    ]);
    join_with(&words, ' ')
}

/// The first segment of a name keeps its number however many segments follow.
pub proof fn lemma_segment_number_found(all: Seq<SegmentView>, k: int, j: int, name: SegmentName)
    requires
        0 <= k < j <= all.len(),
        segment_number(all.take(k), name) == 0,
        all[k].segment_name == name,
    ensures
        segment_number(all.take(j), name) == k + 1,
    decreases j,
{
    assert(all.take(j).drop_last() =~= all.take(j - 1));
    if j > k + 1 {
        lemma_segment_number_found(all, k, j - 1, name);
    }
}

/// The number, from 1, of the first segment of the given name; 0 if there is none.
pub fn number_of_segment(segs: &Vec<Segment>, name: SegmentName) -> (n: usize)
    ensures
        n == segment_number(deep(segs@), name),
        n <= segs@.len(),
{
    let mut k: usize = 0;
    let ghost all = deep(segs@);
    assert(all.take(0) =~= Seq::<SegmentView>::empty());
    while k < segs.len()
        invariant
            k <= segs@.len(),
            all == deep(segs@),
            segment_number(all.take(k as int), name) == 0,
        decreases segs@.len() - k,
    {
        assert(all.take(k + 1).drop_last() =~= all.take(k as int));
        if segs[k].segment_name == name {
            proof {
                lemma_segment_number_found(all, k as int, all.len() as int, name);
                assert(all.take(all.len() as int) =~= all);
            }
            return k + 1;
        }
        k += 1;
    }
    assert(all.take(all.len() as int) =~= all);
    0
}

/// The line of a relocation of a module with the segments `segs`.
pub fn relocation_chars(segs: &Vec<Segment>, r: &Relocation) -> (line: Vec<char>)
    ensures
        line@ == relocation_line(deep(segs@), *r),
{
    let mut a: Vec<char> = Vec::new();
    push_hex_i32(&mut a, r.rel_loc);
    let mut b: Vec<char> = Vec::new();
    let seg = number_of_segment(segs, r.rel_seg);
    push_hex(&mut b, seg as u128);
    let mut c: Vec<char> = Vec::new();
    let number: u128 = match r.rel_ref {
        RelRef::SegmentRef(i) => i as u128 + 1,
        RelRef::SymbolRef(i) => i as u128 + 1,
        RelRef::NoRef => 0,
    };
    push_hex(&mut c, number);
    let mut d: Vec<char> = Vec::new();
    push_str(&mut d, r.rel_type.as_str());
    assert(a@ =~= hex_i32(r.rel_loc as int));
    assert(b@ =~= hex_digits(segment_number(deep(segs@), r.rel_seg) as nat));
    assert(c@ =~= hex_digits(ref_number(r.rel_ref) as nat));
    assert(d@ =~= rel_type_text(r.rel_type));
    let mut words: Vec<Vec<char>> = Vec::new();
    words.push(a);
    words.push(b);
    words.push(c);
    words.push(d);
    assert(views(words@) =~= seq![
        hex_i32(r.rel_loc as int),
        hex_digits(segment_number(deep(segs@), r.rel_seg) as nat),
        hex_digits(ref_number(r.rel_ref) as nat),
        rel_type_text(r.rel_type),
    ]);
    join_with(&words, ' ')
}

/// The line of the data of a segment.
pub fn data_chars(data: &SegmentData) -> (line: Vec<char>)
    ensures
        line@ == data_line(data@),
{
    let mut words: Vec<Vec<char>> = Vec::new();
    let bytes = data.deref();
    let mut k: usize = 0;
    while k < bytes.len()
        invariant
            k <= bytes@.len(),
            bytes@ == data@,
            views(words@) =~= bytes@.take(k as int).map_values(|b: u8| hex_byte(b)),
        decreases bytes@.len() - k,
    {
        let mut w: Vec<char> = Vec::new();
        push_hex_byte(&mut w, bytes[k]);
        assert(w@ =~= hex_byte(bytes@[k as int]));
        proof {
            lemma_views_push(words@, w);
            assert(bytes@.take(k + 1).map_values(|b: u8| hex_byte(b)) =~= bytes@.take(
                k as int,
            ).map_values(|b: u8| hex_byte(b)).push(hex_byte(bytes@[k as int])));
        }
        words.push(w);
        k += 1;
    }
    assert(bytes@.take(bytes@.len() as int) =~= bytes@);
    join_with(&words, ' ')
}

impl ObjectIn {
    /// A copy of the module.
    pub fn duplicate(&self) -> (o: ObjectIn)
        ensures
            o@ == self@,
    {
        let mut segments: Vec<Segment> = Vec::new();
        let mut k: usize = 0;
        while k < self.segments.len()
            invariant
                k <= self.segments@.len(),
                deep(segments@) =~= deep(self.segments@).take(k as int),
            decreases self.segments@.len() - k,
        {
            let ghost before = deep(segments@);
            let item = self.segments[k].duplicate();
            segments.push(item);
            assert(deep(segments@) =~= before.push(item.deep_view()));
            assert(deep(self.segments@).take(k + 1) =~= deep(self.segments@).take(k as int).push(
                self.segments@[k as int].deep_view(),
            ));
            k += 1;
        }
        assert(deep(segments@) =~= deep(self.segments@));
        let mut symbol_table: Vec<SymbolTableEntry> = Vec::new();
        let mut k: usize = 0;
        while k < self.symbol_table.len()
            invariant
                k <= self.symbol_table@.len(),
                deep(symbol_table@) =~= deep(self.symbol_table@).take(k as int),
            decreases self.symbol_table@.len() - k,
        {
            let ghost before = deep(symbol_table@);
            let item = self.symbol_table[k].duplicate();
            symbol_table.push(item);
            assert(deep(symbol_table@) =~= before.push(item.deep_view()));
            assert(deep(self.symbol_table@).take(k + 1) =~= deep(self.symbol_table@).take(k as int).push(
                self.symbol_table@[k as int].deep_view(),
            ));
            k += 1;
        }
        assert(deep(symbol_table@) =~= deep(self.symbol_table@));
        let mut relocations: Vec<Relocation> = Vec::new();
        let mut k: usize = 0;
        while k < self.relocations.len()
            invariant
                k <= self.relocations@.len(),
                relocations@ =~= self.relocations@.take(k as int),
            decreases self.relocations@.len() - k,
        {
            relocations.push(self.relocations[k]);
            k += 1;
        }
        assert(relocations@ =~= self.relocations@);
        let mut object_data: Vec<SegmentData> = Vec::new();
        let mut k: usize = 0;
        while k < self.object_data.len()
            invariant
                k <= self.object_data@.len(),
                deep(object_data@) =~= deep(self.object_data@).take(k as int),
            decreases self.object_data@.len() - k,
        {
            let ghost before = deep(object_data@);
            let item = self.object_data[k].duplicate();
            object_data.push(item);
            assert(deep(object_data@) =~= before.push(item.deep_view()));
            assert(deep(self.object_data@).take(k + 1) =~= deep(self.object_data@).take(k as int).push(
                self.object_data@[k as int].deep_view(),
            ));
            k += 1;
        }
        assert(deep(object_data@) =~= deep(self.object_data@));
        ObjectIn {
            nsegs: self.nsegs,
            nsyms: self.nsyms,
            nrels: self.nrels,
            segments,
            symbol_table,
            relocations,
            object_data,
        }
    }

    /// The lines of the module after the magic line.
    pub fn lines(&self) -> (lines: Vec<Vec<char>>)
        ensures
            views(lines@) == object_lines(self@),
    {
        let ghost o = self@;
        let mut lines: Vec<Vec<char>> = Vec::new();
        let header = header_chars(self.nsegs, self.nsyms, self.nrels);
        lines.push(header);
        let ghost l0 = seq![header_line(o.nsegs, o.nsyms, o.nrels)];
        assert(views(lines@) =~= l0);
        let mut k: usize = 0;
        while k < self.segments.len()
            invariant
                k <= self.segments@.len(),
                o == self@,
                views(lines@) =~= l0 + o.segments.take(k as int).map_values(
                    |s: SegmentView| segment_line(s),
                ),
            decreases self.segments@.len() - k,
        {
            let line = segment_chars(&self.segments[k]);
            proof {
                lemma_views_push(lines@, line);
                assert(o.segments.take(k + 1).map_values(|s: SegmentView| segment_line(s))
                    =~= o.segments.take(k as int).map_values(|s: SegmentView| segment_line(s)).push(
                    segment_line(o.segments[k as int]),
                ));
            }
            lines.push(line);
            k += 1;
        }
        assert(o.segments.take(o.segments.len() as int) =~= o.segments);
        let ghost l1 = l0 + o.segments.map_values(|s: SegmentView| segment_line(s));
        let mut k: usize = 0;
        while k < self.symbol_table.len()
            invariant
                k <= self.symbol_table@.len(),
                o == self@,
                views(lines@) =~= l1 + o.symbol_table.take(k as int).map_values(
                    |s: SymbolView| symbol_line(s),
                ),
            decreases self.symbol_table@.len() - k,
        {
            let line = symbol_chars(&self.symbol_table[k]);
            proof {
                lemma_views_push(lines@, line);
                assert(o.symbol_table.take(k + 1).map_values(|s: SymbolView| symbol_line(s))
                    =~= o.symbol_table.take(k as int).map_values(
                    |s: SymbolView| symbol_line(s),
                ).push(symbol_line(o.symbol_table[k as int])));
            }
            lines.push(line);
            k += 1;
        }
        assert(o.symbol_table.take(o.symbol_table.len() as int) =~= o.symbol_table);
        let ghost l2 = l1 + o.symbol_table.map_values(|s: SymbolView| symbol_line(s));
        let mut k: usize = 0;
        while k < self.relocations.len()
            invariant
                k <= self.relocations@.len(),
                o == self@,
                views(lines@) =~= l2 + o.relocations.take(k as int).map_values(
                    |r: Relocation| relocation_line(o.segments, r),
                ),
            decreases self.relocations@.len() - k,
        {
            let line = relocation_chars(&self.segments, &self.relocations[k]);
            proof {
                lemma_views_push(lines@, line);
                assert(o.relocations.take(k + 1).map_values(
                    |r: Relocation| relocation_line(o.segments, r),
                ) =~= o.relocations.take(k as int).map_values(
                    |r: Relocation| relocation_line(o.segments, r),
                ).push(relocation_line(o.segments, o.relocations[k as int])));
            }
            lines.push(line);
            k += 1;
        }
        assert(o.relocations.take(o.relocations.len() as int) =~= o.relocations);
        let ghost l3 = l2 + o.relocations.map_values(
            |r: Relocation| relocation_line(o.segments, r),
        );
        let mut k: usize = 0;
        while k < self.object_data.len()
            invariant
                k <= self.object_data@.len(),
                o == self@,
                views(lines@) =~= l3 + o.object_data.take(k as int).map_values(
                    |d: Seq<u8>| data_line(d),
                ),
            decreases self.object_data@.len() - k,
        {
            let line = data_chars(&self.object_data[k]);
            proof {
                lemma_views_push(lines@, line);
                assert(o.object_data.take(k + 1).map_values(|d: Seq<u8>| data_line(d))
                    =~= o.object_data.take(k as int).map_values(|d: Seq<u8>| data_line(d)).push(
                    data_line(o.object_data[k as int]),
                ));
            }
            lines.push(line);
            k += 1;
        }
        assert(o.object_data.take(o.object_data.len() as int) =~= o.object_data);
        lines
    }

    /// The text of the module, with the magic line if `include_hdr` is set.
    pub fn ppr(&self, include_hdr: bool) -> (s: String)
        ensures
            s@ == object_text(self@, include_hdr),
    {
        let body = self.lines();
        let text = if include_hdr {
            let mut all: Vec<Vec<char>> = Vec::new();
            let mut magic: Vec<char> = Vec::new();
            push_str(&mut magic, MAGIC_NUMBER);
            assert(magic@ =~= MAGIC_NUMBER@);
            all.push(magic);
            let mut k: usize = 0;
            while k < body.len()
                invariant
                    k <= body@.len(),
                    views(all@) =~= seq![MAGIC_NUMBER@] + views(body@).take(k as int),
                decreases body@.len() - k,
            {
                let line = crate::text::slice_of(body[k].as_slice(), 0, body[k].len());
                assert(line@ =~= body@[k as int]@);
                proof {
                    lemma_views_push(all@, line);
                    assert(views(body@).take(k + 1) =~= views(body@).take(k as int).push(
                        body@[k as int]@,
                    ));
                }
                all.push(line);
                k += 1;
            }
            assert(views(body@).take(body@.len() as int) =~= views(body@));
            join_with(&all, '\n')
        } else {
            join_with(&body, '\n')
        };
        assert(text@.subrange(0, text@.len() as int) =~= text@);
        string_of(text.as_slice(), 0, text.len())
    }
}


/// Whether one of the segments has the given name.
pub fn segment_named(segs: &Vec<Segment>, name: SegmentName) -> (b: bool)
    ensures
        b == has_segment(deep(segs@), name),
{
    let mut k: usize = 0;
    while k < segs.len()
        invariant
            k <= segs@.len(),
            forall|i: int| 0 <= i < k ==> (#[trigger] deep(segs@)[i]).segment_name != name,
        decreases segs@.len() - k,
    {
        if segs[k].segment_name == name {
            assert(deep(segs@)[k as int].segment_name == name);
            return true;
        }
        k += 1;
    }
    false
}

/// Whether a relocation fits a module with the given segments and `nsyms` symbols.
pub fn relocation_fits(segs: &Vec<Segment>, nsyms: usize, r: &Relocation) -> (b: bool)
    ensures
        b == rel_fits(deep(segs@), nsyms as int, *r),
{
    let typed = if r.rel_type.is_segment_rel() {
        match r.rel_ref {
            RelRef::SegmentRef(_) => true,
            _ => false,
        }
    } else if r.rel_type.is_no_rel() {
        match r.rel_ref {
            RelRef::NoRef => true,
            _ => false,
        }
    } else {
        match r.rel_ref {
            RelRef::SymbolRef(_) => true,
            _ => false,
        }
    };
    let within = match r.rel_ref {
        RelRef::SegmentRef(i) => i < segs.len(),
        RelRef::SymbolRef(i) => i < nsyms,
        RelRef::NoRef => true,
    };
    typed && within && segment_named(segs, r.rel_seg)
}

impl ObjectIn {
    /// Whether the module is well formed.
    pub fn check(&self) -> (b: bool)
        ensures
            b == self@.wf(),
    {
        let ghost o = self@;
        if self.nsegs < 0 || self.nsyms < 0 || self.nrels < 0 {
            return false;
        }
        if self.segments.len() != self.nsegs as usize || self.symbol_table.len()
            != self.nsyms as usize || self.relocations.len() != self.nrels as usize
            || self.object_data.len() != self.nsegs as usize {
            return false;
        }
        let mut k: usize = 0;
        while k < self.segments.len()
            invariant
                k <= self.segments@.len(),
                o == self@,
                self.object_data@.len() == self.segments@.len(),
                forall|i: int|
                    0 <= i < k ==> (#[trigger] o.object_data[i]).len()
                        == o.segments[i].segment_len,
                forall|i: int|
                    0 <= i < k ==> (#[trigger] o.segments[i]).segment_name != SegmentName::GOT,
            decreases self.segments@.len() - k,
        {
            assert(o.segments[k as int] == self.segments@[k as int]@);
            assert(o.object_data[k as int] == self.object_data@[k as int]@);
            let seg = &self.segments[k];
            if seg.segment_len < 0 || self.object_data[k].len() != seg.segment_len as usize {
                assert(o.object_data[k as int].len() != o.segments[k as int].segment_len);
                return false;
            }
            if seg.segment_name == SegmentName::GOT {
                assert(o.segments[k as int].segment_name == SegmentName::GOT);
                return false;
            }
            k += 1;
        }
        let mut k: usize = 0;
        while k < self.symbol_table.len()
            invariant
                k <= self.symbol_table@.len(),
                o == self@,
                forall|i: int| 0 <= i < k ==> 0 <= (#[trigger] o.symbol_table[i]).st_seg <= o.nsegs,
            decreases self.symbol_table@.len() - k,
        {
            assert(o.symbol_table[k as int] == self.symbol_table@[k as int]@);
            if self.symbol_table[k].st_seg < 0 || self.symbol_table[k].st_seg > self.nsegs {
                assert(!(0 <= o.symbol_table[k as int].st_seg <= o.nsegs));
                return false;
            }
            k += 1;
        }
        let mut k: usize = 0;
        while k < self.relocations.len()
            invariant
                k <= self.relocations@.len(),
                o == self@,
                forall|i: int| 0 <= i < k ==> o.fits(#[trigger] o.relocations[i]),
            decreases self.relocations@.len() - k,
        {
            if !relocation_fits(&self.segments, self.symbol_table.len(), &self.relocations[k]) {
                assert(!o.fits(o.relocations[k as int]));
                return false;
            }
            k += 1;
        }
        true
    }
}

/// Whether each of the modules is well formed.
pub fn check_modules(modules: &Vec<ObjectIn>) -> (b: bool)
    ensures
        b == (forall|i: int| 0 <= i < modules@.len() ==> (#[trigger] deep(modules@)[i]).wf()),
{
    let mut k: usize = 0;
    while k < modules.len()
        invariant
            k <= modules@.len(),
            forall|i: int| 0 <= i < k ==> (#[trigger] deep(modules@)[i]).wf(),
        decreases modules@.len() - k,
    {
        assert(deep(modules@)[k as int] == modules@[k as int]@);
        if !modules[k].check() {
            return false;
        }
        k += 1;
    }
    true
}

} // verus!
