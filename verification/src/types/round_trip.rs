//! What is printed reads back: the lines of a module and the module itself.

use crate::text::{
    are_lines, are_words, hex_byte, hex_digit, hex_digits, hex_i32, is_blank, is_line, is_word,
    join, lemma_digit_is_plain, lemma_hex_byte_reads_back, lemma_hex_reads_back,
    lemma_lines_of_join, lemma_words_of_join, unsigned_hex,
};
use crate::types::errors::ParseError;
use crate::types::object::{
    body_of, data_line, data_section_of, has_segment, header_line, header_of, object_lines,
    object_of, object_text, one_more, printed_name, ref_number, rel_fits, rel_reader,
    relocation_line, section_of, seg_reader, segment_line, segment_number, sym_reader, symbol_line,
    ObjectView, MAGIC_NUMBER,
};
use crate::types::relocation::{
    rel_ref_of, rel_type_of, rel_type_text, relocation_of, RelRef, RelType, Relocation,
};
use crate::types::segment::{
    bytes_of, descr_char, descr_of, descr_text, descrs_of, segment_data_of, segment_name_of,
    segment_name_text, segment_of, SegmentDescr, SegmentName, SegmentView,
};
use crate::types::symbol_table::{
    symbol_of, symbol_type_of, symbol_type_text, SymbolTableEntryType, SymbolView,
};
use vstd::prelude::*;

verus! {

/// A line that is joined from words holds no line feed, does not end with a
/// carriage return, and is not empty unless there is no word.
pub proof fn lemma_join_is_line(words: Seq<Seq<char>>, ascii: bool)
    requires
        are_words(words, ascii),
    ensures
        is_line(join(words, seq![' '])),
        words.len() > 0 ==> join(words, seq![' ']).len() > 0,
    decreases words.len(),
{
    let sep = seq![' '];
    let line = join(words, sep);
    if words.len() == 1 {
        assert(is_word(words[0], ascii));
        assert forall|i: int| 0 <= i < line.len() implies line[i] != '\n' by {
            assert(!is_blank(words[0][i], ascii));
        }
        assert(!is_blank(line.last(), ascii));
    } else if words.len() > 1 {
        let front = words.drop_last();
        let last = words.last();
        assert(is_word(last, ascii));
        assert(are_words(front, ascii)) by {
            assert forall|i: int| 0 <= i < front.len() implies is_word(
                #[trigger] front[i],
                ascii,
            ) by {
                assert(front[i] == words[i]);
            }
        }
        lemma_join_is_line(front, ascii);
        let head = join(front, sep);
        assert(line == head + sep + last);
        assert forall|i: int| 0 <= i < line.len() implies line[i] != '\n' by {
            if i < head.len() {
                assert(line[i] == head[i]);
            } else if i == head.len() {
                assert(line[i] == ' ');
            } else {
                assert(line[i] == last[i - head.len() - 1]);
                assert(!is_blank(last[i - head.len() - 1], ascii));
            }
        }
        assert(line.last() == last.last());
        assert(!is_blank(last.last(), ascii));
    }
}

/// The header line reads back as the counts that it was printed from.
pub proof fn lemma_header_reads_back(nsegs: i32, nsyms: i32, nrels: i32)
    requires
        nsegs >= 0,
        nsyms >= 0,
        nrels >= 0,
    ensures
        header_of(header_line(nsegs, nsyms, nrels)) == Ok::<(int, int, int), ParseError>(
            (nsegs as int, nsyms as int, nrels as int),
        ),
        is_line(header_line(nsegs, nsyms, nrels)),
        header_line(nsegs, nsyms, nrels).len() > 0,
{
    let words = seq![hex_i32(nsegs as int), hex_i32(nsyms as int), hex_i32(nrels as int)];
    lemma_hex_reads_back(nsegs as int);
    lemma_hex_reads_back(nsyms as int);
    lemma_hex_reads_back(nrels as int);
    assert(are_words(words, false));
    lemma_words_of_join(words, false);
    lemma_join_is_line(words, false);
}

/// Whether a segment can be printed so that it reads back: it is none of the
/// global offset table, its start and its length are not negative, and it
/// has a flag.
pub open spec fn printable_segment(seg: SegmentView) -> bool {
    &&& seg.segment_name != SegmentName::GOT
    &&& seg.segment_start >= 0
    &&& seg.segment_len >= 0
    &&& seg.segment_descr.len() > 0
}

/// The spelling of a segment name is a word, and reads back as the name
/// unless the name is that of the global offset table.
pub proof fn lemma_segment_name_reads_back(name: SegmentName)
    ensures
        is_word(segment_name_text(name), true),
        segment_name_text(name)[0] == '.',
        name != SegmentName::GOT ==> segment_name_of(segment_name_text(name)) == Some(name),
{
    reveal_strlit(".text");
    reveal_strlit(".got");
    reveal_strlit(".data");
    reveal_strlit(".bss");
    let t = segment_name_text(name);
    assert(".data"@[1] != ".text"@[1]);
    assert(".bss"@.len() != ".text"@.len());
    assert(".bss"@.len() != ".data"@.len());
}

/// The letters of flags are a word if there is a flag, and read back as the flags.
pub proof fn lemma_descr_reads_back(ds: Seq<SegmentDescr>)
    ensures
        descrs_of(descr_text(ds)) == Some(ds),
        ds.len() > 0 ==> is_word(descr_text(ds), true),
{
    let w = descr_text(ds);
    assert forall|j: int| 0 <= j < w.len() implies (#[trigger] descr_of(w[j])) == Some(ds[j]) by {
        assert(w[j] == descr_char(ds[j]));
    }
    assert(descrs_of(w)->0 =~= ds);
    assert forall|j: int| 0 <= j < w.len() implies !is_blank(#[trigger] w[j], true) by {
        assert(w[j] == descr_char(ds[j]));
    }
}

/// The line of a segment reads back as the segment.
pub proof fn lemma_segment_reads_back(seg: SegmentView)
    requires
        printable_segment(seg),
    ensures
        segment_of(segment_line(seg)) == Ok::<SegmentView, ParseError>(seg),
        is_line(segment_line(seg)),
        segment_line(seg).len() > 0,
{
    let words = seq![
        segment_name_text(seg.segment_name),
        hex_i32(seg.segment_start as int),
        hex_i32(seg.segment_len as int),
        descr_text(seg.segment_descr),
    ];
    lemma_segment_name_reads_back(seg.segment_name);
    lemma_hex_reads_back(seg.segment_start as int);
    lemma_hex_reads_back(seg.segment_len as int);
    lemma_descr_reads_back(seg.segment_descr);
    assert(are_words(words, true));
    lemma_words_of_join(words, true);
    lemma_join_is_line(words, true);
    let got = segment_of(segment_line(seg))->Ok_0;
    assert(got.segment_descr == seg.segment_descr);
}

/// Whether a symbol can be printed so that it reads back in a module of
/// `nsegs` segments: its name is a plain word, its value is not negative,
/// and its segment is one of the module or none.
pub open spec fn printable_symbol(sym: SymbolView, nsegs: int) -> bool {
    &&& !sym.st_name.wrapped
    &&& is_word(sym.st_name.text, true)
    &&& sym.st_value >= 0
    &&& 0 <= sym.st_seg <= nsegs
}

/// The letter of a symbol type is a word, reads back as the type, and is no flag.
pub proof fn lemma_symbol_type_reads_back(t: SymbolTableEntryType)
    ensures
        is_word(symbol_type_text(t), true),
        symbol_type_of(symbol_type_text(t)) == Some(t),
        symbol_type_text(t).len() == 1,
        descrs_of(symbol_type_text(t)) is None,
{
    reveal_strlit("D");
    reveal_strlit("U");
    assert("D"@[0] != "U"@[0]);
    let w = symbol_type_text(t);
    assert(descr_of(w[0]) is None);
}

/// The line of a symbol reads back as the symbol.
pub proof fn lemma_symbol_reads_back(sym: SymbolView, nsegs: int)
    requires
        printable_symbol(sym, nsegs),
    ensures
        symbol_of(nsegs, symbol_line(sym)) == Ok::<SymbolView, ParseError>(sym),
        is_line(symbol_line(sym)),
        symbol_line(sym).len() > 0,
        segment_of(symbol_line(sym)) is Err,
{
    let words = seq![
        printed_name(sym),
        hex_i32(sym.st_value as int),
        hex_i32(sym.st_seg as int),
        symbol_type_text(sym.st_type),
    ];
    lemma_hex_reads_back(sym.st_value as int);
    lemma_hex_reads_back(sym.st_seg as int);
    lemma_symbol_type_reads_back(sym.st_type);
    assert(are_words(words, true));
    lemma_words_of_join(words, true);
    lemma_join_is_line(words, true);
}

/// The spelling of a relocation kind is a word, reads back as the kind, and
/// is no letter of a symbol type.
pub proof fn lemma_rel_type_reads_back(t: RelType)
    ensures
        is_word(rel_type_text(t), true),
        rel_type_of(rel_type_text(t)) == Some(t),
        symbol_type_of(rel_type_text(t)) is None,
{
    reveal_strlit("A4");
    reveal_strlit("R4");
    reveal_strlit("AS4");
    reveal_strlit("RS4");
    reveal_strlit("U2");
    reveal_strlit("L2");
    reveal_strlit("GA4");
    reveal_strlit("GP4");
    reveal_strlit("GR4");
    reveal_strlit("ER4");
    reveal_strlit("D");
    reveal_strlit("U");
    let w = rel_type_text(t);
    assert("A4"@[0] == 'A' && "R4"@[0] == 'R' && "U2"@[0] == 'U' && "L2"@[0] == 'L');
    assert("AS4"@[0] == 'A' && "RS4"@[0] == 'R' && "GA4"@[1] == 'A' && "GP4"@[1] == 'P');
    assert("GR4"@[1] == 'R' && "ER4"@[0] == 'E' && "GA4"@[0] == 'G' && "GR4"@[0] == 'G');
    assert("GP4"@[0] == 'G');
    assert(w.len() >= 2);
}

/// The number of the first segment of a name is that of a segment of that name.
pub proof fn lemma_segment_number(segs: Seq<SegmentView>, name: SegmentName)
    ensures
        0 <= segment_number(segs, name) <= segs.len(),
        segment_number(segs, name) > 0 ==> segs[segment_number(segs, name) - 1].segment_name
            == name,
        has_segment(segs, name) ==> segment_number(segs, name) > 0,
    decreases segs.len(),
{
    if segs.len() > 0 {
        let front = segs.drop_last();
        lemma_segment_number(front, name);
        if segment_number(front, name) != 0 {
            assert(front[segment_number(front, name) - 1] == segs[segment_number(front, name) - 1]);
        }
        if has_segment(segs, name) {
            let i = choose|i: int| 0 <= i < segs.len() && (#[trigger] segs[i]).segment_name == name;
            if i < segs.len() - 1 {
                assert(front[i] == segs[i]);
                assert(has_segment(front, name));
            }
        }
    }
}

/// Whether a relocation can be printed so that it reads back in a module
/// with the segments `segs` and `nsyms` symbols: it fits the module, and its
/// location is not negative.
pub open spec fn printable_relocation(segs: Seq<SegmentView>, nsyms: int, r: Relocation) -> bool {
    &&& rel_fits(segs, nsyms, r)
    &&& r.rel_loc >= 0
    &&& segs.len() <= i32::MAX
    &&& nsyms <= i32::MAX
}

/// The line of a relocation reads back as the relocation.
pub proof fn lemma_relocation_reads_back(segs: Seq<SegmentView>, nsyms: int, r: Relocation)
    requires
        printable_relocation(segs, nsyms, r),
    ensures
        relocation_of(segs, nsyms, relocation_line(segs, r)) == Ok::<Relocation, ParseError>(r),
        is_line(relocation_line(segs, r)),
        relocation_line(segs, r).len() > 0,
        segment_of(relocation_line(segs, r)) is Err,
        forall|nsegs: int| (#[trigger] symbol_of(nsegs, relocation_line(segs, r))) is Err,
{
    let seg = segment_number(segs, r.rel_seg);
    let number = ref_number(r.rel_ref);
    let words = seq![
        hex_i32(r.rel_loc as int),
        hex_digits(seg as nat),
        hex_digits(number as nat),
        rel_type_text(r.rel_type),
    ];
    lemma_segment_number(segs, r.rel_seg);
    lemma_hex_reads_back(r.rel_loc as int);
    lemma_hex_reads_back(seg);
    lemma_hex_reads_back(number);
    lemma_rel_type_reads_back(r.rel_type);
    assert(are_words(words, true));
    lemma_words_of_join(words, true);
    lemma_join_is_line(words, true);
    assert(unsigned_hex(hex_digits(number as nat), usize::MAX as int) == Some(number));
    assert(rel_ref_of(r.rel_type, number, segs.len() as int, nsyms) == Ok::<RelRef, ParseError>(
        r.rel_ref,
    ));
    // the first word begins with a digit, no segment name does
    lemma_segment_name_reads_back(SegmentName::TEXT);
    lemma_segment_name_reads_back(SegmentName::DATA);
    lemma_segment_name_reads_back(SegmentName::BSS);
    let first = hex_i32(r.rel_loc as int);
    crate::text::lemma_hex_digits_are_digits(r.rel_loc as nat);
    assert(hex_digit(first[0]) is Some);
    lemma_digit_is_plain(first[0]);
    assert(segment_name_of(first) is None);
}

/// The line of the data of a segment reads back as the data. It is no line
/// of a segment, and none of a symbol.
pub proof fn lemma_data_reads_back(data: Seq<u8>)
    ensures
        segment_data_of(data.len() as int, data_line(data)) == Ok::<Seq<u8>, ParseError>(data),
        is_line(data_line(data)),
        data.len() > 0 ==> data_line(data).len() > 0,
        segment_of(data_line(data)) is Err,
        forall|nsegs: int| (#[trigger] symbol_of(nsegs, data_line(data))) is Err,
{
    let words = data.map_values(|b: u8| hex_byte(b));
    assert forall|i: int| 0 <= i < words.len() implies is_word(#[trigger] words[i], false)
        && is_word(words[i], true) && unsigned_hex(words[i], 255) == Some(data[i] as int)
        && words[i].len() == 2 by {
        lemma_hex_byte_reads_back(data[i]);
    }
    assert(are_words(words, false));
    assert(are_words(words, true));
    lemma_words_of_join(words, false);
    lemma_words_of_join(words, true);
    lemma_join_is_line(words, false);
    assert(bytes_of(words) is Some);
    assert(bytes_of(words)->0 =~= data);
    if words.len() == 4 {
        // the first word is two digits, the last is longer than a letter
        lemma_segment_name_reads_back(SegmentName::TEXT);
        lemma_segment_name_reads_back(SegmentName::DATA);
        lemma_segment_name_reads_back(SegmentName::BSS);
        lemma_hex_byte_reads_back(data[0]);
        assert(hex_digit(words[0][0]) is Some) by {
            let b = data[0];
            assert(words[0][0] == crate::text::digit_char((b / 16) as int));
        }
        lemma_digit_is_plain(words[0][0]);
        assert(segment_name_of(words[0]) is None);
        lemma_symbol_type_reads_back(SymbolTableEntryType::D);
        lemma_symbol_type_reads_back(SymbolTableEntryType::U);
        assert(symbol_type_of(words[3]) is None);
    }
}


/// A section whose lines read well reads as what the lines say.
pub proof fn lemma_section_reads<T>(
    lines: Seq<Seq<char>>,
    n: int,
    read: spec_fn(Seq<char>) -> Result<T, ParseError>,
    missing: ParseError,
    items: Seq<T>,
)
    requires
        0 <= n <= lines.len(),
        n <= items.len(),
        forall|i: int| 0 <= i < n ==> read(#[trigger] lines[i]) == Ok::<T, ParseError>(items[i]),
    ensures
        section_of(lines, n, read, missing) == Ok::<Seq<T>, ParseError>(items.take(n)),
    decreases n,
{
    if n > 0 {
        lemma_section_reads(lines, n - 1, read, missing, items);
        assert(read(lines[n - 1]) == Ok::<T, ParseError>(items[n - 1]));
        assert(items.take(n - 1).push(items[n - 1]) =~= items.take(n));
    } else {
        assert(items.take(0) =~= Seq::<T>::empty());
    }
}

/// A data section whose lines read well reads as what the lines say.
pub proof fn lemma_data_section_reads(
    lines: Seq<Seq<char>>,
    segs: Seq<SegmentView>,
    n: int,
    data: Seq<Seq<u8>>,
)
    requires
        0 <= n <= lines.len(),
        n <= data.len(),
        n <= segs.len(),
        forall|i: int|
            0 <= i < n ==> segment_data_of(segs[i].segment_len as int, #[trigger] lines[i])
                == Ok::<Seq<u8>, ParseError>(data[i]),
    ensures
        data_section_of(lines, segs, n) == Ok::<Seq<Seq<u8>>, ParseError>(data.take(n)),
    decreases n,
{
    if n > 0 {
        lemma_data_section_reads(lines, segs, n - 1, data);
        assert(segment_data_of(segs[n - 1].segment_len as int, lines[n - 1]) == Ok::<
            Seq<u8>,
            ParseError,
        >(data[n - 1]));
        assert(data.take(n - 1).push(data[n - 1]) =~= data.take(n));
    } else {
        assert(data.take(0) =~= Seq::<Seq<u8>>::empty());
    }
}

/// Whether a module can be printed so that it reads back. It is well
/// formed; its segments and symbols are printable; the locations of its
/// relocations are not negative; the data of its last segment is not empty,
/// as a text does not show an empty line at its end; and the data of its
/// first segment does not look like a relocation.
pub open spec fn printable(o: ObjectView) -> bool {
    &&& o.wf()
    &&& forall|i: int| 0 <= i < o.segments.len() ==> printable_segment(#[trigger] o.segments[i])
    &&& forall|i: int|
        0 <= i < o.symbol_table.len() ==> printable_symbol(
            #[trigger] o.symbol_table[i],
            o.nsegs as int,
        )
    &&& forall|i: int| 0 <= i < o.relocations.len() ==> (#[trigger] o.relocations[i]).rel_loc >= 0
    &&& o.object_data.len() > 0 ==> o.object_data.last().len() > 0
    &&& o.object_data.len() > 0 ==> relocation_of(
        o.segments,
        o.symbol_table.len() as int,
        data_line(o.object_data[0]),
    ) is Err
}

/// The lines of the body of a module: what follows the header.
pub open spec fn body_lines(o: ObjectView) -> Seq<Seq<char>> {
    o.segments.map_values(|s: SegmentView| segment_line(s)) + o.symbol_table.map_values(
        |s: SymbolView| symbol_line(s),
    ) + o.relocations.map_values(|r: Relocation| relocation_line(o.segments, r))
        + o.object_data.map_values(|d: Seq<u8>| data_line(d))
}

/// The line at `i` of the body of a module.
pub proof fn lemma_body_line(o: ObjectView, i: int)
    requires
        0 <= i < body_lines(o).len(),
    ensures
        body_lines(o).len() == o.segments.len() + o.symbol_table.len() + o.relocations.len()
            + o.object_data.len(),
        body_lines(o)[i] == if i < o.segments.len() {
            segment_line(o.segments[i])
        } else if i < o.segments.len() + o.symbol_table.len() {
            symbol_line(o.symbol_table[i - o.segments.len()])
        } else if i < o.segments.len() + o.symbol_table.len() + o.relocations.len() {
            relocation_line(o.segments, o.relocations[i - o.segments.len() - o.symbol_table.len()])
        } else {
            data_line(
                o.object_data[i - o.segments.len() - o.symbol_table.len() - o.relocations.len()],
            )
        },
{
}

/// What the line at `i` of the body of a printable module says to each of
/// the readers: it is a line of the kind of its section and of no kind that
/// is read before.
pub open spec fn line_reads(o: ObjectView, i: int) -> bool {
    let body = body_lines(o);
    let a = o.segments.len() as int;
    let b = o.symbol_table.len() as int;
    let c = o.relocations.len() as int;
    &&& is_line(body[i])
    &&& i < a ==> segment_of(body[i]) == Ok::<SegmentView, ParseError>(o.segments[i])
    &&& i >= a ==> segment_of(body[i]) is Err
    &&& a <= i < a + b ==> symbol_of(a, body[i]) == Ok::<SymbolView, ParseError>(
        o.symbol_table[i - a],
    )
    &&& i >= a + b ==> symbol_of(a, body[i]) is Err
    &&& a + b <= i < a + b + c ==> relocation_of(o.segments, b, body[i]) == Ok::<
        Relocation,
        ParseError,
    >(o.relocations[i - a - b])
    &&& a + b + c <= i ==> segment_data_of(o.segments[i - a - b - c].segment_len as int, body[i])
        == Ok::<Seq<u8>, ParseError>(o.object_data[i - a - b - c])
    &&& i == a + b + c ==> relocation_of(o.segments, b, body[i]) is Err
    &&& i < a + b + c ==> body[i].len() > 0
    &&& i == body.len() - 1 ==> body[i].len() > 0
}

/// Each line of the body of a printable module reads as it should.
pub proof fn lemma_line_reads(o: ObjectView, i: int)
    requires
        printable(o),
        0 <= i < body_lines(o).len(),
    ensures
        line_reads(o, i),
{
    let body = body_lines(o);
    let a = o.segments.len() as int;
    let b = o.symbol_table.len() as int;
    let c = o.relocations.len() as int;
    lemma_body_line(o, i);
    if i < a {
        assert(printable_segment(o.segments[i]));
        lemma_segment_reads_back(o.segments[i]);
    } else if i < a + b {
        assert(printable_symbol(o.symbol_table[i - a], a));
        lemma_symbol_reads_back(o.symbol_table[i - a], a);
    } else if i < a + b + c {
        let r = o.relocations[i - a - b];
        assert(o.fits(r));
        assert(r.rel_loc >= 0);
        lemma_relocation_reads_back(o.segments, b, r);
        assert(symbol_of(a, relocation_line(o.segments, r)) is Err);
    } else {
        let k = i - a - b - c;
        let data = o.object_data[k];
        assert(data.len() == o.segments[k].segment_len);
        lemma_data_reads_back(data);
        assert(symbol_of(a, data_line(data)) is Err);
        if i == body.len() - 1 {
            assert(data == o.object_data.last());
        }
    }
}

/// The sections of the body of a printable module read back as the parts of the module.
pub proof fn lemma_sections_read_back(o: ObjectView)
    requires
        printable(o),
    ensures
        body_lines(o).len() == 2 * o.nsegs + o.nsyms + o.nrels,
        section_of(
            body_lines(o),
            o.nsegs as int,
            seg_reader(),
            ParseError::InvalidNumOfSegments,
        ) == Ok::<Seq<SegmentView>, ParseError>(o.segments),
        !one_more(body_lines(o), o.nsegs as int, seg_reader()),
        section_of(
            body_lines(o).skip(o.nsegs as int),
            o.nsyms as int,
            sym_reader(o.nsegs as int),
            ParseError::InvalidNumOfSTEs,
        ) == Ok::<Seq<SymbolView>, ParseError>(o.symbol_table),
        !one_more(body_lines(o), o.nsegs + o.nsyms, sym_reader(o.nsegs as int)),
        section_of(
            body_lines(o).skip(o.nsegs + o.nsyms),
            o.nrels as int,
            rel_reader(o.segments, o.nsyms as int),
            ParseError::InvalidNumOfRelocations,
        ) == Ok::<Seq<Relocation>, ParseError>(o.relocations),
        !one_more(
            body_lines(o),
            o.nsegs + o.nsyms + o.nrels,
            rel_reader(o.segments, o.nsyms as int),
        ),
        data_section_of(
            body_lines(o).skip(o.nsegs + o.nsyms + o.nrels),
            o.segments,
            o.nsegs as int,
        ) == Ok::<Seq<Seq<u8>>, ParseError>(o.object_data),
{
    let body = body_lines(o);
    let a = o.segments.len() as int;
    let b = o.symbol_table.len() as int;
    let c = o.relocations.len() as int;
    let d = o.object_data.len() as int;
    assert(body.len() == a + b + c + d);
    assert forall|i: int| 0 <= i < body.len() implies line_reads(o, i) by {
        lemma_line_reads(o, i);
    }
    // the segments
    assert forall|i: int| 0 <= i < a implies seg_reader()(#[trigger] body.take(a)[i]) == Ok::<
        SegmentView,
        ParseError,
    >(o.segments[i]) by {
        assert(line_reads(o, i));
        assert(body.take(a)[i] == body[i]);
    }
    lemma_section_reads(
        body.take(a),
        a,
        seg_reader(),
        ParseError::InvalidNumOfSegments,
        o.segments,
    );
    lemma_section_prefix(body, a, a, seg_reader(), ParseError::InvalidNumOfSegments);
    assert(o.segments.take(a) =~= o.segments);
    if a < body.len() {
        assert(line_reads(o, a));
    }
    // the symbols
    let syms_part = body.skip(a);
    assert forall|i: int| 0 <= i < b implies sym_reader(a)(#[trigger] syms_part.take(b)[i])
        == Ok::<SymbolView, ParseError>(o.symbol_table[i]) by {
        assert(line_reads(o, a + i));
        assert(syms_part.take(b)[i] == body[a + i]);
    }
    lemma_section_reads(
        syms_part.take(b),
        b,
        sym_reader(a),
        ParseError::InvalidNumOfSTEs,
        o.symbol_table,
    );
    lemma_section_prefix(syms_part, b, b, sym_reader(a), ParseError::InvalidNumOfSTEs);
    assert(o.symbol_table.take(b) =~= o.symbol_table);
    if a + b < body.len() {
        assert(line_reads(o, a + b));
    }
    // the relocations
    let rels_part = body.skip(a + b);
    assert forall|i: int| 0 <= i < c implies rel_reader(o.segments, b)(
        #[trigger] rels_part.take(c)[i],
    ) == Ok::<Relocation, ParseError>(o.relocations[i]) by {
        assert(line_reads(o, a + b + i));
        assert(rels_part.take(c)[i] == body[a + b + i]);
    }
    lemma_section_reads(
        rels_part.take(c),
        c,
        rel_reader(o.segments, b),
        ParseError::InvalidNumOfRelocations,
        o.relocations,
    );
    lemma_section_prefix(
        rels_part,
        c,
        c,
        rel_reader(o.segments, b),
        ParseError::InvalidNumOfRelocations,
    );
    assert(o.relocations.take(c) =~= o.relocations);
    if a + b + c < body.len() {
        assert(line_reads(o, a + b + c));
    }
    // the data
    let data_part = body.skip(a + b + c);
    assert forall|i: int| 0 <= i < d implies segment_data_of(
        o.segments[i].segment_len as int,
        #[trigger] data_part[i],
    ) == Ok::<Seq<u8>, ParseError>(o.object_data[i]) by {
        assert(line_reads(o, a + b + c + i));
        assert(data_part[i] == body[a + b + c + i]);
    }
    lemma_data_section_reads(data_part, o.segments, d, o.object_data);
    assert(o.object_data.take(d) =~= o.object_data);
}

/// A section reads the first `n` lines only: lines behind them do not matter.
pub proof fn lemma_section_prefix<T>(
    lines: Seq<Seq<char>>,
    k: int,
    n: int,
    read: spec_fn(Seq<char>) -> Result<T, ParseError>,
    missing: ParseError,
)
    requires
        0 <= n <= k <= lines.len(),
    ensures
        section_of(lines, n, read, missing) == section_of(lines.take(k), n, read, missing),
    decreases n,
{
    if n > 0 {
        lemma_section_prefix(lines, k, n - 1, read, missing);
        assert(lines.take(k)[n - 1] == lines[n - 1]);
    }
}

/// The body of a printable module reads back as the module.
pub proof fn lemma_body_reads_back(o: ObjectView)
    requires
        printable(o),
    ensures
        body_of(body_lines(o), o.nsegs as int, o.nsyms as int, o.nrels as int) == Ok::<
            ObjectView,
            ParseError,
        >(o),
        are_lines(body_lines(o)),
        body_lines(o).len() > 0 ==> body_lines(o).last().len() > 0,
{
    let body = body_lines(o);
    lemma_sections_read_back(o);
    assert forall|i: int| 0 <= i < body.len() implies is_line(#[trigger] body[i]) by {
        lemma_line_reads(o, i);
    }
    if body.len() > 0 {
        lemma_line_reads(o, body.len() - 1);
    }
}

/// The lines of the text of a printable module are the magic line, the
/// header line and the lines of the body.
pub proof fn lemma_text_lines(o: ObjectView)
    requires
        printable(o),
    ensures
        crate::text::lines_of(object_text(o, true)) == seq![
            MAGIC_NUMBER@,
            header_line(o.nsegs, o.nsyms, o.nrels),
        ] + body_lines(o),
{
    let body = body_lines(o);
    let header = header_line(o.nsegs, o.nsyms, o.nrels);
    let lines = seq![MAGIC_NUMBER@] + object_lines(o);
    reveal_strlit("LINK");
    lemma_header_reads_back(o.nsegs, o.nsyms, o.nrels);
    lemma_body_reads_back(o);
    assert(lines =~= seq![MAGIC_NUMBER@, header] + body);
    assert(is_line(MAGIC_NUMBER@));
    assert forall|i: int| 0 <= i < lines.len() implies is_line(#[trigger] lines[i]) by {
        if i >= 2 {
            assert(lines[i] == body[i - 2]);
        }
    }
    if body.len() > 0 {
        assert(lines.last() == body.last());
    } else {
        assert(lines.last() == header);
    }
    lemma_lines_of_join(lines);
}

/// Printing and reading are inverse to each other on printable modules:
/// the text of such a module, with its magic line, reads back as the module.
pub proof fn lemma_module_reads_back(o: ObjectView)
    requires
        printable(o),
    ensures
        object_of(object_text(o, true)) == Ok::<ObjectView, ParseError>(o),
{
    let body = body_lines(o);
    let header = header_line(o.nsegs, o.nsyms, o.nrels);
    let lines = seq![MAGIC_NUMBER@, header] + body;
    lemma_text_lines(o);
    lemma_header_reads_back(o.nsegs, o.nsyms, o.nrels);
    lemma_body_reads_back(o);
    assert(lines[0] == MAGIC_NUMBER@);
    assert(lines[1] == header);
    assert(lines.skip(2) =~= body);
}

} // verus!
