use linkerloader::types::errors::ParseError;
use linkerloader::types::object::{parse_object_file, ObjectIn, MAGIC_NUMBER};
use linkerloader::types::relocation::{RelRef, RelType, Relocation};
use linkerloader::types::segment::{SegmentDescr, SegmentName};
use linkerloader::types::symbol_table::{SymbolTableEntry, SymbolTableEntryType};

fn data(len: usize) -> String {
    let mut bytes = vec![];
    for i in 0..len {
        bytes.push(format!("{:02X}", (i * 7 + 3) % 256));
    }
    bytes.join(" ")
}

fn parse_object(text: &str) -> Result<ObjectIn, ParseError> {
    parse_object_file(String::from(text))
}

fn test_failure(e0: ParseError, text: &str) {
    let res = parse_object(text);
    if res.is_ok() {
        println!("{:?}", res);
        assert!(res.is_err());
    }
    match res {
        Ok(_) => {
            panic!("unexpected");
        }
        Err(e) => assert_eq!(e0, e),
    }
}

fn simple() -> String {
    format!(
        "LINK\n3 2 1\n.text 0 4 RP\n.data 4 2 RWP\n.bss 6 0 RW\nfoo 1 1 D\nbar 0 0 U\n0 1 2 RS4\n{}\n{}\n\n",
        data(4),
        data(2)
    )
}

#[test]
fn test_magic_number_simple() {
    let obj_file = simple();
    let magic_number = obj_file.lines().next().unwrap();
    assert_eq!(MAGIC_NUMBER, magic_number);
}

#[test]
fn magic_number_not_present() {
    test_failure(ParseError::MissingMagicNumber, "");
}

#[test]
fn invalid_magic_number() {
    test_failure(ParseError::InvalidMagicNumber, "NOPE\n0 0 0\n");
}

#[test]
fn missing_nsegs_nsums_nrels() {
    test_failure(ParseError::MissingNSegsNSumsNRels, "LINK\n");
}

#[test]
fn invalid_nsegs_nsums_nrels() {
    test_failure(ParseError::InvalidNSegsNSumsNRels, "LINK\n1 2\n");
}

#[test]
fn invalid_nsegs() {
    test_failure(ParseError::InvalidNSegsValue, "LINK\nx 0 0\n");
}

#[test]
fn invalid_nsyms() {
    test_failure(ParseError::InvalidNSymsValue, "LINK\n0 y 0\n");
}

#[test]
fn invalid_nrels() {
    test_failure(ParseError::InvalidNRelsValue, "LINK\n0 0 z\n");
}

#[test]
fn negative_counts_are_invalid() {
    test_failure(ParseError::InvalidNSegsValue, "LINK\n-1 0 0\n");
    test_failure(ParseError::InvalidNSymsValue, "LINK\n0 -1 0\n");
    test_failure(ParseError::InvalidNRelsValue, "LINK\n0 0 -1\n");
}

#[test]
fn invalid_segment_name() {
    test_failure(ParseError::InvalidSegmentName, "LINK\n1 0 0\n.txt 0 0 RP\n\n");
    test_failure(ParseError::InvalidSegmentName, "LINK\n1 0 0\n.got 0 0 RP\n\n");
}

#[test]
fn invalid_segment_start() {
    test_failure(ParseError::InvalidSegmentStart, "LINK\n1 0 0\n.text g 0 RP\n\n");
}

#[test]
fn invalid_segment_len() {
    test_failure(ParseError::InvalidSegmentLen, "LINK\n1 0 0\n.text 0 g RP\n\n");
}

#[test]
fn invalid_segment_descr() {
    test_failure(ParseError::InvalidSegmentDescr, "LINK\n1 0 0\n.text 0 0 RX\n\n");
}

#[test]
fn invalid_segment() {
    test_failure(ParseError::InvalidSegment, "LINK\n1 0 0\n.text 0 0\n\n");
}

#[test]
fn invalid_num_of_segs_1() {
    // fewer segment lines than announced: the file ends
    test_failure(ParseError::InvalidNumOfSegments, "LINK\n2 0 0\n.text 0 0 RP\n");
}

#[test]
fn invalid_num_of_segs_2() {
    // more segment lines than announced
    test_failure(
        ParseError::InvalidNumOfSegments,
        "LINK\n1 0 0\n.text 0 0 RP\n.data 0 0 RWP\n\n",
    );
}

#[test]
fn invalid_num_of_segs_3() {
    test_failure(ParseError::InvalidNumOfSegments, "LINK\n3 0 0\n.text 0 0 RP\n.data 0 0 RWP\n");
}

#[test]
fn invalid_num_of_segs_4() {
    test_failure(
        ParseError::InvalidNumOfSegments,
        "LINK\n0 0 0\n.text 0 0 RP\n",
    );
}

#[test]
fn segments() {
    let text = format!(
        "LINK\n3 0 0\n.text 0 32 RP\n.data 32 A RWP\n.bss 3C 46 RW\n{}\n{}\n{}\n",
        data(0x32),
        data(0xA),
        data(0x46)
    );
    let res = parse_object(&text);
    println!("{:?}", res);
    assert!(res.is_ok());
    match res {
        Err(_) => panic!("unexpected"),
        Ok(obj) => {
            assert_eq!(obj.nsegs, obj.segments.len() as i32);
            let seg1 = &obj.segments[0];
            assert_eq!(SegmentName::TEXT, seg1.segment_name);
            assert_eq!(0x0, seg1.segment_start);
            assert_eq!(0x32, seg1.segment_len);
            assert_eq!(SegmentDescr::R, seg1.segment_descr[0]);
            assert_eq!(SegmentDescr::P, seg1.segment_descr[1]);
            assert_eq!(0x32, obj.object_data[0].deref().len());
            assert_eq!(0x46, obj.object_data[2].deref().len());
        }
    }
}

#[test]
fn invalid_symbol_table_entry() {
    test_failure(
        ParseError::InvalidSymbolTableEntry,
        "LINK\n1 1 0\n.text 0 0 RP\nfoo 0 1\n\n",
    );
}

#[test]
fn invalid_symbol_table_entry_seg() {
    test_failure(ParseError::InvalidSTESegment, "LINK\n1 1 0\n.text 0 0 RP\nfoo 0 s D\n\n");
}

#[test]
fn invalid_symbol_table_type() {
    test_failure(ParseError::InvalidSTEType, "LINK\n1 1 0\n.text 0 0 RP\nfoo 0 1 X\n\n");
}

#[test]
fn invalid_symbol_table_value() {
    test_failure(ParseError::InvalidSTEValue, "LINK\n1 1 0\n.text 0 0 RP\nfoo v 1 D\n\n");
}

#[test]
fn invalid_symbol_table_segment_out_of_range() {
    test_failure(
        ParseError::STESegmentRefOutOfRange,
        "LINK\n1 1 0\n.text 0 0 RP\nfoo 0 2 D\n\n",
    );
}

#[test]
fn symbol_table_segment_below_zero() {
    test_failure(
        ParseError::STESegmentRefOutOfRange,
        "LINK\n1 1 0\n.text 0 0 RP\nfoo 0 -1 D\n\n",
    );
    test_failure(
        ParseError::STESegmentRefOutOfRange,
        "LINK\n1 1 0\n.text 0 0 RP\nfoo 0 -80000000 U\n\n",
    );
    // the segment of a symbol may be none at all, or the last one
    let none = parse_object_file(String::from("LINK\n1 1 0\n.text 0 0 RP\nfoo 0 0 U\n\n")).unwrap();
    assert_eq!(0, none.symbol_table[0].st_seg);
    let last = parse_object_file(String::from("LINK\n1 1 0\n.text 0 0 RP\nfoo 0 1 D\n\n")).unwrap();
    assert_eq!(1, last.symbol_table[0].st_seg);
    let mut bad = last.duplicate();
    assert!(bad.check());
    bad.symbol_table[0].st_seg = -1;
    assert!(!bad.check());
}

#[test]
fn invalid_num_of_symbols() {
    test_failure(ParseError::InvalidNumOfSTEs, "LINK\n1 2 0\n.text 0 0 RP\nfoo 0 1 D\n");
    test_failure(
        ParseError::InvalidNumOfSTEs,
        "LINK\n1 1 0\n.text 0 0 RP\nfoo 0 1 D\nbar 0 0 U\n\n",
    );
}

#[test]
fn symbol_table() {
    let text = format!(
        "LINK\n1 2 0\n.text 0 40 RP\nfoo 1A 1 D\nbas 2B 0 U\n{}\n",
        data(0x40)
    );
    let res = parse_object(&text);
    println!("{:?}", res);
    assert!(res.is_ok());
    match res {
        Err(_) => panic!("unexpected"),
        Ok(obj) => {
            assert_eq!(obj.nsyms, obj.symbol_table.len() as i32);
            let ste1: &SymbolTableEntry = &obj.symbol_table[0];
            assert_eq!("foo", ste1.st_name.deref());
            assert_eq!(0x1a, ste1.st_value);
            assert_eq!(1, ste1.st_seg); // 2500 decimal
            assert_eq!(SymbolTableEntryType::D, ste1.st_type);
            let ste2: &SymbolTableEntry = &obj.symbol_table[1];
            assert_eq!("bas", ste2.st_name.deref());
            assert_eq!(0x2b, ste2.st_value);
            assert_eq!(0, ste2.st_seg); // 2500 decimal
            assert_eq!(SymbolTableEntryType::U, ste2.st_type);
            assert_eq!(0x40, obj.object_data[0].deref().len());
        }
    }
}

#[test]
fn invalid_relocation_entry() {
    test_failure(
        ParseError::InvalidRelocationEntry,
        "LINK\n1 0 1\n.text 0 0 RP\n0 1 1\n\n",
    );
}

#[test]
fn invalid_relocation_addr() {
    test_failure(ParseError::InvalidRelRef, "LINK\n1 0 1\n.text 0 0 RP\nzz 1 1 A4\n\n");
    test_failure(ParseError::InvalidRelRef, "LINK\n1 0 1\n.text 0 0 RP\n0 1 zz A4\n\n");
}

#[test]
fn rel_segment_out_of_range() {
    test_failure(
        ParseError::RelSegmentOutOfRange,
        "LINK\n1 0 1\n.text 0 0 RP\n0 2 1 A4\n\n",
    );
    test_failure(
        ParseError::RelSegmentOutOfRange,
        "LINK\n1 0 1\n.text 0 0 RP\n0 0 1 A4\n\n",
    );
    test_failure(
        ParseError::RelSegmentOutOfRange,
        "LINK\n1 0 1\n.text 0 0 RP\n0 1 2 A4\n\n",
    );
    test_failure(
        ParseError::RelSegmentOutOfRange,
        "LINK\n1 0 1\n.text 0 0 RP\n0 1 0 R4\n\n",
    );
}

#[test]
fn rel_symbol_out_of_range() {
    test_failure(
        ParseError::RelSymbolOutOfRange,
        "LINK\n1 1 1\n.text 0 0 RP\nfoo 0 1 D\n0 1 2 AS4\n\n",
    );
    test_failure(
        ParseError::RelSymbolOutOfRange,
        "LINK\n1 1 1\n.text 0 0 RP\nfoo 0 1 D\n0 1 0 U2\n\n",
    );
}

#[test]
fn invalid_reloc_type() {
    test_failure(ParseError::InvalidRelType, "LINK\n1 0 1\n.text 0 0 RP\n0 1 1 A5\n\n");
}

#[test]
fn invalid_reloc_segment() {
    test_failure(ParseError::InvalidRelSegment, "LINK\n1 0 1\n.text 0 0 RP\n0 s 1 A4\n\n");
}

#[test]
fn invalid_num_of_relocations_1() {
    test_failure(
        ParseError::InvalidNumOfRelocations,
        "LINK\n1 0 2\n.text 0 0 RP\n0 1 1 A4\n",
    );
}

#[test]
fn invalid_num_of_relocations_2() {
    test_failure(
        ParseError::InvalidNumOfRelocations,
        "LINK\n1 0 1\n.text 0 0 RP\n0 1 1 A4\n0 1 1 R4\n\n",
    );
}

#[test]
fn relocations() {
    let text = format!(
        "LINK\n1 2 2\n.text 0 33 RP\nfoo 0 1 D\nbar 0 0 U\n14 1 1 RS4\n1A 1 2 RS4\n{}\n",
        data(0x33)
    );
    let res = parse_object(&text);
    println!("{:?}", res);
    assert!(res.is_ok());
    match res {
        Err(_) => panic!("unexpected"),
        Ok(obj) => {
            assert_eq!(obj.nrels, obj.relocations.len() as i32);
            let rel1: &Relocation = &obj.relocations[0];
            assert_eq!(0x14, rel1.rel_loc);
            assert_eq!(SegmentName::TEXT, rel1.rel_seg);
            assert_eq!(RelRef::SymbolRef(0), rel1.rel_ref);
            assert_eq!(RelType::RS4, rel1.rel_type);
            let rel2: &Relocation = &obj.relocations[1];
            assert_eq!(0x1a, rel2.rel_loc);
            assert_eq!(SegmentName::TEXT, rel2.rel_seg);
            assert_eq!(RelRef::SymbolRef(1), rel2.rel_ref);
            assert_eq!(RelType::RS4, rel2.rel_type);
            assert_eq!(0x33, obj.object_data[0].deref().len());
        }
    }
}

#[test]
fn relocation_kinds_and_targets() {
    let text = format!(
        "LINK\n2 1 4\n.text 0 8 RP\n.data 8 8 RWP\nfoo 0 1 D\n0 1 2 A4\n4 2 0 GA4\n0 2 1 GP4\n4 2 2 GR4\n{}\n{}\n",
        data(8),
        data(8)
    );
    let obj = parse_object(&text).unwrap();
    assert_eq!(RelRef::SegmentRef(1), obj.relocations[0].rel_ref);
    assert_eq!(RelType::A4, obj.relocations[0].rel_type);
    assert_eq!(RelRef::NoRef, obj.relocations[1].rel_ref);
    assert_eq!(SegmentName::DATA, obj.relocations[1].rel_seg);
    assert_eq!(RelRef::SymbolRef(0), obj.relocations[2].rel_ref);
    assert_eq!(RelRef::SegmentRef(1), obj.relocations[3].rel_ref);
    assert!(obj.check());
}

#[test]
fn invalid_object_data() {
    // the data line of the second segment is missing
    test_failure(
        ParseError::InvalidObjectData,
        "LINK\n2 0 0\n.text 0 1 RP\n.data 1 1 RWP\n00\n",
    );
    // a byte that is no hexadecimal number
    test_failure(ParseError::InvalidObjectData, "LINK\n1 0 0\n.text 0 1 RP\nGG\n");
    test_failure(ParseError::InvalidObjectData, "LINK\n1 0 0\n.text 0 1 RP\n100\n");
}

#[test]
fn segment_data_len_mismatch() {
    test_failure(
        ParseError::SegmentDataLengthMismatch,
        "LINK\n1 0 0\n.text 0 2 RP\n00\n",
    );
    test_failure(
        ParseError::SegmentDataLengthMismatch,
        "LINK\n1 0 0\n.text 0 -1 RP\n00\n",
    );
}

#[test]
fn segment_data_out_of_bounds() {
    test_failure(
        ParseError::SegmentDataOutOfBounds,
        "LINK\n1 0 0\n.text 0 1 RP\n00\n01\n",
    );
}

#[test]
fn parsed_module_counts_agree() {
    let obj = parse_object(&simple()).unwrap();
    assert_eq!(obj.nsegs as usize, obj.segments.len());
    assert_eq!(obj.nsyms as usize, obj.symbol_table.len());
    assert_eq!(obj.nrels as usize, obj.relocations.len());
    assert_eq!(obj.nsegs as usize, obj.object_data.len());
    for i in 0..obj.segments.len() {
        assert_eq!(obj.segments[i].segment_len as usize, obj.object_data[i].len());
    }
    assert!(obj.check());
}

#[test]
fn carriage_returns_end_lines_too() {
    let obj = parse_object("LINK\r\n1 0 0\r\n.text 0 2 RP\r\n0A FF\r\n").unwrap();
    assert_eq!(vec![0x0A, 0xFF], *obj.object_data[0].deref());
}

#[test]
fn printed_module_reads_back() {
    let text = format!(
        "LINK\n2 2 3\n.text 0 8 RP\n.data 8 4 RWP\nfoo 4 1 D\nbar 0 0 U\n0 1 2 A4\n4 1 2 RS4\n0 2 0 ER4\n{}\n{}",
        data(8),
        data(4)
    );
    let obj = parse_object(&text).unwrap();
    let printed = obj.ppr(true);
    assert_eq!(text, printed);
    let again = parse_object(&printed).unwrap();
    assert_eq!(obj.ppr(false), again.ppr(false));
    assert_eq!(
        "2 2 3\n.text 0 8 RP\n.data 8 4 RWP\nfoo 4 1 D\nbar 0 0 U\n0 1 2 A4\n4 1 2 RS4\n0 2 0 ER4\n03 0A 11 18 1F 26 2D 34\n03 0A 11 18",
        obj.ppr(false)
    );
}
