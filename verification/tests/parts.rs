use linkerloader::common::{
    Defn, DefnProvenance, LIB_NAME_FILE, MAGIC_NUMBER_LIB, MAP_FILE_NAME, STUB_MAGIC_NUMBER,
};
use linkerloader::linker::wrap::{among, symbol_clashes, wrap_one};
use linkerloader::logger::{LogLevel, Logger, LoggerType};
use linkerloader::table::{bytes_before, str_before, str_same, Key, Table};
use linkerloader::text::{
    blank, chars_of, join_with, parse_signed_hex, parse_unsigned_hex, push_dec, push_hex,
    push_hex_byte, push_hex_i32, slice_of, spells, split_fields, split_lines, split_words,
    string_of, trimmed,
};
use linkerloader::types::errors::{LinkError, ParseError};
use linkerloader::types::object::parse_object_file;
use linkerloader::types::relocation::{parse_relocation, RelRef, RelType};
use linkerloader::types::segment::{
    parse_segment, parse_segment_data, Segment, SegmentData, SegmentDescr, SegmentName,
};
use linkerloader::types::segment_map::SegMap;
use linkerloader::types::symbol_table::{
    parse_symbol_table_entry, symbol, wrapped_symbol, SymbolName, SymbolTableEntryType,
};
use linkerloader::utils::{
    align_wide, count_new_lines, find_seg_start, mk_addr_4, mk_i_4, range_pairs, x_to_i2, x_to_i4,
};

fn chars(s: &str) -> Vec<char> {
    s.chars().collect()
}

fn strings(v: Vec<Vec<char>>) -> Vec<String> {
    v.into_iter().map(|w| w.into_iter().collect()).collect()
}

#[test]
fn alignment() {
    for x in [-9i32, -8, -1, 0, 1, 5, 7, 8, 0x15B] {
        for n in [1i32, 2, 3, 4, 8, 0x10] {
            let a = find_seg_start(x, n);
            assert!(a >= x);
            assert_eq!(0, a.rem_euclid(n));
            assert!(a - x < n);
        }
        assert_eq!(x, find_seg_start(x, 0));
    }
    assert_eq!(-4, find_seg_start(-5, 4));
    assert_eq!(0x1_0000_0000, align_wide(0xFFFF_FFFF, 0x10));
}

#[test]
fn codec_values() {
    assert_eq!(Some(vec![0x12, 0x34, 0x56, 0x78]), mk_addr_4(0x12345678));
    assert_eq!(Some(vec![0xFF, 0xFF, 0xFF, 0xFF]), mk_addr_4(0xFFFF_FFFF));
    assert_eq!(vec![0xFF, 0xFF, 0xFF, 0xDC], mk_i_4(-36));
    assert_eq!(vec![0x80, 0, 0, 0], mk_i_4(i32::MIN));
    assert_eq!(vec![0x7F, 0xFF, 0xFF, 0xFF], mk_i_4(i32::MAX));
    assert_eq!(Some(0x12345678), x_to_i4(&[0x12, 0x34, 0x56, 0x78]));
    assert_eq!(Some(i32::MIN), x_to_i4(&[0x80, 0, 0, 0]));
    assert_eq!(Some(0x011D), x_to_i2(&[0x01, 0x1D]));
    assert_eq!(Some(-1), x_to_i2(&[0xFF, 0xFF]));
    assert_eq!(Some(i16::MIN), x_to_i2(&[0x80, 0x00]));
    assert_eq!(None, x_to_i2(&[0x80]));
    assert_eq!(None, x_to_i2(&[1, 2, 3]));
    for i in [i32::MIN, -36, -1, 0, 1, 0x14B, i32::MAX] {
        assert_eq!(Some(i), x_to_i4(&mk_i_4(i)));
    }
}

#[test]
fn ranges_and_line_feeds() {
    assert_eq!(vec![(1, 4), (5, 9)], range_pairs(&[1, 5, 10]));
    assert_eq!(Vec::<(i32, i32)>::new(), range_pairs(&[7]));
    assert_eq!(Vec::<(i32, i32)>::new(), range_pairs(&[]));
    assert_eq!(0, count_new_lines(""));
    assert_eq!(0, count_new_lines("abc"));
    assert_eq!(3, count_new_lines("a\nb\n\n"));
}

#[test]
fn lines_of_a_text() {
    assert_eq!(Vec::<String>::new(), strings(split_lines(&chars(""))));
    assert_eq!(vec!["a"], strings(split_lines(&chars("a"))));
    assert_eq!(vec!["a"], strings(split_lines(&chars("a\n"))));
    assert_eq!(vec!["a", ""], strings(split_lines(&chars("a\n\n"))));
    assert_eq!(vec!["", "b"], strings(split_lines(&chars("\nb"))));
    assert_eq!(vec!["a", "b"], strings(split_lines(&chars("a\r\nb\r\n"))));
    assert_eq!(vec!["a\r"], strings(split_lines(&chars("a\r"))));
    assert_eq!(vec!["a\rb", "c"], strings(split_lines(&chars("a\rb\nc"))));
    for text in ["", "a", "a\n", "a\n\nb", "\r\n\r\n", "x\r", "one\r\ntwo\nthree"] {
        let want: Vec<String> = text.lines().map(String::from).collect();
        assert_eq!(want, strings(split_lines(&chars(text))));
    }
}

#[test]
fn words_and_fields() {
    assert_eq!(vec!["a", "bc", "d"], strings(split_words(&chars("  a\tbc   d "), true)));
    assert_eq!(Vec::<String>::new(), strings(split_words(&chars(" \t "), true)));
    // the no-break space is a blank of Unicode, not of ASCII
    assert_eq!(vec!["a\u{A0}b"], strings(split_words(&chars("a\u{A0}b"), true)));
    assert_eq!(vec!["a", "b"], strings(split_words(&chars("a\u{A0}b"), false)));
    assert!(blank('\u{3000}', false));
    assert!(!blank('\u{3000}', true));
    assert!(blank('\u{B}', false));
    assert!(!blank('\u{B}', true));
    for text in ["", " ", "a b", " a  b ", "x\ty\u{2003}z", "\u{85}q"] {
        let ascii: Vec<String> = text.split_ascii_whitespace().map(String::from).collect();
        let all: Vec<String> = text.split_whitespace().map(String::from).collect();
        assert_eq!(ascii, strings(split_words(&chars(text), true)));
        assert_eq!(all, strings(split_words(&chars(text), false)));
    }
    assert_eq!(vec![""], strings(split_fields(&chars(""))));
    assert_eq!(vec!["a", "", "b"], strings(split_fields(&chars("a  b"))));
    assert_eq!(vec!["a", "b", ""], strings(split_fields(&chars("a\t b\r "))));
    for text in ["", "m", "m s1 s2", " lead", "a  b ", "x\t y"] {
        let want: Vec<String> = text.split(' ').map(|s| s.trim().to_owned()).collect();
        assert_eq!(want, strings(split_fields(&chars(text))));
    }
    assert_eq!(chars("b c"), trimmed(&chars("a  b c \t"), 1, 8));
    assert_eq!(chars("bc"), slice_of(&chars("abcd"), 1, 3));
    assert_eq!("bc", string_of(&chars("abcd"), 1, 3));
    assert_eq!(chars("héllo"), chars_of("héllo"));
    assert!(spells(&chars(".text"), ".text"));
    assert!(!spells(&chars(".tex"), ".text"));
    assert_eq!(chars("a,b,,c"), join_with(&vec![chars("a"), chars("b"), chars(""), chars("c")], ','));
    assert_eq!(chars(""), join_with(&vec![], ','));
}

#[test]
fn hexadecimal_numbers() {
    for word in ["0", "7f", "7F", "+10", "-10", "7FFFFFFF", "-80000000", "0000000001", "-0"] {
        assert_eq!(i32::from_str_radix(word, 16).ok(), parse_signed_hex(&chars(word)));
    }
    for word in ["", "+", "-", "80000000", "-80000001", "FFFFFFFF", "1g", " 1", "1 ", "0x1", "1_0"] {
        assert_eq!(None, parse_signed_hex(&chars(word)));
        assert!(i32::from_str_radix(word, 16).is_err());
    }
    assert_eq!(Some(-16), parse_signed_hex(&chars("-10")));
    assert_eq!(Some(0x1A), parse_signed_hex(&chars("1a")));
    for word in ["0", "ff", "+FF", "00ff", "100", "-1", "", "+", "FFFFFFFFFFFFFFFFFF"] {
        assert_eq!(
            u8::from_str_radix(word, 16).ok().map(|b| b as u64),
            parse_unsigned_hex(&chars(word), 255)
        );
        assert_eq!(
            u64::from_str_radix(word, 16).ok(),
            parse_unsigned_hex(&chars(word), u64::MAX)
        );
    }
    assert_eq!(Some(u64::MAX), parse_unsigned_hex(&chars("FFFFFFFFFFFFFFFF"), u64::MAX));
    assert_eq!(None, parse_unsigned_hex(&chars("10000000000000000"), u64::MAX));
    let mut out = vec![];
    push_hex(&mut out, 0);
    out.push(' ');
    push_hex(&mut out, 0x1C);
    out.push(' ');
    push_hex_i32(&mut out, -1);
    out.push(' ');
    push_hex_i32(&mut out, 0x14B);
    out.push(' ');
    push_hex_byte(&mut out, 0x0A);
    out.push(' ');
    push_dec(&mut out, 0);
    out.push(' ');
    push_dec(&mut out, 1203);
    assert_eq!(chars("0 1C FFFFFFFF 14B 0A 0 1203"), out);
    for n in [0u128, 9, 10, 15, 16, 255, 256, 0xDEADBEEF, u64::MAX as u128] {
        let mut out = vec![];
        push_hex(&mut out, n);
        assert_eq!(format!("{:X}", n), out.iter().collect::<String>());
        assert_eq!(Some(n as u64), parse_unsigned_hex(&out, u64::MAX));
    }
}

#[test]
fn order_of_texts() {
    assert!(str_before("a", "b"));
    assert!(str_before("", "a"));
    assert!(str_before("ab", "b"));
    assert!(str_before("a", "ab"));
    assert!(!str_before("a", "a"));
    assert!(!str_before("b", "a"));
    assert!(str_before("Z", "a"));
    assert!(bytes_before(&[1, 2], &[1, 3]));
    assert!(str_same("abc", "abc"));
    assert!(!str_same("abc", "abd"));
    assert!(!str_same("abc", "ab"));
    for a in ["", "a", "b", "ab", "é", "z", "mod_1", "libmod_1"] {
        for b in ["", "a", "b", "ab", "é", "z", "mod_1", "libmod_1"] {
            assert_eq!(a < b, str_before(a, b));
            assert_eq!(a == b, str_same(a, b));
            assert_eq!(symbol(a) < symbol(b), symbol(a).before(&symbol(b)));
            assert_eq!(symbol(a) < wrapped_symbol(b), symbol(a).before(&wrapped_symbol(b)));
            assert_eq!(wrapped_symbol(a) < symbol(b), wrapped_symbol(a).before(&symbol(b)));
            assert_eq!(symbol(a) == symbol(b), symbol(a).same(&symbol(b)));
            assert!(!symbol(a).same(&wrapped_symbol(a)));
        }
    }
}

#[test]
fn tables_keep_the_order_of_their_keys() {
    let mut t: Table<String, i32> = Table::new();
    assert!(t.is_empty());
    for (k, v) in [("m", 1), ("c", 2), ("x", 3), ("a", 4), ("c", 5)] {
        t.insert(String::from(k), v);
    }
    assert_eq!(4, t.len());
    assert_eq!(vec!["a", "c", "m", "x"], t.keys);
    assert_eq!(vec![4, 5, 1, 3], t.values);
    assert_eq!(Some(&5), t.get(&String::from("c")));
    assert_eq!(None, t.get(&String::from("b")));
    assert!(t.contains_key(&String::from("x")));
    assert!(!t.contains_key(&String::from("y")));
    assert_eq!(Some(2), t.find(&String::from("m")));
    assert_eq!(1, t.slot_of(&String::from("b")));
    assert_eq!(4, t.slot_of(&String::from("z")));
    let mut s: Table<SymbolName, ()> = Table::new();
    s.insert(wrapped_symbol("a"), ());
    s.insert(symbol("b"), ());
    s.insert(symbol("a"), ());
    assert_eq!(vec![symbol("a"), symbol("b"), wrapped_symbol("a")], s.keys);
    assert_eq!(symbol("b"), symbol("b").duplicate());
}

#[test]
fn segment_data() {
    let zero = SegmentData::new(3);
    assert_eq!(&vec![0, 0, 0], zero.deref());
    assert!(!zero.is_empty());
    assert!(SegmentData::new(0).is_empty());
    let a = SegmentData::from_bytes(vec![1, 2, 3]);
    let b = SegmentData::from_bytes(vec![4, 5]);
    let mut c = a.concat(&b);
    assert_eq!(&vec![1, 2, 3, 4, 5], c.deref());
    assert_eq!(5, c.len());
    assert_eq!(Some(&[2u8, 3, 4][..]), c.get_at(1, 3));
    assert_eq!(Some(&[][..]), c.get_at(5, 0));
    assert_eq!(None, c.get_at(3, 3));
    assert_eq!(None, c.get_at(6, 0));
    assert_eq!(None, c.get_at(usize::MAX, 2));
    c.update(1, 2, vec![9, 8]);
    assert_eq!(&vec![1, 9, 8, 4, 5], c.deref());
    c.update(5, 0, vec![]);
    assert_eq!(&vec![1, 9, 8, 4, 5], c.duplicate().deref());
}

#[test]
fn segments_and_their_names() {
    assert_eq!(
        [SegmentName::TEXT, SegmentName::GOT, SegmentName::DATA, SegmentName::BSS],
        SegmentName::order()
    );
    assert_eq!(".text", SegmentName::TEXT.to_string());
    assert_eq!(".got", SegmentName::GOT.to_string());
    assert_eq!(".data", SegmentName::DATA.as_str());
    assert_eq!(".bss", SegmentName::BSS.as_str());
    let seg = parse_segment(".data 4000 C00 RWP").unwrap();
    assert_eq!(SegmentName::DATA, seg.segment_name);
    assert_eq!(0x4000, seg.segment_start);
    assert_eq!(0xC00, seg.segment_len);
    assert_eq!(vec![SegmentDescr::R, SegmentDescr::W, SegmentDescr::P], seg.segment_descr);
    assert_eq!("RWP", seg.ppr_seg_descr());
    assert_eq!("PPR", parse_segment(".bss 0 0 PPR").unwrap().ppr_seg_descr());
    let fresh = Segment::new(SegmentName::GOT);
    assert_eq!(0, fresh.segment_start);
    assert_eq!(0, fresh.segment_len);
    assert_eq!("", fresh.ppr_seg_descr());
    assert_eq!(Err(ParseError::InvalidSegment), parse_segment(".text 0 0 R P").map(|_| ()));
    assert_eq!(vec![0x0A, 0xFF], *parse_segment_data(2, "0A  ff").unwrap().deref());
    assert_eq!(
        Err(ParseError::SegmentDataLengthMismatch),
        parse_segment_data(3, "0A FF").map(|_| ())
    );
    assert_eq!(Err(ParseError::InvalidObjectData), parse_segment_data(1, "0Z").map(|_| ()));
    let mut m: SegMap<i32> = SegMap::new();
    assert_eq!(0, m.len());
    m.insert(SegmentName::DATA, 7);
    m.insert(SegmentName::TEXT, 3);
    m.insert(SegmentName::DATA, 8);
    assert_eq!(2, m.len());
    assert_eq!(Some(&8), m.get(&SegmentName::DATA));
    assert!(!m.contains_key(&SegmentName::BSS));
    assert_eq!(Some(3), m.take(SegmentName::TEXT));
    assert_eq!(None, m.take(SegmentName::TEXT));
}

#[test]
fn symbols_and_relocations() {
    assert_eq!("foo", symbol("foo").to_string());
    assert_eq!("wrap_foo", wrapped_symbol("foo").to_string());
    assert_eq!("foo", wrapped_symbol("foo").deref());
    assert!(wrapped_symbol("foo").is_wrapped());
    let common = parse_symbol_table_entry(3, "buf 40 0 U").unwrap();
    assert!(common.is_common_block());
    assert!(!common.is_defined());
    let undefined = parse_symbol_table_entry(3, "f 0 0 U").unwrap();
    assert!(!undefined.is_common_block());
    let defined = parse_symbol_table_entry(3, "g 40 3 D").unwrap();
    assert!(defined.is_defined());
    assert!(!defined.is_common_block());
    assert_eq!("D", SymbolTableEntryType::D.to_string());
    assert_eq!("U", SymbolTableEntryType::U.to_string());
    assert_eq!(symbol("g"), defined.duplicate().st_name);
    let segs = vec![parse_segment(".text 0 10 RP").unwrap(), parse_segment(".data 10 10 RWP").unwrap()];
    let syms = vec![defined];
    let r = parse_relocation(&segs, &syms, "8 2 1 GR4").unwrap();
    assert_eq!(8, r.rel_loc);
    assert_eq!(SegmentName::DATA, r.rel_seg);
    assert_eq!(RelRef::SegmentRef(0), r.rel_ref);
    assert_eq!(RelType::GR4, r.rel_type);
    assert_eq!(
        RelRef::NoRef,
        parse_relocation(&segs, &syms, "8 2 77 ER4").unwrap().rel_ref
    );
    assert_eq!(
        Err(ParseError::RelSymbolOutOfRange),
        parse_relocation(&segs, &syms, "8 2 2 L2")
    );
    for (t, text) in [
        (RelType::A4, "A4"),
        (RelType::R4, "R4"),
        (RelType::AS4, "AS4"),
        (RelType::RS4, "RS4"),
        (RelType::U2, "U2"),
        (RelType::L2, "L2"),
        (RelType::GA4, "GA4"),
        (RelType::GP4, "GP4"),
        (RelType::GR4, "GR4"),
        (RelType::ER4, "ER4"),
    ] {
        assert_eq!(text, t.to_string());
        assert_eq!(text, t.as_str());
        assert_eq!(
            matches!(t, RelType::A4 | RelType::R4 | RelType::GR4),
            t.is_segment_rel()
        );
        assert_eq!(matches!(t, RelType::GA4 | RelType::ER4), t.is_no_rel());
    }
    assert_eq!("1F", RelRef::SegmentRef(0x1F).to_string());
    assert_eq!("0", RelRef::SymbolRef(0).to_string());
    assert_eq!("", RelRef::NoRef.to_string());
}

#[test]
fn definitions() {
    let d = Defn::new(String::from("mod_1"), 3, None);
    assert_eq!("mod_1", d.defn_mod_id);
    assert_eq!(Some(3), d.defn_ste_ix);
    assert_eq!(None, d.defn_addr);
    assert!(matches!(d.defn_prov, DefnProvenance::FromObjectIn));
    let s = Defn::shared_lib_defn(String::from("stdio"), 0x1000, String::from("libc"));
    assert_eq!(None, s.defn_ste_ix);
    assert_eq!(Some(0x1000), s.defn_addr);
    match s.duplicate().defn_prov {
        DefnProvenance::FromSharedLib(l) => assert_eq!("libc", l),
        _ => panic!("unexpected"),
    }
    assert_eq!("MAP", MAP_FILE_NAME);
    assert_eq!("LIBRARY", MAGIC_NUMBER_LIB);
    assert_eq!("STUB", STUB_MAGIC_NUMBER);
    assert_eq!("LIBRARY NAME", LIB_NAME_FILE);
}

#[test]
fn wrapping_of_a_module() {
    let text = "LINK\n1 4 0\n.text 0 1 RP\nfoo 0 1 D\nbar 0 0 U\nwrap_baz 0 0 U\nreal_qux 0 1 D\n00\n";
    let o = parse_object_file(String::from(text)).unwrap();
    let names = vec![symbol("foo"), symbol("bar")];
    assert!(among(&names, &symbol("foo")));
    assert!(!among(&names, &wrapped_symbol("foo")));
    let w = wrap_one(&names, &o).unwrap();
    assert_eq!(wrapped_symbol("foo"), w.symbol_table[0].st_name);
    assert_eq!(wrapped_symbol("bar"), w.symbol_table[1].st_name);
    assert_eq!(symbol("wrap_baz"), w.symbol_table[2].st_name);
    assert_eq!(
        "1 4 0\n.text 0 1 RP\nreal_foo 0 1 D\nwrap_bar 0 0 U\nwrap_baz 0 0 U\nreal_qux 0 1 D\n00",
        w.ppr(false)
    );
    assert!(symbol_clashes(&vec![symbol("baz")], &o.symbol_table[2]));
    assert!(symbol_clashes(&vec![symbol("qux")], &o.symbol_table[3]));
    assert!(!symbol_clashes(&vec![symbol("qux")], &o.symbol_table[2]));
    assert_eq!(
        Err(LinkError::WrappedSymbolNameAlreadyExists),
        wrap_one(&vec![symbol("baz")], &o).map(|_| ())
    );
    // a name that is wrapped already is not wrapped once more
    assert_eq!(
        Err(LinkError::WrappedSymbolNameAlreadyExists),
        wrap_one(&vec![wrapped_symbol("foo")], &w).map(|_| ())
    );
}

#[test]
fn logger_keeps_entries_for_tests() {
    let mut quiet = Logger::new_stdout_logger(true);
    assert_eq!("[INFO]: hello", quiet.info("hello"));
    assert_eq!("[WARN]: careful", quiet.do_log(LogLevel::Warn, "careful"));
    assert_eq!("[ERROR]: no", quiet.do_log(LogLevel::Error, "no"));
    assert!(quiet.log_entries.is_empty());
    assert!(quiet.silent);
    assert_eq!(LoggerType::StdOut, quiet.logger_ty);
    let mut kept = Logger::new_test_logger(false);
    assert_eq!("[DEBUG]: one", kept.debug("one"));
    assert_eq!("[INFO]: two", kept.info("two"));
    assert_eq!(
        vec![(LogLevel::Debug, String::from("one")), (LogLevel::Info, String::from("two"))],
        kept.log_entries
    );
    assert_eq!("[DEBUG]", LogLevel::Debug.tag());
}
