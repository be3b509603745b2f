use linkerloader::linker::editor::LinkerEditor;
use linkerloader::linker::ingest::{alloc_storage_and_symtables, build_symbol_tables};
use linkerloader::linker::layout::{common_block_allocation, patch_segment_offsets, Config};
use linkerloader::linker::libs::static_libs_symbol_lookup;
use linkerloader::linker::relocate::run_relocations;
use linkerloader::linker::resolve::resolve_global_sym_offsets;
use linkerloader::linker::state::{LinkerInfo, Work};
use linkerloader::table::Table;
use linkerloader::types::errors::LinkError;
use linkerloader::types::library::StaticLib;
use linkerloader::types::object::{parse_object_file, ObjectIn};
use linkerloader::types::out::ObjectOut;
use linkerloader::types::relocation::{RelRef, RelType};
use linkerloader::types::segment::SegmentName;
use linkerloader::types::symbol_table::{symbol, wrapped_symbol, SymbolName};
use linkerloader::utils::{find_seg_start, mk_addr_4, x_to_i2, x_to_i4};

fn no_static_libs() -> Vec<StaticLib> {
    vec![]
}

fn no_wrap_routines() -> Vec<SymbolName> {
    vec![]
}

fn zeros(len: usize) -> Vec<u8> {
    vec![0; len]
}

fn hex(bytes: &[u8]) -> String {
    let mut words = vec![];
    for b in bytes {
        words.push(format!("{:02X}", b));
    }
    words.join(" ")
}

/// The text of a module with the given segments (`name len flags`, each with
/// its data), symbol lines and relocation lines.
fn module_text(segs: &[(&str, &str, Vec<u8>)], syms: &[&str], rels: &[&str]) -> String {
    let mut lines = vec![String::from("LINK")];
    lines.push(format!("{:X} {:X} {:X}", segs.len(), syms.len(), rels.len()));
    let mut start = 0;
    for (name, descr, data) in segs {
        lines.push(format!("{} {:X} {:X} {}", name, start, data.len(), descr));
        start += data.len();
    }
    for s in syms {
        lines.push(String::from(*s));
    }
    for r in rels {
        lines.push(String::from(*r));
    }
    for (_, _, data) in segs {
        lines.push(hex(data));
    }
    lines.push(String::new());
    lines.join("\n")
}

fn module(segs: &[(&str, &str, Vec<u8>)], syms: &[&str], rels: &[&str]) -> ObjectIn {
    match parse_object_file(module_text(segs, syms, rels)) {
        Ok(o) => o,
        Err(e) => panic!("{:?}", e),
    }
}

/// A module with `.text`, `.data` and `.bss` of the given lengths.
fn plain_module(text: usize, data: usize, bss: usize, syms: &[&str], rels: &[&str]) -> ObjectIn {
    module(
        &[
            (".text", "RP", zeros(text)),
            (".data", "RWP", zeros(data)),
            (".bss", "RW", zeros(bss)),
        ],
        syms,
        rels,
    )
}

fn objects(mods: Vec<(&str, ObjectIn)>) -> Table<String, ObjectIn> {
    let mut t = Table::new();
    for (name, o) in mods {
        t.insert(String::from(name), o);
    }
    t
}

fn link(
    editor: &mut LinkerEditor,
    mods: Vec<(&str, ObjectIn)>,
    libs: Vec<StaticLib>,
    wraps: Vec<SymbolName>,
) -> Result<(ObjectOut, LinkerInfo), LinkError> {
    editor.link(objects(mods), libs, wraps)
}

fn name(s: &str) -> String {
    String::from(s)
}

fn multi_object_test(mods: Vec<(&str, ObjectIn)>) {
    let mut editor = LinkerEditor::new(0x100, 0x100, 0x4, false);
    match link(&mut editor, mods, no_static_libs(), no_wrap_routines()) {
        Ok((out, _info)) => {
            assert_eq!(out.nsegs as usize, out.segments.len());
            assert_eq!(out.object_data.len(), out.segments.len());
            let text_seg = out
                .segments
                .get(&SegmentName::TEXT)
                .unwrap_or_else(|| panic!("failed to get text segment"));
            let text_seg_data = out
                .object_data
                .get(&SegmentName::TEXT)
                .unwrap_or_else(|| panic!("failed to get text code / data"));
            assert_eq!(text_seg.segment_len as usize, text_seg_data.len());
            let data_seg = out
                .segments
                .get(&SegmentName::DATA)
                .unwrap_or_else(|| panic!("failed to get data segment"));
            let data_seg_data = out
                .object_data
                .get(&SegmentName::DATA)
                .unwrap_or_else(|| panic!("failed to get data code / data"));
            assert_eq!(data_seg.segment_len as usize, data_seg_data.len());
            let bss_seg = out
                .segments
                .get(&SegmentName::BSS)
                .unwrap_or_else(|| panic!("failed to get bss segment"));
            let bss_seg_data = out
                .object_data
                .get(&SegmentName::BSS)
                .unwrap_or_else(|| panic!("failed to get bss code / data"));
            assert_eq!(bss_seg.segment_len as usize, bss_seg_data.len());
        }
        Err(e) => panic!("{:?}", e),
    }
}

#[test]
fn link_1() {
    multi_object_test(vec![
        ("mod_1", plain_module(0x32, 0x10, 0x8, &[], &[])),
        ("mod_2", plain_module(0x32, 0x20, 0x4, &[], &[])),
    ]);
}

#[test]
fn link_2() {
    multi_object_test(vec![
        ("mod_1", plain_module(0x32, 0x10, 0x8, &["main 0 1 D"], &[])),
        ("mod_2", plain_module(0x1, 0x0, 0x4, &["main 0 0 U"], &[])),
        ("mod_3", plain_module(0x0, 0x3, 0x0, &[], &[])),
    ]);
}

#[test]
fn segments_are_laid_out() {
    let mods = vec![
        ("mod_1", plain_module(0x32, 0x10, 0x8, &[], &[])),
        ("mod_2", plain_module(0x32, 0x21, 0x4, &[], &[])),
    ];
    let mut editor = LinkerEditor::new(0x100, 0x100, 0x4, false);
    let (out, info) = link(&mut editor, mods, no_static_libs(), no_wrap_routines()).unwrap();
    let text = out.segments.get(&SegmentName::TEXT).unwrap();
    let data = out.segments.get(&SegmentName::DATA).unwrap();
    let bss = out.segments.get(&SegmentName::BSS).unwrap();
    assert_eq!(0x100, text.segment_start);
    assert_eq!(0x64, text.segment_len);
    assert_eq!(find_seg_start(0x100 + 0x64, 0x100), data.segment_start);
    assert_eq!(0x200, data.segment_start);
    assert_eq!(0x31, data.segment_len);
    assert_eq!(0x234, bss.segment_start);
    assert_eq!(0xC, bss.segment_len);
    assert!(out.segments.get(&SegmentName::GOT).is_none());
    assert_eq!(3, out.nsegs);
    let m1 = info.segment_mapping.get(&name("mod_1")).unwrap();
    let m2 = info.segment_mapping.get(&name("mod_2")).unwrap();
    assert_eq!(Some(&0x100), m1.get(&SegmentName::TEXT));
    assert_eq!(Some(&0x132), m2.get(&SegmentName::TEXT));
    assert_eq!(Some(&0x200), m1.get(&SegmentName::DATA));
    assert_eq!(Some(&0x210), m2.get(&SegmentName::DATA));
    assert_eq!(Some(&0x234), m1.get(&SegmentName::BSS));
    assert_eq!(Some(&0x23C), m2.get(&SegmentName::BSS));
    assert_eq!(
        "Link Info:\n  mod_1 => .text: 100 .data: 200 .bss: 234\n  mod_2 => .text: 132 .data: 210 .bss: 23C",
        info.ppr()
    );
}

#[test]
fn common_block_1() {
    let mods = vec![
        ("mod_1", plain_module(0x10, 0x4, 0x8, &["a 4 0 U"], &[])),
        ("mod_2", plain_module(0x10, 0x4, 0x8, &["b 8 0 U"], &[])),
        ("mod_3", plain_module(0x10, 0x4, 0x8, &["c 2 0 U"], &[])),
    ];
    let mut editor = LinkerEditor::new(0x10, 0x10, 0x4, false);
    match link(&mut editor, mods, no_static_libs(), no_wrap_routines()) {
        Ok((out, info)) => {
            assert_eq!(3, info.common_block_mapping.len());
            assert_eq!(out.object_data.len(), out.segments.len());
            let bss_seg = out
                .segments
                .get(&SegmentName::BSS)
                .unwrap_or_else(|| panic!("failed to get bss segment"));
            let bss_seg_data = out
                .object_data
                .get(&SegmentName::BSS)
                .unwrap_or_else(|| panic!("failed to get bss code / data"));
            let common_block: i32 = info.common_block_mapping.values.iter().sum();
            assert_eq!(14, common_block);
            // the room for the common blocks is part of the segment and of its data
            assert_eq!(0x18 + common_block, bss_seg.segment_len);
            assert_eq!(bss_seg.segment_len as usize, bss_seg_data.len());
        }
        Err(e) => panic!("{:?}", e),
    }
}

#[test]
fn common_block_bigger_size() {
    let mods = vec![
        ("mod_1", module(&[(".text", "RP", zeros(4))], &["name 4 0 U"], &[])),
        ("mod_2", module(&[(".text", "RP", zeros(4))], &["name A 0 U"], &[])),
        ("mod_3", module(&[(".text", "RP", zeros(4))], &["name 2 0 U"], &[])),
    ];
    let mut editor = LinkerEditor::new(0x10, 0x10, 0x4, false);
    match link(&mut editor, mods, no_static_libs(), no_wrap_routines()) {
        Ok((out, info)) => {
            assert_eq!(1, info.common_block_mapping.len());
            assert_eq!(out.nsegs as usize, out.segments.len());
            let bss_seg = out
                .segments
                .get(&SegmentName::BSS)
                .unwrap_or_else(|| panic!("failed to get bss segment"));
            let common_block: i32 = info.common_block_mapping.values.iter().sum();
            assert_eq!(bss_seg.segment_len as usize, 0xA);
            assert_eq!(common_block, 0xA);
            // the segment is made where the layout puts it
            assert_eq!(0x20, bss_seg.segment_start);
            assert_eq!(0xA, out.object_data.get(&SegmentName::BSS).unwrap().len());
        }
        Err(e) => panic!("{:?}", e),
    }
}

#[test]
fn common_block_takes_the_largest_request() {
    let mods = vec![
        ("mod_1", plain_module(0x4, 0x4, 0x6, &["name 4 0 U"], &[])),
        ("mod_2", plain_module(0x4, 0x4, 0x0, &["name 8 0 U"], &[])),
        ("mod_3", plain_module(0x4, 0x4, 0x0, &["name 2 0 U"], &[])),
    ];
    let mut editor = LinkerEditor::new(0x10, 0x10, 0x4, false);
    let (out, info) = link(&mut editor, mods, no_static_libs(), no_wrap_routines()).unwrap();
    assert_eq!(1, info.common_block_mapping.len());
    assert_eq!(Some(&8), info.common_block_mapping.get(&symbol("name")));
    assert_eq!(0x6 + 8, out.segments.get(&SegmentName::BSS).unwrap().segment_len);
    // a common block is no entry of the global symbol table
    assert_eq!(0, info.global_symtable.len());
}

#[test]
fn symbol_name_resolution_1() {
    let mods = vec![
        ("mod_1", plain_module(0x10, 0x4, 0x0, &["foo 0 0 U", "bar 4 1 D"], &[])),
        ("mod_2", plain_module(0x10, 0x4, 0x0, &["foo 8 1 D", "bar 0 0 U"], &[])),
    ];
    let mut editor = LinkerEditor::new(0x10, 0x10, 0x4, false);
    match link(&mut editor, mods, no_static_libs(), no_wrap_routines()) {
        Ok((_out, info)) => {
            assert_eq!(2, info.global_symtable.len());
            assert!(info.global_symtable.contains_key(&symbol("foo")));
            assert!(info.global_symtable.contains_key(&symbol("bar")));
            let foo_ste = info.global_symtable.get(&symbol("foo")).unwrap();
            assert_eq!("mod_2", foo_ste.0.as_ref().unwrap().defn_mod_id);
            assert_eq!(Some(0), foo_ste.0.as_ref().unwrap().defn_ste_ix);
            assert!(foo_ste.1.contains_key(&name("mod_1")));
            assert_eq!(0, *foo_ste.1.get(&name("mod_1")).unwrap());
            let bar_ste = info.global_symtable.get(&symbol("bar")).unwrap();
            assert_eq!("mod_1", bar_ste.0.as_ref().unwrap().defn_mod_id);
            assert_eq!(Some(1), bar_ste.0.as_ref().unwrap().defn_ste_ix);
            assert!(bar_ste.1.contains_key(&name("mod_2")));
            assert_eq!(1, *bar_ste.1.get(&name("mod_2")).unwrap());
        }
        Err(e) => panic!("{:?}", e),
    }
}

#[test]
fn multiple_symbol_defns() {
    let mods = vec![
        ("mod_1", plain_module(0x10, 0x4, 0x0, &["foo 0 1 D"], &[])),
        ("mod_2", plain_module(0x10, 0x4, 0x0, &["foo 8 1 D"], &[])),
    ];
    let mut editor = LinkerEditor::new(0x10, 0x10, 0x4, false);
    match link(&mut editor, mods, no_static_libs(), no_wrap_routines()) {
        Err(e) => assert_eq!(LinkError::MultipleSymbolDefinitions, e),
        _ => panic!("multiple_symbol_defns"),
    }
}

#[test]
fn undefined_symbol() {
    let mods = vec![
        ("mod_1", plain_module(0x10, 0x4, 0x0, &["foo 0 1 D", "bar 0 0 U"], &[])),
        ("mod_2", plain_module(0x10, 0x4, 0x0, &["foo 0 0 U"], &[])),
    ];
    let mut editor = LinkerEditor::new(0x10, 0x10, 0x4, false);
    match link(&mut editor, mods, no_static_libs(), no_wrap_routines()) {
        Err(e) => assert_eq!(LinkError::UndefinedSymbolError, e),
        _ => panic!("undefined_symbol"),
    }
}

#[test]
fn symbol_value_resolution() {
    let mods = vec![
        ("mod_1", plain_module(0x10, 0xA, 0x8, &["foo 0 0 U"], &[])),
        (
            "mod_2",
            plain_module(0x2A, 0x14, 0x4, &["foo 0 1 D", "bar 5 2 D", "baz 2 3 D"], &[]),
        ),
    ];
    let text_start = 0x10;
    let mut editor = LinkerEditor::new(text_start, 0x10, 0x4, false);
    match link(&mut editor, mods, no_static_libs(), no_wrap_routines()) {
        Ok((_out, info)) => {
            assert_eq!(3, info.global_symtable.len());
            let foo_abs_addr = info
                .global_symtable
                .get(&symbol("foo"))
                .unwrap()
                .0
                .as_ref()
                .unwrap()
                .defn_addr
                .unwrap();
            assert_eq!(0x20, foo_abs_addr);
            let bar_abs_addr = info
                .global_symtable
                .get(&symbol("bar"))
                .unwrap()
                .0
                .as_ref()
                .unwrap()
                .defn_addr
                .unwrap();
            assert_eq!(0x5A + 0x5, bar_abs_addr);
            let baz_abs_addr = info
                .global_symtable
                .get(&symbol("baz"))
                .unwrap()
                .0
                .as_ref()
                .unwrap()
                .defn_addr
                .unwrap();
            assert_eq!(0x78 + 0x2, baz_abs_addr);
        }
        Err(e) => panic!("{:?}", e),
    }
}

#[test]
fn every_global_symbol_gets_an_address() {
    let mods = vec![
        ("mod_1", plain_module(0x10, 0xA, 0x8, &["foo 0 0 U", "qux 3 1 D"], &[])),
        ("mod_2", plain_module(0x2A, 0x14, 0x4, &["foo 0 1 D", "bar 5 2 D"], &[])),
    ];
    let mut editor = LinkerEditor::new(0x10, 0x10, 0x4, false);
    let (_out, info) = link(&mut editor, mods, no_static_libs(), no_wrap_routines()).unwrap();
    assert_eq!(3, info.global_symtable.len());
    for entry in info.global_symtable.values.iter() {
        assert!(entry.0.as_ref().unwrap().defn_addr.is_some());
    }
}

#[test]
fn run_relocations_a4() {
    let mods = vec![(
        "mod_1",
        module(
            &[(".data", "RWP", zeros(8)), (".text", "RP", zeros(0x4C))],
            &[],
            &["4 2 1 A4"],
        ),
    )];
    let mut editor = LinkerEditor::new(0xFF, 0x0, 0x0, false);
    match link(&mut editor, mods, no_static_libs(), no_wrap_routines()) {
        Ok((out, _info)) => {
            let obj_code_text = out.object_data.get(&SegmentName::TEXT).unwrap();
            assert_eq!(
                0x14B,
                x_to_i4(obj_code_text.get_at(0x4, 0x4).unwrap()).unwrap()
            );
            // an executable-relative relocation is left at the same place
            assert_eq!(1, out.relocations.len());
            assert_eq!(1, out.nrels);
            assert_eq!(4, out.relocations[0].rel_loc);
            assert_eq!(SegmentName::TEXT, out.relocations[0].rel_seg);
            assert_eq!(RelRef::NoRef, out.relocations[0].rel_ref);
            assert_eq!(RelType::ER4, out.relocations[0].rel_type);
        }
        Err(e) => panic!("{:?}", e),
    }
}

#[test]
fn run_relocations_r4() {
    let mods = vec![(
        "mod_1",
        module(
            &[(".text", "RP", zeros(0x32)), (".data", "RWP", zeros(8))],
            &[],
            &["A 1 2 R4"],
        ),
    )];
    let mut editor = LinkerEditor::new(0xFF, 0x0, 0x0, false);
    match link(&mut editor, mods, no_static_libs(), no_wrap_routines()) {
        Ok((out, _info)) => {
            let obj_code_text = out.object_data.get(&SegmentName::TEXT).unwrap();
            assert_eq!(
                -36,
                x_to_i4(obj_code_text.get_at(0xA, 0x4).unwrap()).unwrap()
            );
            assert_eq!(0, out.relocations.len());
        }
        Err(e) => panic!("{:?}", e),
    }
}

#[test]
fn run_relocations_r4_adds_what_is_there() {
    let mut text = zeros(0x10);
    // the addend -2
    text[4] = 0xFF;
    text[5] = 0xFF;
    text[6] = 0xFF;
    text[7] = 0xFE;
    let mods = vec![("mod_1", module(&[(".text", "RP", text)], &[], &["4 1 1 R4"]))];
    let mut editor = LinkerEditor::new(0x100, 0x0, 0x0, false);
    let (out, _info) = link(&mut editor, mods, no_static_libs(), no_wrap_routines()).unwrap();
    let obj_code_text = out.object_data.get(&SegmentName::TEXT).unwrap();
    // the address after the location, less the start of the segment, plus the addend
    assert_eq!(0x104 + 4 - 0x100 - 2, x_to_i4(obj_code_text.get_at(4, 4).unwrap()).unwrap());
}

#[test]
fn run_relocations_as4() {
    let mods = vec![(
        "mod_1",
        module(&[(".text", "RP", zeros(0x20))], &["foo 0 1 D"], &["10 1 1 AS4"]),
    )];
    let mut editor = LinkerEditor::new(0xFF, 0x0, 0x0, false);
    match link(&mut editor, mods, no_static_libs(), no_wrap_routines()) {
        Ok((out, _info)) => {
            let obj_code_text = out.object_data.get(&SegmentName::TEXT).unwrap();
            assert_eq!(
                0xFF,
                x_to_i4(obj_code_text.get_at(0x10, 0x4).unwrap()).unwrap()
            );
            assert_eq!(1, out.relocations.len());
            assert_eq!(0x10, out.relocations[0].rel_loc);
            assert_eq!(RelType::ER4, out.relocations[0].rel_type);
        }
        Err(e) => panic!("{:?}", e),
    }
}

#[test]
fn run_relocation_rs4() {
    let mods = vec![(
        "mod_1",
        module(
            &[(".text", "RP", zeros(0x40))],
            &["far 3C 1 D", "near A 1 D"],
            &["16 1 1 RS4", "28 1 2 RS4"],
        ),
    )];
    let mut editor = LinkerEditor::new(0xFF, 0x0, 0x0, false);
    match link(&mut editor, mods, no_static_libs(), no_wrap_routines()) {
        Ok((out, _info)) => {
            let obj_code_text = out.object_data.get(&SegmentName::TEXT).unwrap();
            assert_eq!(
                -34,
                x_to_i4(obj_code_text.get_at(0x16, 0x4).unwrap()).unwrap()
            );
            assert_eq!(
                34,
                x_to_i4(obj_code_text.get_at(0x28, 0x4).unwrap()).unwrap()
            );
        }
        Err(e) => panic!("{:?}", e),
    }
}

#[test]
fn run_relocation_u2() {
    let mods = vec![(
        "mod_1",
        module(
            &[(".text", "RP", zeros(0x20)), (".data", "RWP", vec![0xFF; 0x10])],
            &["foo 1E 1 D"],
            &["0 2 1 U2"],
        ),
    )];
    let mut editor = LinkerEditor::new(0xFF, 0x0, 0x0, false);
    match link(&mut editor, mods, no_static_libs(), no_wrap_routines()) {
        Ok((out, _info)) => {
            let obj_code_data = out.object_data.get(&SegmentName::DATA).unwrap();
            assert_eq!(0, x_to_i2(obj_code_data.get_at(0x0, 0x2).unwrap()).unwrap());
            // the bytes behind are left alone
            assert_eq!(-1, x_to_i2(obj_code_data.get_at(0x2, 0x2).unwrap()).unwrap());
        }
        Err(e) => panic!("{:?}", e),
    }
}

#[test]
fn run_relocation_l2() {
    let mods = vec![(
        "mod_1",
        module(
            &[(".text", "RP", zeros(0x20)), (".data", "RWP", vec![0xFF; 0x10])],
            &["foo 1E 1 D"],
            &["8 2 1 L2"],
        ),
    )];
    let mut editor = LinkerEditor::new(0xFF, 0x0, 0x0, false);
    match link(&mut editor, mods, no_static_libs(), no_wrap_routines()) {
        Ok((out, _info)) => {
            let obj_code_data = out.object_data.get(&SegmentName::DATA).unwrap();
            assert_eq!(
                0x011D,
                x_to_i2(obj_code_data.get_at(0x8, 0x2).unwrap()).unwrap()
            );
        }
        Err(e) => panic!("{:?}", e),
    }
}

#[test]
fn run_relocation_er4() {
    let mut text = zeros(8);
    text[7] = 0x20;
    let mods = vec![("mod_1", module(&[(".text", "RP", text)], &[], &["4 1 0 ER4"]))];
    let mut editor = LinkerEditor::new(0x100, 0x0, 0x0, false);
    let (out, _info) = link(&mut editor, mods, no_static_libs(), no_wrap_routines()).unwrap();
    let obj_code_text = out.object_data.get(&SegmentName::TEXT).unwrap();
    assert_eq!(0x120, x_to_i4(obj_code_text.get_at(4, 4).unwrap()).unwrap());
}

#[test]
fn relocation_in_the_second_module() {
    let mods = vec![
        ("mod_1", module(&[(".text", "RP", zeros(0x10))], &["foo 4 1 D"], &[])),
        ("mod_2", module(&[(".text", "RP", zeros(0x8))], &["foo 0 0 U"], &["4 1 1 AS4"])),
    ];
    let mut editor = LinkerEditor::new(0x1000, 0x0, 0x0, false);
    let (out, _info) = link(&mut editor, mods, no_static_libs(), no_wrap_routines()).unwrap();
    let obj_code_text = out.object_data.get(&SegmentName::TEXT).unwrap();
    assert_eq!(0x1004, x_to_i4(obj_code_text.get_at(0x14, 4).unwrap()).unwrap());
    assert_eq!(0x14, out.relocations[0].rel_loc);
}

#[test]
fn address_overflow() {
    // the text starts below zero: the address of its segment has no encoding
    let mods = vec![("mod_1", module(&[(".text", "RP", zeros(8))], &[], &["0 1 1 A4"]))];
    let mut editor = LinkerEditor::new(-0x100, 0x0, 0x0, false);
    match link(&mut editor, mods, no_static_libs(), no_wrap_routines()) {
        Err(e) => assert_eq!(LinkError::AddressOverflowError, e),
        Ok(_) => panic!("unexpected"),
    }
}

#[test]
fn integer_overflow() {
    let mods = vec![("mod_1", module(&[(".text", "RP", zeros(8))], &[], &[]))];
    let mut editor = LinkerEditor::new(0x7FFF_FFFC, 0x0, 0x0, false);
    match link(&mut editor, mods, no_static_libs(), no_wrap_routines()) {
        Err(e) => assert_eq!(LinkError::IntOverflowError, e),
        Ok(_) => panic!("unexpected"),
    }
}

#[test]
fn relocation_outside_its_segment() {
    let mods = vec![("mod_1", module(&[(".text", "RP", zeros(8))], &[], &["6 1 1 A4"]))];
    let mut editor = LinkerEditor::new(0x100, 0x0, 0x0, false);
    match link(&mut editor, mods, no_static_libs(), no_wrap_routines()) {
        Err(e) => assert_eq!(LinkError::UnexpectedLinkError, e),
        Ok(_) => panic!("unexpected"),
    }
}

#[test]
fn wrap_routine() {
    let mods = vec![
        ("mod_1", plain_module(0x10, 0x4, 0x0, &["foo 0 1 D", "bar 0 0 U"], &[])),
        ("mod_2", plain_module(0x10, 0x4, 0x0, &["foo 0 0 U", "bar 4 1 D"], &[])),
    ];
    let mut editor = LinkerEditor::new(0x0, 0x0, 0x0, false);
    let wrap_routines = vec![symbol("foo")];
    match link(&mut editor, mods, no_static_libs(), wrap_routines) {
        Ok((_out, info)) => {
            assert!(info.global_symtable.contains_key(&wrapped_symbol("foo")));
            assert!(!info.global_symtable.contains_key(&wrapped_symbol("bar")));
            assert!(!info.global_symtable.contains_key(&symbol("foo")));
            assert!(info.global_symtable.contains_key(&symbol("bar")));
            assert!(editor
                .session_objects
                .get("mod_1")
                .unwrap()
                .ppr(false)
                .contains("real_foo"));
            assert!(!editor
                .session_objects
                .get("mod_1")
                .unwrap()
                .ppr(false)
                .contains("wrap_foo"));
            assert!(editor
                .session_objects
                .get("mod_1")
                .unwrap()
                .ppr(false)
                .contains("bar"));
            assert!(!editor
                .session_objects
                .get("mod_2")
                .unwrap()
                .ppr(false)
                .contains("real_bar"));
            assert!(!editor
                .session_objects
                .get("mod_2")
                .unwrap()
                .ppr(false)
                .contains("real_foo"));
            assert!(editor
                .session_objects
                .get("mod_2")
                .unwrap()
                .ppr(false)
                .contains("wrap_foo"));
        }
        Err(e) => panic!("{:?}", e),
    }
}

#[test]
fn wrap_routine_error() {
    let mods = vec![
        ("mod_1", plain_module(0x10, 0x4, 0x0, &["foo 0 1 D"], &[])),
        ("mod_2", plain_module(0x10, 0x4, 0x0, &["foo 0 0 U", "wrap_foo 4 1 D"], &[])),
    ];
    let mut editor = LinkerEditor::new(0x0, 0x0, 0x0, false);
    let wrap_routines = vec![symbol("foo")];
    match link(&mut editor, mods, no_static_libs(), wrap_routines) {
        Err(e) => assert_eq!(LinkError::WrappedSymbolNameAlreadyExists, e),
        Ok(_) => panic!("wrap_routine_error unexpected OK"),
    }
}

#[test]
fn wrap_routine_error_for_the_real_name() {
    let mods = vec![("mod_1", plain_module(0x10, 0x4, 0x0, &["real_foo 0 1 D"], &[]))];
    let mut editor = LinkerEditor::new(0x0, 0x0, 0x0, false);
    match link(&mut editor, mods, no_static_libs(), vec![symbol("foo")]) {
        Err(e) => assert_eq!(LinkError::WrappedSymbolNameAlreadyExists, e),
        Ok(_) => panic!("unexpected"),
    }
}

#[test]
fn position_independent_code() {
    let mut text = vec![0xEE; 0x2C];
    // the addend of the relocation at 0xC
    text[0xC] = 0;
    text[0xD] = 0;
    text[0xE] = 0;
    text[0xF] = 0x14;
    let mods = vec![(
        "mod_1",
        module(
            &[(".text", "RP", text), (".data", "RWP", zeros(0x20))],
            &["foo 10 1 D", "bar 4 2 D"],
            &["0 1 1 GP4", "4 1 2 GP4", "8 1 0 GA4", "C 1 2 GR4"],
        ),
    )];
    let mut editor = LinkerEditor::new(0x0, 0x0, 0x0, false);
    match link(&mut editor, mods, no_static_libs(), no_wrap_routines()) {
        Ok((out, _info)) => {
            let obj_code_text = out.object_data.get(&SegmentName::TEXT).unwrap();
            assert_eq!(
                0x24,
                x_to_i4(obj_code_text.get_at(0x8, 0x4).unwrap()).unwrap()
            );
            assert_eq!(8, out.object_data.get(&SegmentName::GOT).unwrap().len());
            assert_eq!(
                0x1C,
                x_to_i4(obj_code_text.get_at(0xC, 0x4).unwrap()).unwrap()
            );
            // the places of the pointers in the table
            assert_eq!(0, x_to_i4(obj_code_text.get_at(0x0, 0x4).unwrap()).unwrap());
            assert_eq!(4, x_to_i4(obj_code_text.get_at(0x4, 0x4).unwrap()).unwrap());
            // the pointers
            let got = out.object_data.get(&SegmentName::GOT).unwrap();
            assert_eq!(0x10, x_to_i4(got.get_at(0, 4).unwrap()).unwrap());
            assert_eq!(0x38, x_to_i4(got.get_at(4, 4).unwrap()).unwrap());
            let got_seg = out.segments.get(&SegmentName::GOT).unwrap();
            assert_eq!(0x2C, got_seg.segment_start);
            assert_eq!(8, got_seg.segment_len);
            assert_eq!(0x34, out.segments.get(&SegmentName::DATA).unwrap().segment_start);
            assert_eq!(3, out.nsegs);
        }
        Err(e) => panic!("{:?}", e),
    }
}

#[test]
fn got_pointer_of_a_symbol_of_another_module() {
    let mods = vec![
        ("mod_1", module(&[(".text", "RP", vec![0xEE; 8])], &["foo 0 0 U"], &["0 1 1 GP4"])),
        ("mod_2", module(&[(".text", "RP", zeros(8))], &["foo 6 1 D"], &[])),
    ];
    let mut editor = LinkerEditor::new(0x40, 0x0, 0x0, false);
    let (out, info) = link(&mut editor, mods, no_static_libs(), no_wrap_routines()).unwrap();
    let a = info
        .global_symtable
        .get(&symbol("foo"))
        .unwrap()
        .0
        .as_ref()
        .unwrap()
        .defn_addr
        .unwrap();
    assert_eq!(0x40 + 8 + 6, a);
    let got = out.object_data.get(&SegmentName::GOT).unwrap();
    assert_eq!(4, got.len());
    assert_eq!(4, out.segments.get(&SegmentName::GOT).unwrap().segment_len);
    assert_eq!(mk_addr_4(a as usize).unwrap().as_slice(), got.get_at(0, 4).unwrap());
    let text = out.object_data.get(&SegmentName::TEXT).unwrap();
    assert_eq!(mk_addr_4(0).unwrap().as_slice(), text.get_at(0, 4).unwrap());
}

#[test]
fn printed_image() {
    let mods = vec![(
        "mod_1",
        module(
            &[(".text", "RP", vec![1, 2, 3, 4]), (".data", "RWP", vec![5, 6])],
            &["foo 2 1 D"],
            &[],
        ),
    )];
    let mut editor = LinkerEditor::new(0x10, 0x8, 0x0, false);
    let (out, _info) = link(&mut editor, mods.clone_modules(), no_static_libs(), no_wrap_routines()).unwrap();
    assert_eq!(
        "LINK\n2 0 0\n.text 10 4 RP\n.data 18 2 RWP\n01 02 03 04\n05 06",
        out.ppr()
    );
    let mut editor = LinkerEditor::new(0x10, 0x8, 0x0, false);
    let (lib, _info) = editor
        .link_lib(objects(mods), no_static_libs(), no_wrap_routines())
        .unwrap();
    assert_eq!(1, lib.nsyms);
    assert_eq!(
        "LINK\n2 1 0\nfoo 12 0 D\n.text 10 4 RP\n.data 18 2 RWP\n01 02 03 04\n05 06",
        lib.ppr()
    );
}

trait CloneModules {
    fn clone_modules(&self) -> Self;
}

impl CloneModules for Vec<(&str, ObjectIn)> {
    fn clone_modules(&self) -> Self {
        let mut v = vec![];
        for (n, o) in self.iter() {
            v.push((*n, o.duplicate()));
        }
        v
    }
}

#[test]
fn a_module_that_fails_to_come_in_leaves_what_came_before() {
    let mut w = Work::new();
    let first = module(&[(".text", "RP", zeros(0x14))], &["main 0 1 D"], &[]);
    alloc_storage_and_symtables(&mut w, name("a"), first).unwrap();
    let second = module(
        &[(".text", "RP", zeros(0x8))],
        &["foo 0 1 D", "main 0 1 D", "bar 0 1 D"],
        &[],
    );
    assert_eq!(
        Err(LinkError::MultipleSymbolDefinitions),
        alloc_storage_and_symtables(&mut w, name("b"), second)
    );
    // the module is not in the session; its storage and the symbols before
    // the one that failed are
    assert_eq!(vec!["a"], w.session.ids);
    assert_eq!(1, w.info.symbol_tables.len());
    assert_eq!(0x1C, w.out.segments.get(&SegmentName::TEXT).unwrap().segment_len);
    assert_eq!(0x1C, w.out.object_data.get(&SegmentName::TEXT).unwrap().len());
    assert!(w.info.global_symtable.get(&symbol("foo")).is_some());
    assert!(w.info.global_symtable.get(&symbol("bar")).is_none());
    let main = w.info.global_symtable.get(&symbol("main")).unwrap();
    assert_eq!("a", main.0.as_ref().unwrap().defn_mod_id);
    // a module under an id of the session changes nothing
    let again = module(&[(".text", "RP", zeros(0x4))], &["baz 0 1 D"], &[]);
    assert_eq!(
        Err(LinkError::DuplicateObjectError),
        alloc_storage_and_symtables(&mut w, name("a"), again)
    );
    assert_eq!(0x1C, w.out.segments.get(&SegmentName::TEXT).unwrap().segment_len);
    assert!(w.info.global_symtable.get(&symbol("baz")).is_none());
}

#[test]
fn a_relocation_that_fails_leaves_those_before_it_applied() {
    let mut w = Work::new();
    let m = module(&[(".text", "RP", vec![0xEE; 8])], &[], &["0 1 1 A4", "6 1 1 A4"]);
    alloc_storage_and_symtables(&mut w, name("m"), m).unwrap();
    static_libs_symbol_lookup(&mut w, &vec![]).unwrap();
    let cfg = Config { text_start: 0x100, data_start_boundary: 0, bss_start_boundary: 0 };
    let bss_start = patch_segment_offsets(&mut w, &cfg).unwrap();
    common_block_allocation(&mut w, bss_start).unwrap();
    resolve_global_sym_offsets(&mut w).unwrap();
    assert_eq!(Err(LinkError::UnexpectedLinkError), run_relocations(&mut w, 0x100));
    let text = w.out.object_data.get(&SegmentName::TEXT).unwrap();
    assert_eq!(0x100, x_to_i4(text.get_at(0, 4).unwrap()).unwrap());
    assert_eq!(&[0xEE, 0xEE, 0xEE, 0xEE], text.get_at(4, 4).unwrap());
    assert_eq!(1, w.out.relocations.len());
    assert_eq!(0, w.out.relocations[0].rel_loc);
    assert_eq!(RelType::ER4, w.out.relocations[0].rel_type);
}

#[test]
fn a_layout_that_fails_changes_nothing() {
    let mut w = Work::new();
    let m = module(&[(".text", "RP", zeros(0x14))], &["main 0 1 D"], &[]);
    alloc_storage_and_symtables(&mut w, name("m"), m).unwrap();
    let cfg = Config { text_start: 0x7FFF_FFF0, data_start_boundary: 0, bss_start_boundary: 0 };
    assert!(patch_segment_offsets(&mut w, &cfg).is_err());
    assert_eq!(0, w.out.segments.get(&SegmentName::TEXT).unwrap().segment_start);
    assert_eq!(
        0,
        *w.info.segment_mapping.get(&name("m")).unwrap().get(&SegmentName::TEXT).unwrap()
    );
}

#[test]
fn relocation_before_its_segment() {
    // a location below zero is read as it stands; applied, it lies outside the segment
    let m = module(&[(".text", "RP", zeros(8))], &[], &["-4 1 1 A4"]);
    assert_eq!(-4, m.relocations[0].rel_loc);
    let mut editor = LinkerEditor::new(0x100, 0x0, 0x0, true);
    match link(&mut editor, vec![("mod_1", m)], no_static_libs(), no_wrap_routines()) {
        Err(e) => assert_eq!(LinkError::UnexpectedLinkError, e),
        Ok(_) => panic!("unexpected"),
    }
}

#[test]
fn common_blocks_in_any_order_and_among_other_symbols() {
    let orders: Vec<Vec<&str>> = vec![
        vec!["name 4 0 U", "name 8 0 U", "name 2 0 U"],
        vec!["name 8 0 U", "name 2 0 U", "name 4 0 U"],
        vec!["name 2 0 U", "name 4 0 U", "name 8 0 U"],
    ];
    for order in orders {
        let mods = vec![
            ("mod_1", plain_module(0x4, 0x4, 0x6, &["main 0 1 D", order[0], "used 0 0 U"], &[])),
            ("mod_2", plain_module(0x4, 0x4, 0x0, &[order[1], "used 0 1 D"], &[])),
            ("mod_3", plain_module(0x4, 0x4, 0x0, &["main 0 0 U", order[2]], &[])),
        ];
        let mut editor = LinkerEditor::new(0x10, 0x10, 0x4, true);
        let (out, info) = link(&mut editor, mods, no_static_libs(), no_wrap_routines()).unwrap();
        assert_eq!(1, info.common_block_mapping.len());
        assert_eq!(Some(&8), info.common_block_mapping.get(&symbol("name")));
        assert_eq!(0x6 + 8, out.segments.get(&SegmentName::BSS).unwrap().segment_len);
        assert_eq!(2, info.global_symtable.len());
        assert!(info.global_symtable.get(&symbol("name")).is_none());
    }
}

#[test]
fn a_second_definition_leaves_the_first() {
    let text = "LINK\n1 1 0\n.text 0 1 RP\nfoo 0 1 D\n00";
    let a = parse_object_file(String::from(text)).unwrap();
    let b = parse_object_file(String::from(text)).unwrap();
    let mut info = LinkerInfo::new();
    assert_eq!(Ok(()), build_symbol_tables(&mut info.global_symtable, &name("a"), &a));
    assert_eq!(
        Err(LinkError::MultipleSymbolDefinitions),
        build_symbol_tables(&mut info.global_symtable, &name("b"), &b)
    );
    assert_eq!(1, info.global_symtable.len());
    let foo = info.global_symtable.get(&symbol("foo")).unwrap();
    let defn = foo.0.as_ref().unwrap();
    assert_eq!("a", defn.defn_mod_id);
    assert_eq!(Some(0), defn.defn_ste_ix);
    assert_eq!(0, foo.1.len());
}

#[test]
fn an_address_that_overflows_writes_nothing() {
    let mut data = zeros(0x14);
    data[0] = 0xFF;
    data[1] = 0xFF;
    data[2] = 0xFF;
    data[3] = 0x00;
    let m = module(&[(".text", "RP", data.clone())], &["foo 10 1 D"], &["0 1 1 AS4"]);
    let mut w = Work::new();
    alloc_storage_and_symtables(&mut w, name("m"), m).unwrap();
    let cfg = Config { text_start: 0, data_start_boundary: 0, bss_start_boundary: 0 };
    let bss_start = patch_segment_offsets(&mut w, &cfg).unwrap();
    common_block_allocation(&mut w, bss_start).unwrap();
    resolve_global_sym_offsets(&mut w).unwrap();
    assert_eq!(Err(LinkError::AddressOverflowError), run_relocations(&mut w, 0));
    let text = w.out.object_data.get(&SegmentName::TEXT).unwrap();
    assert_eq!(&data[..], text.get_at(0, 0x14).unwrap());
    assert_eq!(0, w.out.relocations.len());
}
