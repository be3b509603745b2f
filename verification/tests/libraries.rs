use linkerloader::gen::{gen_obj_data, obj_data_text};
use linkerloader::librarian::Librarian;
use linkerloader::linker::editor::LinkerEditor;
use linkerloader::table::Table;
use linkerloader::types::errors::{LibError, LinkError, ParseError};
use linkerloader::types::library::{check_libs, LibSource, StaticLib};
use linkerloader::types::object::{check_modules, parse_object_file, ObjectIn};
use linkerloader::types::relocation::{RelRef, RelType, Relocation};
use linkerloader::types::segment::{parse_segment_data, SegmentName};
use linkerloader::types::stub::{StubLib, StubMember, StubTarget};
use linkerloader::types::symbol_table::{symbol, wrapped_symbol, SymbolName};

fn no_wrap_routines() -> Vec<SymbolName> {
    vec![]
}

fn name(s: &str) -> String {
    String::from(s)
}

fn hex(len: usize) -> String {
    let mut words = vec![];
    for _ in 0..len {
        words.push("00");
    }
    words.join(" ")
}

/// The text of a module with `.text`, `.data` and `.bss` of the given lengths.
fn lib_module(text: usize, data: usize, bss: usize, syms: &[&str]) -> String {
    let mut lines = vec![String::from("LINK")];
    lines.push(format!("3 {:X} 0", syms.len()));
    lines.push(format!(".text 0 {:X} RP", text));
    lines.push(format!(".data {:X} {:X} RWP", text, data));
    lines.push(format!(".bss {:X} {:X} RW", text + data, bss));
    for s in syms {
        lines.push(String::from(*s));
    }
    lines.push(hex(text));
    lines.push(hex(data));
    lines.push(hex(bss));
    lines.join("\n")
}

fn file(name: &str, contents: &str) -> (String, String) {
    (String::from(name), String::from(contents))
}

fn libmod_1() -> String {
    lib_module(0x1E, 0x5, 0x4, &["foo 0 1 D", "another_foo 8 1 D", "printf 10 1 D"])
}

fn libmod_2() -> String {
    lib_module(0x8, 0x5, 0x4, &["bar 0 1 D", "noway 4 1 D"])
}

fn libmod_3() -> String {
    lib_module(0xA, 0x5, 0x4, &["baz 0 1 D", "malloc 4 1 D"])
}

fn lib_objects() -> Vec<(String, String)> {
    vec![
        file("libmod_1", &libmod_1()),
        file("libmod_2", &libmod_2()),
        file("libmod_3", &libmod_3()),
    ]
}

fn plain_objects(mods: Vec<(&str, String)>) -> Table<String, ObjectIn> {
    let mut t = Table::new();
    for (n, text) in mods {
        t.insert(String::from(n), parse_object_file(text).unwrap());
    }
    t
}

fn static_dir() -> Vec<(String, String)> {
    let mut files = vec![file(
        "MAP",
        "libmod_1 foo another_foo\nlibmod_2 bar\nlibmod_3 baz",
    )];
    files.push(file("libmod_1", &lib_module(4, 0, 1, &["foo 0 1 D", "another_foo 2 1 D"])));
    files.push(file("libmod_2", &lib_module(4, 0, 1, &["bar 0 1 D"])));
    files.push(file("libmod_3", &lib_module(4, 0, 1, &["baz 0 1 D"])));
    files
}

#[test]
fn static_lib_dir() {
    match StaticLib::parse_dir_lib(name("static_lib_dir"), &static_dir()) {
        Ok(StaticLib::DirLib { symbols, objects, libname }) => {
            assert_eq!("static_lib_dir", libname);
            assert_eq!(3, symbols.len());
            assert_eq!(3, objects.len());
            assert!(symbols.contains_key(&name("libmod_1")));
            assert!(symbols.get(&name("libmod_1")).unwrap().contains_key(&symbol("foo")));
            assert!(symbols
                .get(&name("libmod_1"))
                .unwrap()
                .contains_key(&symbol("another_foo")));
            assert!(symbols.contains_key(&name("libmod_2")));
            assert!(symbols.get(&name("libmod_2")).unwrap().contains_key(&symbol("bar")));
            assert!(symbols.contains_key(&name("libmod_3")));
            assert!(symbols.get(&name("libmod_3")).unwrap().contains_key(&symbol("baz")));
            assert!(!symbols.get(&name("libmod_3")).unwrap().contains_key(&symbol("bar")));
        }
        Ok(_) => panic!("unexpected form of library"),
        Err(e) => panic!("{:?}", e),
    }
}

#[test]
fn static_lib_dir_with_a_bad_module() {
    let mut files = static_dir();
    files.push(file("libmod_4", "LINK\n1 0 0\n.text 0 1 RP\n"));
    match StaticLib::parse_dir_lib(name("lib"), &files) {
        Err(e) => assert_eq!(LibError::ObjectParseFailure(ParseError::InvalidObjectData), e),
        Ok(_) => panic!("unexpected"),
    }
}

fn static_file() -> String {
    let m1 = lib_module(4, 0, 1, &["foo 0 1 D", "another_foo 2 1 D"]);
    let m2 = lib_module(4, 0, 1, &["bar 0 1 D"]);
    let m3 = lib_module(4, 0, 1, &["baz 0 1 D"]);
    let mut lines = vec![String::from("LIBRARY 3 1B")];
    for m in [m1, m2, m3] {
        // without the magic line
        for l in m.lines().skip(1) {
            lines.push(String::from(l));
        }
    }
    lines.push(String::from("2 9 foo another_foo"));
    lines.push(String::from("B 8 bar"));
    lines.push(String::from("13 8 baz"));
    lines.join("\n")
}

#[test]
fn static_lib_file() {
    match StaticLib::parse_file_lib(name("static_lib_file"), &static_file()) {
        Ok(StaticLib::FileLib { symbols, objects, .. }) => {
            assert_eq!(3, objects.len());
            assert_eq!(4, symbols.len());
            assert_eq!(0, *symbols.get(&symbol("foo")).unwrap());
            assert_eq!(0, *symbols.get(&symbol("another_foo")).unwrap());
            assert_eq!(1, *symbols.get(&symbol("bar")).unwrap());
            assert_eq!(2, *symbols.get(&symbol("baz")).unwrap());
            assert_eq!(2, objects[0].nsyms);
            assert_eq!(1, objects[2].nsyms);
        }
        Ok(_) => panic!("unexpected form of library"),
        Err(e) => panic!("{:?}", e),
    }
}

#[test]
fn library_by_its_source() {
    match StaticLib::parse(name("lib"), &LibSource::Dir(static_dir())) {
        Ok(StaticLib::DirLib { objects, .. }) => assert_eq!(3, objects.len()),
        _ => panic!("unexpected"),
    }
    match StaticLib::parse(name("lib"), &LibSource::File(static_file())) {
        Ok(StaticLib::FileLib { objects, .. }) => assert_eq!(3, objects.len()),
        _ => panic!("unexpected"),
    }
}

#[test]
fn static_lib_file_errors() {
    for text in [
        "",
        "LIBRARY 1",
        "ARCHIVE 1 2",
        "LIBRARY x 2",
        "LIBRARY 1 0",
        "LIBRARY 1 5",
        "LIBRARY 1 2\n0 1",
        "LIBRARY 1 2\n2",
        "LIBRARY 1 2\n1 5 foo",
    ] {
        match StaticLib::parse_file_lib(name("lib"), text) {
            Err(e) => assert_eq!(LibError::ParseLibError, e),
            Ok(_) => panic!("unexpected: {}", text),
        }
    }
    match StaticLib::parse_file_lib(name("lib"), "LIBRARY 1 3\nx 0 0\n2 1 foo") {
        Err(e) => assert_eq!(LibError::ObjectParseFailure(ParseError::InvalidNSegsValue), e),
        Ok(_) => panic!("unexpected"),
    }
}

#[test]
fn build_static_lib_dir() {
    let mut librarian = Librarian::new(false);
    match librarian.build_libdir(&lib_objects()) {
        Err(_) => panic!("build_static_lib_dir"),
        Ok(files) => {
            assert_eq!(4, files.len());
            assert_eq!("libmod_1", files[0].0);
            assert_eq!(libmod_1(), files[0].1);
            assert_eq!("MAP", files[3].0);
            assert_eq!(
                "libmod_1 foo another_foo printf\nlibmod_2 bar noway\nlibmod_3 baz malloc",
                files[3].1
            );
            match StaticLib::parse_dir_lib(name("staticlib"), &files) {
                Ok(StaticLib::DirLib { symbols, .. }) => {
                    assert_eq!(3, symbols.len());
                    assert!(symbols.contains_key(&name("libmod_1")));
                    assert!(symbols.get(&name("libmod_1")).unwrap().contains_key(&symbol("foo")));
                    assert!(symbols
                        .get(&name("libmod_1"))
                        .unwrap()
                        .contains_key(&symbol("another_foo")));
                    assert!(symbols.contains_key(&name("libmod_2")));
                    assert!(symbols.get(&name("libmod_2")).unwrap().contains_key(&symbol("bar")));
                    assert!(symbols.contains_key(&name("libmod_3")));
                    assert!(symbols.get(&name("libmod_3")).unwrap().contains_key(&symbol("baz")));
                }
                Ok(_) => panic!("unexpected form of library"),
                Err(e) => panic!("build_static_lib_dir: {e:?}"),
            }
        }
    }
}

fn four_symbols() -> Vec<(String, String)> {
    vec![
        file("libmod_3", &lib_module(4, 0, 1, &["baz 0 1 D", "qux 0 0 U"])),
        file("libmod_1", &lib_module(4, 2, 1, &["foo 0 1 D", "another_foo 2 1 D"])),
        file("libmod_2", &lib_module(4, 0, 1, &["bar 0 1 D"])),
    ]
}

#[test]
fn build_static_lib_file() {
    let mut librarian = Librarian::new(false);
    match librarian.build_libfile(&four_symbols()) {
        Err(_) => panic!("build_static_lib_file"),
        Ok(text) => {
            let lines: Vec<&str> = text.lines().collect();
            // the modules stand in the order of their names
            assert_eq!("LIBRARY 3 1C", lines[0]);
            assert_eq!("3 2 0", lines[1]);
            assert_eq!("2 9 foo another_foo", lines[0x1B]);
            assert_eq!("B 8 bar", lines[0x1C]);
            assert_eq!("13 9 baz", lines[0x1D]);
            match StaticLib::parse_file_lib(name("staticlibfile"), &text) {
                Ok(StaticLib::FileLib { symbols, objects, .. }) => {
                    assert_eq!(3, objects.len());
                    assert_eq!(4, symbols.len());
                    assert!(symbols.contains_key(&symbol("foo")));
                    assert!(symbols.contains_key(&symbol("another_foo")));
                    assert!(symbols.contains_key(&symbol("bar")));
                    assert!(symbols.contains_key(&symbol("baz")));
                    assert!(!symbols.contains_key(&symbol("random")));
                    assert_eq!(4, symbols.len());
                    assert_eq!(0, *symbols.get(&symbol("foo")).unwrap());
                    assert_eq!(0, *symbols.get(&symbol("another_foo")).unwrap());
                    assert_eq!(1, *symbols.get(&symbol("bar")).unwrap());
                    assert_eq!(2, *symbols.get(&symbol("baz")).unwrap());
                }
                Ok(_) => panic!("unexpected form of library"),
                Err(e) => panic!("build_static_lib_file: {e:?}"),
            }
        }
    }
}

#[test]
fn build_static_lib_with_a_bad_module() {
    let mut librarian = Librarian::new(true);
    let files = vec![file("libmod_1", "LINK\n")];
    assert_eq!(
        Err(LibError::ObjectParseFailure(ParseError::MissingNSegsNSumsNRels)),
        librarian.build_libfile(&files)
    );
    match librarian.build_libdir(&files) {
        Err(e) => assert_eq!(LibError::ObjectParseFailure(ParseError::MissingNSegsNSumsNRels), e),
        Ok(_) => panic!("unexpected"),
    }
}

fn three_mods() -> Table<String, ObjectIn> {
    plain_objects(vec![
        ("mod_1", lib_module(0x14, 0xA, 0x4, &["main 0 1 D", "printf 0 0 U"])),
        ("mod_2", lib_module(0x14, 0xA, 0x4, &["f2 0 1 D", "malloc 0 0 U"])),
        ("mod_3", lib_module(0x14, 0xF, 0x4, &["f3 0 1 D", "main 0 0 U"])),
    ])
}

fn libs_for_three_mods() -> Vec<(String, String)> {
    vec![
        file("libmod_1", &lib_module(0x1E, 0x5, 0x4, &["printf 0 1 D", "puts 8 1 D"])),
        file("libmod_2", &lib_module(0x8, 0x5, 0x4, &["noway 0 1 D"])),
        file("libmod_3", &lib_module(0xA, 0x5, 0x4, &["malloc 0 1 D", "free 4 1 D"])),
    ]
}

#[test]
fn link_with_static_libs() {
    // first build static libs
    let mut librarian = Librarian::new(false);
    let files = librarian.build_libdir(&libs_for_three_mods()).unwrap();

    // now link
    let text_start = 0x10;
    let staticlib = StaticLib::parse_dir_lib(name("staticlib"), &files).unwrap();
    let mut editor = LinkerEditor::new(text_start, 0x10, 0x4, false);
    match editor.link(three_mods(), vec![staticlib], no_wrap_routines()) {
        Ok((out, info)) => {
            assert_eq!(5, info.symbol_tables.len());
            assert_eq!(7, info.global_symtable.len());
            assert!(info.global_symtable.get(&symbol("malloc")).is_some());
            assert!(info.global_symtable.get(&symbol("printf")).is_some());
            assert!(info.global_symtable.get(&symbol("noway")).is_none());
            let text_seg_len = out.segments.get(&SegmentName::TEXT).unwrap().segment_len;
            let data_seg_len = out.segments.get(&SegmentName::DATA).unwrap().segment_len;
            let bss_seg_len = out.segments.get(&SegmentName::BSS).unwrap().segment_len;
            assert_eq!(0x64, text_seg_len);
            assert_eq!(0x2D, data_seg_len);
            assert_eq!(0x14, bss_seg_len);
            assert_eq!(
                text_start + text_seg_len - 0xA - 0x1E, // minus lib_1 and lib_3 text seg lengths
                *info
                    .segment_mapping
                    .get(&name("libmod_1"))
                    .unwrap()
                    .get(&SegmentName::TEXT)
                    .unwrap()
            );
            assert_eq!(
                text_start + text_seg_len - 0xA, // minus lib_3 text seg length
                *info
                    .segment_mapping
                    .get(&name("libmod_3"))
                    .unwrap()
                    .get(&SegmentName::TEXT)
                    .unwrap()
            );
            // the modules of the session, in the order in which they came
            assert_eq!(5, editor.session_objects.len());
            assert_eq!("libmod_1", editor.session_objects.ids[3]);
            assert_eq!("libmod_3", editor.session_objects.ids[4]);
        }
        Err(e) => panic!("link_with_static_libs: {e:?}"),
    }
}

#[test]
fn link_with_static_libs_duplicate_symbol() {
    let mut librarian = Librarian::new(false);
    let files = librarian
        .build_libdir(&vec![file(
            "libmod_1",
            &lib_module(0x1E, 0x2, 0x4, &["printf 0 1 D", "main 8 1 D"]),
        )])
        .unwrap();
    let text_start = 0x10;
    let staticlib = StaticLib::parse_dir_lib(name("staticlib"), &files).unwrap();
    let mut editor = LinkerEditor::new(text_start, 0x10, 0x4, false);
    let objects = plain_objects(vec![(
        "mod_1",
        lib_module(0x14, 0xA, 0x4, &["main 0 1 D", "printf 0 0 U"]),
    )]);
    match editor.link(objects, vec![staticlib], no_wrap_routines()) {
        Err(e) => assert_eq!(LinkError::MultipleSymbolDefinitions, e),
        Ok(_) => {
            panic!("link_with_static_libs_duplicate_symbol: unexpected Ok")
        }
    }
}

fn two_libs(last: &str) -> Vec<StaticLib> {
    let mut librarian = Librarian::new(false);
    let lib1 = librarian
        .build_libdir(&vec![file(
            "libmod_1",
            &lib_module(0x1E, 0x2, 0x4, &["exec 0 1 D", "printf 0 0 U"]),
        )])
        .unwrap();
    let lib2 = librarian
        .build_libdir(&vec![file("liblibmod_1", &lib_module(0x1E, 0x2, 0x4, &["printf 0 1 D", last]))])
        .unwrap();
    vec![
        StaticLib::parse_dir_lib(name("staticlib1"), &lib1).unwrap(),
        StaticLib::parse_dir_lib(name("staticlib2"), &lib2).unwrap(),
    ]
}

#[test]
fn link_with_static_libs_lib_deps() {
    let text_start = 0x10;
    let mut editor = LinkerEditor::new(text_start, 0x10, 0x4, false);
    let objects = plain_objects(vec![(
        "mod_1",
        lib_module(0x14, 0xA, 0x4, &["main 0 1 D", "exec 0 0 U"]),
    )]);
    match editor.link(objects, two_libs("main 0 0 U"), no_wrap_routines()) {
        Ok((_out, info)) => {
            assert_eq!(3, info.symbol_tables.len());
            assert_eq!(3, info.global_symtable.len());
            assert!(info.global_symtable.get(&symbol("exec")).is_some());
            assert!(info.global_symtable.get(&symbol("printf")).is_some());
            assert!(info.global_symtable.get(&symbol("nope")).is_none());
        }
        Err(e) => panic!("link_with_static_libs_lib_deps: {e:?}"),
    }
}

#[test]
fn link_with_static_libs_lib_deps_undef() {
    let text_start = 0x10;
    let mut editor = LinkerEditor::new(text_start, 0x10, 0x4, false);
    let objects = plain_objects(vec![(
        "mod_1",
        lib_module(0x14, 0xA, 0x4, &["main 0 1 D", "exec 0 0 U"]),
    )]);
    match editor.link(objects, two_libs("nope 0 0 U"), no_wrap_routines()) {
        Err(e) => assert_eq!(LinkError::UndefinedSymbolError, e),
        Ok(_) => {
            panic!("link_with_static_libs_lib_deps_undef: unexpected Ok")
        }
    }
}

#[test]
fn link_with_static_libs_single_file() {
    // first build static libs
    let mut librarian = Librarian::new(false);
    let text = librarian.build_libfile(&libs_for_three_mods()).unwrap();

    // now link
    let text_start = 0x10;
    let staticlib = StaticLib::parse_file_lib(name("staticlibfile"), &text).unwrap();
    let mut editor = LinkerEditor::new(text_start, 0x10, 0x4, false);
    match editor.link(three_mods(), vec![staticlib], no_wrap_routines()) {
        Ok((out, info)) => {
            assert_eq!(5, info.symbol_tables.len());
            assert_eq!(7, info.global_symtable.len());
            assert!(info.global_symtable.get(&symbol("malloc")).is_some());
            assert!(info.global_symtable.get(&symbol("printf")).is_some());
            assert!(info.global_symtable.get(&symbol("noway")).is_none());
            let text_seg_len = out.segments.get(&SegmentName::TEXT).unwrap().segment_len;
            let data_seg_len = out.segments.get(&SegmentName::DATA).unwrap().segment_len;
            let bss_seg_len = out.segments.get(&SegmentName::BSS).unwrap().segment_len;
            assert_eq!(0x64, text_seg_len);
            assert_eq!(0x2D, data_seg_len);
            assert_eq!(0x14, bss_seg_len);
            assert_eq!(
                text_start + text_seg_len - 0xA - 0x1E, // minus lib_1 and lib_3 text seg lengths
                *info
                    .segment_mapping
                    .get(&name("staticlibfile_mod_0"))
                    .unwrap()
                    .get(&SegmentName::TEXT)
                    .unwrap()
            );
            assert_eq!(
                text_start + text_seg_len - 0xA, // minus lib_3 text seg length
                *info
                    .segment_mapping
                    .get(&name("staticlibfile_mod_2"))
                    .unwrap()
                    .get(&SegmentName::TEXT)
                    .unwrap()
            );
        }
        Err(e) => panic!("link_with_static_libs_single_file: {e:?}"),
    }
}

#[test]
fn a_module_is_pulled_once() {
    // both names that are looked for stand in one module of the library
    let mut librarian = Librarian::new(true);
    let files = librarian
        .build_libdir(&vec![file(
            "libmod_1",
            &lib_module(0x1E, 0x2, 0x4, &["printf 0 1 D", "puts 8 1 D"]),
        )])
        .unwrap();
    let lib = StaticLib::parse_dir_lib(name("staticlib"), &files).unwrap();
    let mut editor = LinkerEditor::new(0x10, 0x10, 0x4, false);
    let objects = plain_objects(vec![(
        "mod_1",
        lib_module(0x14, 0xA, 0x4, &["main 0 1 D", "printf 0 0 U", "puts 0 0 U"]),
    )]);
    let (out, info) = editor.link(objects, vec![lib], no_wrap_routines()).unwrap();
    assert_eq!(2, info.symbol_tables.len());
    assert_eq!(2, info.segment_mapping.len());
    assert!(info.symbol_tables.contains_key(&name("libmod_1")));
    assert!(info.segment_mapping.contains_key(&name("libmod_1")));
    assert_eq!(2, editor.session_objects.len());
    assert_eq!(0x14 + 0x1E, out.segments.get(&SegmentName::TEXT).unwrap().segment_len);
    assert_eq!(0xA + 0x2, out.segments.get(&SegmentName::DATA).unwrap().segment_len);
    assert_eq!(0x4 + 0x4, out.segments.get(&SegmentName::BSS).unwrap().segment_len);
}

#[test]
fn a_library_module_under_the_name_of_an_input_module() {
    let mut librarian = Librarian::new(true);
    let files = librarian
        .build_libdir(&vec![file("mod_1", &lib_module(0x1E, 0x2, 0x4, &["printf 0 1 D"]))])
        .unwrap();
    let lib = StaticLib::parse_dir_lib(name("staticlib"), &files).unwrap();
    let mut editor = LinkerEditor::new(0x10, 0x10, 0x4, false);
    let objects = plain_objects(vec![(
        "mod_1",
        lib_module(0x14, 0xA, 0x4, &["main 0 1 D", "printf 0 0 U"]),
    )]);
    match editor.link(objects, vec![lib], no_wrap_routines()) {
        Err(e) => assert_eq!(LinkError::DuplicateObjectError, e),
        Ok(_) => panic!("unexpected"),
    }
}

fn stub_files() -> Vec<(String, String)> {
    vec![
        file("LIBRARY NAME", "libc\nlibm\nlibdl"),
        file("MAP", "stdio printf puts\nstdlib malloc"),
        file("stdio", "STUB\nprintf 1000\nputs 1040\nsin libm"),
        file("stdlib", "STUB\nmalloc 2000\n"),
    ]
}

#[test]
fn stub_lib_parse() {
    let lib = StubLib::parse(&stub_files()).unwrap();
    assert_eq!("libc", lib.libname);
    assert_eq!(vec![name("libm"), name("libdl")], lib.deps);
    assert_eq!(2, lib.members.len());
    assert_eq!(2, lib.defs.len());
    assert_eq!(
        &vec![symbol("printf"), symbol("puts")],
        lib.defs.get(&name("stdio")).unwrap()
    );
    let stdio = lib.members.get(&name("stdio")).unwrap();
    assert_eq!("stdio", stdio.name);
    assert_eq!(3, stdio.syms.len());
    match stdio.syms.get(&symbol("printf")).unwrap() {
        StubTarget::Addr(a) => assert_eq!(0x1000, *a),
        _ => panic!("unexpected"),
    }
    match stdio.syms.get(&symbol("sin")).unwrap() {
        StubTarget::Lib(l) => assert_eq!("libm", l),
        _ => panic!("unexpected"),
    }
    assert!(lib.check());
}

#[test]
fn stub_lib_parse_errors() {
    match StubLib::parse(&vec![file("stdio", "")]) {
        Err(e) => assert_eq!(LibError::StubMemberParseFailure(ParseError::MissingMagicNumber), e),
        Ok(_) => panic!("unexpected"),
    }
    match StubLib::parse(&vec![file("stdio", "STAB\nprintf 1000")]) {
        Err(e) => assert_eq!(LibError::StubMemberParseFailure(ParseError::InvalidMagicNumber), e),
        Ok(_) => panic!("unexpected"),
    }
    match StubLib::parse_stub_member("stdio", "STUB\nprintf") {
        Err(e) => assert_eq!(ParseError::UnexpectedParseError, e),
        Ok(_) => panic!("unexpected"),
    }
    let empty = StubLib::parse(&vec![]).unwrap();
    assert_eq!("stublib", empty.libname);
    assert_eq!(0, StubLib::new(name("x")).members.len());
}

#[test]
fn stub_lib_texts() {
    let lib = StubLib::parse(&stub_files()).unwrap();
    assert_eq!("libc\nlibm\nlibdl", lib.make_library_file());
    assert_eq!("stdio printf puts\nstdlib malloc", lib.make_map_file());
    let stdio = lib.members.get(&name("stdio")).unwrap();
    assert_eq!("STUB\nprintf 1000\nputs 1040\nsin libm", stdio.serialize());
    let mut syms = Table::new();
    syms.insert(wrapped_symbol("foo"), StubTarget::Addr(0x2A));
    let member = StubMember::new(name("m"), syms);
    assert_eq!("STUB\nwrap_foo 2A", member.serialize());
}

fn stub(libname: &str, members: Vec<(&str, &str)>) -> StaticLib {
    let mut files = vec![file("LIBRARY NAME", libname)];
    for (n, text) in members {
        files.push(file(n, text));
    }
    StaticLib::Stub(StubLib::parse(&files).unwrap())
}

fn wants_printf() -> Table<String, ObjectIn> {
    plain_objects(vec![(
        "mod_1",
        lib_module(0x14, 0xA, 0x4, &["main 0 1 D", "printf 0 0 U"]),
    )])
}

fn link_with(libs: Vec<StaticLib>) -> Result<Option<i32>, LinkError> {
    assert!(check_libs(&libs));
    let mut editor = LinkerEditor::new(0x10, 0x10, 0x4, true);
    match editor.link(wants_printf(), libs, no_wrap_routines()) {
        Err(e) => Err(e),
        Ok((_out, info)) => {
            let defn = info.global_symtable.get(&symbol("printf")).unwrap().0.as_ref().unwrap();
            assert!(defn.defn_ste_ix.is_none());
            Ok(defn.defn_addr)
        }
    }
}

#[test]
fn link_with_a_stub_library() {
    let libs = vec![stub("libc", vec![("stdio", "STUB\nprintf 1000")])];
    assert_eq!(Ok(Some(0x1000)), link_with(libs));
}

#[test]
fn link_with_a_chain_of_stub_libraries() {
    let libs = vec![
        stub("libc", vec![("stdio", "STUB\nprintf libio")]),
        stub("libio", vec![("out", "STUB\nputs 10\nprintf 2040")]),
    ];
    assert_eq!(Ok(Some(0x2040)), link_with(libs));
}

#[test]
fn link_with_a_stub_library_that_leads_nowhere() {
    let libs = vec![stub("libc", vec![("stdio", "STUB\nprintf libio")])];
    assert_eq!(Err(LinkError::SharedLibRefDefnNotFound), link_with(libs));
    let libs = vec![
        stub("libc", vec![("stdio", "STUB\nprintf libio")]),
        stub("libio", vec![("out", "STUB\nputs 10")]),
    ];
    assert_eq!(Err(LinkError::SharedLibRefDefnNotFound), link_with(libs));
}

#[test]
fn link_with_stub_libraries_in_a_circle() {
    let libs = vec![
        stub("libc", vec![("stdio", "STUB\nprintf libio")]),
        stub("libio", vec![("out", "STUB\nprintf libc")]),
    ];
    assert_eq!(Err(LinkError::SharedLibsReferenceCycle), link_with(libs));
    let libs = vec![stub("libc", vec![("stdio", "STUB\nprintf libc")])];
    assert_eq!(Err(LinkError::SharedLibsReferenceCycle), link_with(libs));
}

#[test]
fn random_object_data() {
    for len in [0usize, 1, 2, 17] {
        let text = gen_obj_data(len);
        assert_eq!(if len == 0 { 0 } else { 3 * len - 1 }, text.len());
        let data = parse_segment_data(len, &text).unwrap();
        assert_eq!(len, data.len());
    }
    assert_eq!("00 0A FF", obj_data_text(vec![0, 10, 255]));
}

#[test]
fn shared_library_of_a_library() {
    let files = vec![
        file("libmod_1", &lib_module(0x8, 0x4, 0x4, &["printf 0 1 D", "malloc 0 0 U"])),
        file("libmod_2", &lib_module(0x8, 0x4, 0x4, &["malloc 4 2 D"])),
    ];
    let dir = Librarian::new(true).build_libdir(&files).unwrap();
    let lib = StaticLib::parse_dir_lib(name("libc"), &dir).unwrap();
    assert!(lib.check());
    assert_eq!(2, lib.modules().len());
    let (out, info) = lib.build_shared_lib(0x1000, vec![]).unwrap();
    assert_eq!(2, out.nsyms);
    assert_eq!(symbol("malloc"), out.symbol_table[0].st_name);
    assert_eq!(0x1010 + 0x4 + 0x4, out.symbol_table[0].st_value);
    assert_eq!(symbol("printf"), out.symbol_table[1].st_name);
    assert_eq!(0x1000, out.symbol_table[1].st_value);
    assert_eq!(2, info.symbol_tables.len());
    assert_eq!(0x1000, out.segments.get(&SegmentName::TEXT).unwrap().segment_start);
    // the library of a file under the ids of its modules
    let text = Librarian::new(true).build_libfile(&files).unwrap();
    let lib = StaticLib::parse_file_lib(name("libc"), &text).unwrap();
    let own = lib.modules();
    assert_eq!(vec!["libc_mod_0", "libc_mod_1"], own.keys);
    let mut librarian = Librarian::new(true);
    let (out, _info) = librarian.build_static_shared_lib(&lib, vec![], 0x2000).unwrap();
    assert_eq!(0x2000, out.symbol_table[1].st_value);
    // the library asks another for what it leaves undefined
    let needy = StaticLib::parse_dir_lib(
        name("libn"),
        &Librarian::new(true)
            .build_libdir(&vec![file(
                "libmod_1",
                &lib_module(0x8, 0x4, 0x4, &["puts 0 1 D", "write 0 0 U"]),
            )])
            .unwrap(),
    )
    .unwrap();
    assert_eq!(
        Err(LinkError::UndefinedSymbolError),
        needy.build_shared_lib(0, vec![]).map(|_| ())
    );
    let deps = vec![stub("libsys", vec![("io", "STUB\nwrite 7000")])];
    let (out, _info) = needy.build_shared_lib(0, deps).unwrap();
    assert_eq!(symbol("write"), out.symbol_table[1].st_name);
    assert_eq!(0x7000, out.symbol_table[1].st_value);
}

#[test]
fn modules_that_are_not_well_formed() {
    let good = parse_object_file(lib_module(4, 2, 1, &["f 0 1 D"])).unwrap();
    assert!(good.check());
    let mut counts = good.duplicate();
    counts.nsyms = 2;
    assert!(!counts.check());
    let mut data = good.duplicate();
    data.segments[0].segment_len = 5;
    assert!(!data.check());
    let mut got = good.duplicate();
    got.segments[1].segment_name = SegmentName::GOT;
    assert!(!got.check());
    let mut symbol_segment = good.duplicate();
    symbol_segment.symbol_table[0].st_seg = 4;
    assert!(!symbol_segment.check());
    for r in [
        Relocation { rel_loc: 0, rel_seg: SegmentName::TEXT, rel_ref: RelRef::NoRef, rel_type: RelType::A4 },
        Relocation { rel_loc: 0, rel_seg: SegmentName::TEXT, rel_ref: RelRef::SegmentRef(3), rel_type: RelType::A4 },
        Relocation { rel_loc: 0, rel_seg: SegmentName::TEXT, rel_ref: RelRef::SymbolRef(1), rel_type: RelType::U2 },
        Relocation { rel_loc: 0, rel_seg: SegmentName::GOT, rel_ref: RelRef::NoRef, rel_type: RelType::ER4 },
    ] {
        let mut bad = good.duplicate();
        bad.relocations.push(r);
        bad.nrels = 1;
        assert!(!bad.check());
    }
    let mut fine = good.duplicate();
    fine.relocations.push(Relocation {
        rel_loc: 0,
        rel_seg: SegmentName::DATA,
        rel_ref: RelRef::SymbolRef(0),
        rel_type: RelType::GP4,
    });
    fine.nrels = 1;
    assert!(fine.check());
    assert!(check_modules(&vec![good.duplicate(), fine]));
    assert!(!check_modules(&vec![good, counts]));
}

#[test]
fn only_undefined_names_are_looked_up() {
    // the module that is pulled refers to `main`, which has a definition:
    // the other module of the library that defines `main` stays out
    let mut librarian = Librarian::new(true);
    let files = librarian
        .build_libdir(&vec![
            file("libmod_1", &lib_module(0x8, 0x2, 0x4, &["printf 0 1 D", "main 0 0 U"])),
            file("libmod_2", &lib_module(0x8, 0x2, 0x4, &["main 0 1 D"])),
        ])
        .unwrap();
    let lib = StaticLib::parse_dir_lib(name("staticlib"), &files).unwrap();
    let mut editor = LinkerEditor::new(0x10, 0x10, 0x4, true);
    let (_out, info) = editor.link(wants_printf(), vec![lib], no_wrap_routines()).unwrap();
    assert_eq!(2, info.symbol_tables.len());
    assert_eq!(vec!["mod_1", "libmod_1"], editor.session_objects.ids);
    let main = info.global_symtable.get(&symbol("main")).unwrap();
    assert_eq!("mod_1", main.0.as_ref().unwrap().defn_mod_id);
    assert!(main.1.contains_key(&name("libmod_1")));
}

#[test]
fn the_first_library_that_offers_a_name_gives_it() {
    // the first library defines both names in one module; the module of the
    // second library, which defines them too, stays out
    let mut librarian = Librarian::new(true);
    let text = librarian
        .build_libfile(&vec![file(
            "libmod_1",
            &lib_module(0x1E, 0x2, 0x4, &["printf 0 1 D", "puts 8 1 D"]),
        )])
        .unwrap();
    let first = StaticLib::parse_file_lib(name("first"), &text).unwrap();
    let files = librarian
        .build_libdir(&vec![file(
            "other",
            &lib_module(0x8, 0x2, 0x4, &["printf 0 1 D", "puts 4 1 D"]),
        )])
        .unwrap();
    let second = StaticLib::parse_dir_lib(name("second"), &files).unwrap();
    let mut editor = LinkerEditor::new(0x10, 0x10, 0x4, true);
    let objects = plain_objects(vec![(
        "mod_1",
        lib_module(0x14, 0xA, 0x4, &["main 0 1 D", "printf 0 0 U", "puts 0 0 U"]),
    )]);
    let (out, info) = editor.link(objects, vec![first, second], no_wrap_routines()).unwrap();
    assert_eq!(vec!["mod_1", "first_mod_0"], editor.session_objects.ids);
    assert_eq!(2, info.symbol_tables.len());
    assert_eq!(0x14 + 0x1E, out.segments.get(&SegmentName::TEXT).unwrap().segment_len);
    for n in ["printf", "puts"] {
        let entry = info.global_symtable.get(&symbol(n)).unwrap();
        assert_eq!("first_mod_0", entry.0.as_ref().unwrap().defn_mod_id);
    }
}

#[test]
fn a_stub_member_gives_each_of_its_names() {
    let libs = vec![stub("libc", vec![("stdio", "STUB\nprintf 1000\nputs 1010")])];
    let objects = plain_objects(vec![(
        "mod_1",
        lib_module(0x14, 0xA, 0x4, &["main 0 1 D", "printf 0 0 U", "puts 0 0 U"]),
    )]);
    let mut editor = LinkerEditor::new(0x10, 0x10, 0x4, true);
    let (_out, info) = editor.link(objects, libs, no_wrap_routines()).unwrap();
    let printf = info.global_symtable.get(&symbol("printf")).unwrap().0.as_ref().unwrap();
    let puts = info.global_symtable.get(&symbol("puts")).unwrap().0.as_ref().unwrap();
    assert_eq!(Some(0x1000), printf.defn_addr);
    assert_eq!(Some(0x1010), puts.defn_addr);
    assert_eq!(vec!["mod_1"], editor.session_objects.ids);
}

#[test]
fn a_name_that_waits_is_not_asked_for_again() {
    // `printf` waits when the module of the library that refers to it comes
    // in: the stub library is asked for it once
    let mut librarian = Librarian::new(true);
    let files = librarian
        .build_libdir(&vec![file(
            "libmod_1",
            &lib_module(0x8, 0x2, 0x4, &["zexec 0 1 D", "printf 0 0 U"]),
        )])
        .unwrap();
    let lib = StaticLib::parse_dir_lib(name("staticlib"), &files).unwrap();
    let libc = stub("libc", vec![("stdio", "STUB\nprintf 1000")]);
    let objects = plain_objects(vec![(
        "mod_1",
        lib_module(0x14, 0xA, 0x4, &["main 0 1 D", "printf 0 0 U", "zexec 0 0 U"]),
    )]);
    let mut editor = LinkerEditor::new(0x10, 0x10, 0x4, true);
    let (_out, info) = editor.link(objects, vec![lib, libc], no_wrap_routines()).unwrap();
    assert_eq!(vec!["mod_1", "libmod_1"], editor.session_objects.ids);
    let printf = info.global_symtable.get(&symbol("printf")).unwrap();
    assert_eq!(Some(0x1000), printf.0.as_ref().unwrap().defn_addr);
    assert!(printf.1.contains_key(&name("mod_1")));
    assert!(printf.1.contains_key(&name("libmod_1")));
}

#[test]
fn a_link_that_fails_leaves_the_editor_as_it_was() {
    let mut editor = LinkerEditor::new(0x10, 0x10, 0x4, true);
    editor.link(wants_printf(), vec![stub("libc", vec![("stdio", "STUB\nprintf 1000")])], no_wrap_routines()).unwrap();
    assert_eq!(vec!["mod_1"], editor.session_objects.ids);
    let objects = plain_objects(vec![
        ("mod_a", lib_module(0x14, 0xA, 0x4, &["main 0 1 D"])),
        ("mod_b", lib_module(0x14, 0xA, 0x4, &["main 0 1 D"])),
    ]);
    assert_eq!(
        Some(LinkError::MultipleSymbolDefinitions),
        editor.link(objects, vec![], no_wrap_routines()).err()
    );
    assert_eq!(vec!["mod_1"], editor.session_objects.ids);
    assert!(editor.silent);
    assert_eq!(0x10, editor.text_start);
}
