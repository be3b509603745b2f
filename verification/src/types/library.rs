//! Static libraries in their three forms.

use crate::common::{MAGIC_NUMBER_LIB, MAP_FILE_NAME};
use crate::table::{deep, table_empty, table_put, Table, TableModel};
use crate::text::{
    chars_of, fields_of, hex_digits, join, join_lines, join_with, lemma_views_push, lines_of,
    parse_unsigned_hex, push_chars, push_hex, push_str, spells, split_fields, split_lines,
    string_of, unsigned_hex, views,
};
use crate::types::errors::LibError;
use crate::types::object::{
    object_from_chars, object_of, object_text, ObjectIn, ObjectView, MAGIC_NUMBER,
};
use crate::types::symbol_table::{SymbolId, SymbolTableEntry, SymbolView};
use crate::utils::{count_line_feeds, newlines};
use crate::types::stub::{StubLib, StubLibView};
use crate::types::symbol_table::SymbolName;
use vstd::prelude::*;

verus! {

/// A set of symbol names.
pub type SymbolSet = Table<SymbolName, ()>;

/// A library of object modules.
#[derive(Debug)]
#[allow(inconsistent_fields)]
pub enum StaticLib {
    /// A directory: for each module the symbols that it defines, and the modules by name.
    DirLib { libname: String, symbols: Table<String, SymbolSet>, objects: Table<String, ObjectIn> },
    /// A file: for each symbol the position of the module that defines it, and the modules.
    FileLib { libname: String, symbols: Table<SymbolName, usize>, objects: Vec<ObjectIn> },
    /// The description of a shared library.
    Stub(StubLib),
}

/// What a library holds.
#[allow(inconsistent_fields)]
pub enum LibView {
    DirLib {
        libname: Seq<char>,
        symbols: <Table<String, SymbolSet> as DeepView>::V,
        objects: <Table<String, ObjectIn> as DeepView>::V,
    },
    FileLib {
        libname: Seq<char>,
        symbols: <Table<SymbolName, usize> as DeepView>::V,
        objects: Seq<<ObjectIn as DeepView>::V>,
    },
    Stub(StubLibView),
}

impl DeepView for StaticLib {
    type V = LibView;

    open spec fn deep_view(&self) -> LibView {
        match self {
            StaticLib::DirLib { libname, symbols, objects } => LibView::DirLib {
                libname: libname@,
                symbols: symbols.deep_view(),
                objects: objects.deep_view(),
            },
            StaticLib::FileLib { libname, symbols, objects } => LibView::FileLib {
                libname: libname@,
                symbols: symbols.deep_view(),
                objects: objects.deep_view(),
            },
            StaticLib::Stub(stub) => LibView::Stub(stub.deep_view()),
        }
    }
}


/// The plain name with the given text.
pub open spec fn plain(text: Seq<char>) -> SymbolId {
    SymbolId { wrapped: false, text }
}

/// The set of the plain names that the fields from `from` up to `n` spell.
pub open spec fn symbol_set(fields: Seq<Seq<char>>, from: int, n: int) -> TableModel<SymbolId, ()>
    decreases n - from,
{
    if n <= from {
        table_empty()
    } else {
        table_put::<SymbolName, ()>(symbol_set(fields, from, n - 1), plain(fields[n - 1]), ())
    }
}

/// The map of a library directory after the first `n` lines of its `MAP`
/// file: each line names a module and then the symbols that it defines.
pub open spec fn read_map(
    symbols: TableModel<Seq<char>, TableModel<SymbolId, ()>>,
    lines: Seq<Seq<char>>,
    n: int,
) -> TableModel<Seq<char>, TableModel<SymbolId, ()>>
    decreases n,
{
    if n <= 0 {
        symbols
    } else {
        let fields = fields_of(lines[n - 1]);
        table_put::<String, TableModel<SymbolId, ()>>(
            read_map(symbols, lines, n - 1),
            fields[0],
            symbol_set(fields, 1, fields.len() as int),
        )
    }
}

/// A library directory while it is read.
pub struct DirParts {
    pub symbols: TableModel<Seq<char>, TableModel<SymbolId, ()>>,
    pub objects: TableModel<Seq<char>, ObjectView>,
}

/// A library directory after one more of its files: the file `MAP` gives
/// the map, every other file must be an object module.
pub open spec fn dir_file(parts: DirParts, name: Seq<char>, contents: Seq<char>) -> Result<
    DirParts,
    LibError,
> {
    if name == MAP_FILE_NAME@ {
        Ok(
            DirParts {
                symbols: read_map(
                    parts.symbols,
                    lines_of(contents),
                    lines_of(contents).len() as int,
                ),
                ..parts
            },
        )
    } else {
        match object_of(contents) {
            Err(e) => Err(LibError::ObjectParseFailure(e)),
            Ok(o) => Ok(
                DirParts { objects: table_put::<String, ObjectView>(parts.objects, name, o), ..parts },
            ),
        }
    }
}

/// A library directory after the first `n` of its files.
pub open spec fn dir_files(files: Seq<(Seq<char>, Seq<char>)>, n: int) -> Result<DirParts, LibError>
    decreases n,
{
    if n <= 0 {
        Ok(DirParts { symbols: table_empty(), objects: table_empty() })
    } else {
        match dir_files(files, n - 1) {
            Err(e) => Err(e),
            Ok(parts) => dir_file(parts, files[n - 1].0, files[n - 1].1),
        }
    }
}

/// Reading that fails on the first `k` files of a directory fails in the same way on more.
pub proof fn lemma_dir_files_err(files: Seq<(Seq<char>, Seq<char>)>, k: int, n: int)
    requires
        k <= n,
        dir_files(files, k) is Err,
    ensures
        dir_files(files, n) == dir_files(files, k),
    decreases n - k,
{
    if k < n {
        lemma_dir_files_err(files, k, n - 1);
    }
}

/// The library that a directory of the given name and files holds.
pub open spec fn dir_lib_of(libname: Seq<char>, files: Seq<(Seq<char>, Seq<char>)>) -> Result<
    LibView,
    LibError,
> {
    match dir_files(files, files.len() as int) {
        Err(e) => Err(e),
        Ok(parts) => Ok(LibView::DirLib { libname, symbols: parts.symbols, objects: parts.objects }),
    }
}

/// The set of the plain names that the fields from `from` on spell.
fn symbols_from(fields: &Vec<Vec<char>>, from: usize) -> (set: Table<SymbolName, ()>)
    ensures
        set.deep_view() == symbol_set(views(fields@), from as int, fields@.len() as int),
        set.keys@.len() == set.values@.len(),
{
    let mut set: Table<SymbolName, ()> = Table::new();
    let mut k: usize = from;
    if from >= fields.len() {
        return set;
    }
    while k < fields.len()
        invariant
            from <= k <= fields@.len(),
            set.keys@.len() == set.values@.len(),
            set.deep_view() == symbol_set(views(fields@), from as int, k as int),
        decreases fields@.len() - k,
    {
        let name = SymbolName::SName(string_of(fields[k].as_slice(), 0, fields[k].len()));
        assert(fields@[k as int]@.subrange(0, fields@[k as int]@.len() as int)
            =~= fields@[k as int]@);
        assert(name@ == plain(views(fields@)[k as int]));
        set.insert(name, ());
        k += 1;
    }
    set
}

/// Reads the lines of a `MAP` file into the map of a library directory.
fn read_map_lines(symbols: &mut Table<String, Table<SymbolName, ()>>, lines: &Vec<Vec<char>>)
    requires
        old(symbols).keys@.len() == old(symbols).values@.len(),
    ensures
        final(symbols).deep_view() == read_map(
            old(symbols).deep_view(),
            views(lines@),
            lines@.len() as int,
        ),
        final(symbols).keys@.len() == final(symbols).values@.len(),
{
    let mut k: usize = 0;
    while k < lines.len()
        invariant
            k <= lines@.len(),
            symbols.keys@.len() == symbols.values@.len(),
            symbols.deep_view() == read_map(old(symbols).deep_view(), views(lines@), k as int),
        decreases lines@.len() - k,
    {
        let fields = split_fields(lines[k].as_slice());
        assert(views(lines@)[k as int] == lines@[k as int]@);
        let name = string_of(fields[0].as_slice(), 0, fields[0].len());
        assert(fields@[0]@.subrange(0, fields@[0]@.len() as int) =~= fields@[0]@);
        assert(name@ == views(fields@)[0]);
        let set = symbols_from(&fields, 1);
        symbols.insert(name, set);
        k += 1;
    }
}

impl StaticLib {
    /// Reads a library directory from its name and its files, each given by
    /// its name and its contents.
    pub fn parse_dir_lib(libname: String, files: &Vec<(String, String)>) -> (r: Result<
        StaticLib,
        LibError,
    >)
        ensures
            match r {
                Ok(lib) => dir_lib_of(libname@, files.deep_view()) == Ok::<LibView, LibError>(
                    lib.deep_view(),
                ) && crate::linker::libs::lib_wf(lib.deep_view()),
                Err(e) => dir_lib_of(libname@, files.deep_view()) == Err::<LibView, LibError>(e),
            },
    {
        let ghost fs = files.deep_view();
        let mut symbols: Table<String, Table<SymbolName, ()>> = Table::new();
        let mut objects: Table<String, ObjectIn> = Table::new();
        let mut k: usize = 0;
        while k < files.len()
            invariant
                k <= files@.len(),
                fs == files.deep_view(),
                symbols.keys@.len() == symbols.values@.len(),
                objects.keys@.len() == objects.values@.len(),
                forall|i: int|
                    0 <= i < objects.values@.len() ==> (
                    #[trigger] objects.deep_view().values[i]).wf(),
                dir_files(fs, k as int) == Ok::<DirParts, LibError>(
                    DirParts { symbols: symbols.deep_view(), objects: objects.deep_view() },
                ),
            decreases files@.len() - k,
        {
            let name = &files[k].0;
            let contents = &files[k].1;
            assert(fs[k as int] == (name@, contents@));
            if crate::table::str_same(name.as_str(), MAP_FILE_NAME) {
                let text = chars_of(contents.as_str());
                let lines = split_lines(text.as_slice());
                read_map_lines(&mut symbols, &lines);
            } else {
                match crate::types::object::parse_object_file(contents.clone()) {
                    Err(e) => {
                        proof {
                            assert(dir_files(fs, k + 1) == Err::<DirParts, LibError>(
                                LibError::ObjectParseFailure(e),
                            ));
                            lemma_dir_files_err(fs, k + 1, fs.len() as int);
                        }
                        return Err(LibError::ObjectParseFailure(e));
                    },
                    Ok(o) => {
                        let ghost before = objects.deep_view();
                        proof {
                            crate::linker::libs::lemma_put_keeps::<String, ObjectView>(
                                before,
                                name@,
                                o@,
                            );
                        }
                        objects.insert(name.clone(), o);
                    },
                }
            }
            k += 1;
        }
        Ok(StaticLib::DirLib { libname, symbols, objects })
    }
}


/// What the first line of a library file says: `LIBRARY nmods dir_offset`.
pub open spec fn file_header(line: Seq<char>) -> Option<(int, int)> {
    let fields = fields_of(line);
    if fields.len() == 3 && fields[0] == MAGIC_NUMBER_LIB@ {
        match (
            unsigned_hex(fields[1], usize::MAX as int),
            unsigned_hex(fields[2], usize::MAX as int),
        ) {
            (Some(n), Some(d)) => Some((n, d)),
            _ => None,
        }
    } else {
        None
    }
}

/// The symbol directory of a library file with the names that the fields
/// from `from` up to `n` spell, each for the module at `index`.
pub open spec fn add_symbols(
    symbols: TableModel<SymbolId, usize>,
    fields: Seq<Seq<char>>,
    from: int,
    n: int,
    index: usize,
) -> TableModel<SymbolId, usize>
    decreases n - from,
{
    if n <= from {
        symbols
    } else {
        table_put::<SymbolName, usize>(
            add_symbols(symbols, fields, from, n - 1, index),
            plain(fields[n - 1]),
            index,
        )
    }
}

/// The module that the directory line at `at` of a library file points to:
/// the line says `offset len sym…`, and the module is the `len` lines from
/// line `offset` on, counted from 1, behind a magic line.
pub open spec fn file_module(lines: Seq<Seq<char>>, at: int) -> Result<ObjectView, LibError> {
    if !(0 <= at < lines.len()) {
        Err(LibError::ParseLibError)
    } else {
        let fields = fields_of(lines[at]);
        if fields.len() < 2 {
            Err(LibError::ParseLibError)
        } else {
            match (
                unsigned_hex(fields[0], usize::MAX as int),
                unsigned_hex(fields[1], usize::MAX as int),
            ) {
                (Some(off), Some(len)) => if off < 1 || off - 1 + len > lines.len() {
                    Err(LibError::ParseLibError)
                } else {
                    match object_of(
                        join_lines(seq![MAGIC_NUMBER@] + lines.subrange(off - 1, off - 1 + len)),
                    ) {
                        Err(e) => Err(LibError::ObjectParseFailure(e)),
                        Ok(o) => Ok(o),
                    }
                },
                _ => Err(LibError::ParseLibError),
            }
        }
    }
}

/// A library file while it is read.
pub struct FileParts {
    pub symbols: TableModel<SymbolId, usize>,
    pub objects: Seq<ObjectView>,
}

/// A library file after the first `n` lines of its directory, which begins
/// at line `dir`, counted from 1.
#[verifier::opaque]
pub open spec fn file_entries(lines: Seq<Seq<char>>, dir: int, n: int) -> Result<
    FileParts,
    LibError,
>
    decreases n,
{
    if n <= 0 {
        Ok(FileParts { symbols: table_empty(), objects: Seq::empty() })
    } else {
        match file_entries(lines, dir, n - 1) {
            Err(e) => Err(e),
            Ok(parts) => match file_module(lines, dir + n - 2) {
                Err(e) => Err(e),
                Ok(o) => {
                    let fields = fields_of(lines[dir + n - 2]);
                    Ok(
                        FileParts {
                            symbols: add_symbols(
                                parts.symbols,
                                fields,
                                2,
                                fields.len() as int,
                                (n - 1) as usize,
                            ),
                            objects: parts.objects.push(o),
                        },
                    )
                },
            },
        }
    }
}

/// Reading that fails on the first `k` directory lines fails in the same way on more.
pub proof fn lemma_file_entries_err(lines: Seq<Seq<char>>, dir: int, k: int, n: int)
    requires
        k <= n,
        file_entries(lines, dir, k) is Err,
    ensures
        file_entries(lines, dir, n) == file_entries(lines, dir, k),
    decreases n - k,
{
    reveal_with_fuel(file_entries, 2);
    if k < n {
        lemma_file_entries_err(lines, dir, k, n - 1);
    }
}

/// The library that a library file of the given name and text holds.
pub open spec fn file_lib_of(libname: Seq<char>, text: Seq<char>) -> Result<LibView, LibError> {
    let lines = lines_of(text);
    if lines.len() == 0 {
        Err(LibError::ParseLibError)
    } else {
        match file_header(lines[0]) {
            None => Err(LibError::ParseLibError),
            Some((n, dir)) => match file_entries(lines, dir, n) {
                Err(e) => Err(e),
                Ok(parts) => Ok(
                    LibView::FileLib { libname, symbols: parts.symbols, objects: parts.objects },
                ),
            },
        }
    }
}

/// One more directory line extends a library file that has read `k` of them.
pub proof fn lemma_file_entries_step(lines: Seq<Seq<char>>, dir: int, k: int)
    requires
        0 <= k,
        file_entries(lines, dir, k) is Ok,
    ensures
        file_entries(lines, dir, k + 1) == (match file_module(lines, dir + k - 1) {
            Err(e) => Err::<FileParts, LibError>(e),
            Ok(o) => Ok::<FileParts, LibError>(
                FileParts {
                    symbols: add_symbols(
                        file_entries(lines, dir, k)->Ok_0.symbols,
                        fields_of(lines[dir + k - 1]),
                        2,
                        fields_of(lines[dir + k - 1]).len() as int,
                        k as usize,
                    ),
                    objects: file_entries(lines, dir, k)->Ok_0.objects.push(o),
                },
            ),
        }),
{
    reveal_with_fuel(file_entries, 2);
}

/// The line of the directory entry `k`, counted from 0, if the file has it.
fn directory_line(total: usize, dir: usize, k: usize) -> (r: Option<usize>)
    ensures
        match r {
            Some(at) => at == dir + k - 1 && at < total,
            None => !(0 <= dir + k - 1 < total),
        },
{
    let at: u128 = dir as u128 + k as u128;
    if at < 1 || at - 1 >= total as u128 {
        None
    } else {
        Some((at - 1) as usize)
    }
}

/// Reads the header line of a library file.
fn read_file_header(line: &Vec<char>) -> (r: Option<(usize, usize)>)
    ensures
        match r {
            Some(h) => file_header(line@) == Some((h.0 as int, h.1 as int)),
            None => file_header(line@) is None,
        },
{
    let fields = split_fields(line.as_slice());
    if fields.len() != 3 {
        return None;
    }
    let ghost fs = views(fields@);
    assert(fs[0] == fields@[0]@ && fs[1] == fields@[1]@ && fs[2] == fields@[2]@);
    if !spells(fields[0].as_slice(), MAGIC_NUMBER_LIB) {
        return None;
    }
    let n = match parse_unsigned_hex(fields[1].as_slice(), usize::MAX as u64) {
        None => {
            return None;
        },
        Some(n) => n as usize,
    };
    let d = match parse_unsigned_hex(fields[2].as_slice(), usize::MAX as u64) {
        None => {
            return None;
        },
        Some(d) => d as usize,
    };
    Some((n, d))
}

/// Reads the module that a directory line points to; hands back the fields of the line too.
fn read_file_module(lines: &Vec<Vec<char>>, at: usize) -> (r: Result<
    (ObjectIn, Vec<Vec<char>>),
    LibError,
>)
    requires
        at < lines@.len(),
    ensures
        match r {
            Ok(p) => file_module(views(lines@), at as int) == Ok::<ObjectView, LibError>(p.0@)
                && p.0@.wf() && views(p.1@) == fields_of(views(lines@)[at as int]),
            Err(e) => file_module(views(lines@), at as int) == Err::<ObjectView, LibError>(e),
        },
{
    let ghost rows = views(lines@);
    assert(rows[at as int] == lines@[at as int]@);
    let fields = split_fields(lines[at].as_slice());
    if fields.len() < 2 {
        return Err(LibError::ParseLibError);
    }
    let ghost fs = views(fields@);
    assert(fs[0] == fields@[0]@ && fs[1] == fields@[1]@);
    let off = match parse_unsigned_hex(fields[0].as_slice(), usize::MAX as u64) {
        None => {
            return Err(LibError::ParseLibError);
        },
        Some(v) => v as usize,
    };
    let len = match parse_unsigned_hex(fields[1].as_slice(), usize::MAX as u64) {
        None => {
            return Err(LibError::ParseLibError);
        },
        Some(v) => v as usize,
    };
    if off < 1 || len > lines.len() || off - 1 > lines.len() - len {
        return Err(LibError::ParseLibError);
    }
    let first: usize = off - 1;
    let total: usize = lines.len();
    let mut body: Vec<Vec<char>> = Vec::new();
    let mut magic: Vec<char> = Vec::new();
    push_str(&mut magic, MAGIC_NUMBER);
    assert(magic@ =~= MAGIC_NUMBER@);
    body.push(magic);
    let mut k: usize = 0;
    assert(views(body@) =~= seq![MAGIC_NUMBER@] + rows.subrange(first as int, first as int));
    while k < len
        invariant
            k <= len,
            first + len <= total,
            total == lines@.len(),
            rows == views(lines@),
            views(body@) == seq![MAGIC_NUMBER@] + rows.subrange(first as int, first + k),
        decreases len - k,
    {
        let line = crate::text::slice_of(lines[first + k].as_slice(), 0, lines[first + k].len());
        assert(line@ =~= lines@[first + k]@);
        proof {
            lemma_views_push(body@, line);
            assert(seq![MAGIC_NUMBER@] + rows.subrange(first as int, first + k + 1) =~= (
            seq![MAGIC_NUMBER@] + rows.subrange(first as int, first + k)).push(rows[first + k]));
        }
        body.push(line);
        k += 1;
    }
    let text = join_with(&body, '\n');
    match object_from_chars(text.as_slice()) {
        Err(e) => Err(LibError::ObjectParseFailure(e)),
        Ok(o) => Ok((o, fields)),
    }
}

/// Enters the names that the fields from the third on spell, each for the module at `index`.
fn enter_file_symbols(symbols: &mut Table<SymbolName, usize>, fields: &Vec<Vec<char>>, index: usize)
    requires
        old(symbols).keys@.len() == old(symbols).values@.len(),
    ensures
        final(symbols).deep_view() == add_symbols(
            old(symbols).deep_view(),
            views(fields@),
            2,
            fields@.len() as int,
            index,
        ),
        final(symbols).keys@.len() == final(symbols).values@.len(),
{
    if fields.len() <= 2 {
        return ;
    }
    let mut k: usize = 2;
    while k < fields.len()
        invariant
            2 <= k <= fields@.len(),
            symbols.keys@.len() == symbols.values@.len(),
            symbols.deep_view() == add_symbols(
                old(symbols).deep_view(),
                views(fields@),
                2,
                k as int,
                index,
            ),
        decreases fields@.len() - k,
    {
        let name = SymbolName::SName(string_of(fields[k].as_slice(), 0, fields[k].len()));
        assert(fields@[k as int]@.subrange(0, fields@[k as int]@.len() as int)
            =~= fields@[k as int]@);
        assert(name@ == plain(views(fields@)[k as int]));
        symbols.insert(name, index);
        k += 1;
    }
}

impl StaticLib {
    /// Reads a library file from its name and its text.
    pub fn parse_file_lib(libname: String, contents: &str) -> (r: Result<StaticLib, LibError>)
        ensures
            match r {
                Ok(lib) => file_lib_of(libname@, contents@) == Ok::<LibView, LibError>(
                    lib.deep_view(),
                ) && crate::linker::libs::lib_wf(lib.deep_view()),
                Err(e) => file_lib_of(libname@, contents@) == Err::<LibView, LibError>(e),
            },
    {
        let text = chars_of(contents);
        let lines = split_lines(text.as_slice());
        let ghost rows = views(lines@);
        if lines.len() == 0 {
            return Err(LibError::ParseLibError);
        }
        assert(rows[0] == lines@[0]@);
        let (n, dir) = match read_file_header(&lines[0]) {
            None => {
                return Err(LibError::ParseLibError);
            },
            Some(h) => h,
        };
        let mut symbols: Table<SymbolName, usize> = Table::new();
        let mut objects: Vec<ObjectIn> = Vec::new();
        let mut k: usize = 0;
        assert(deep(objects@) =~= Seq::<ObjectView>::empty());
        assert(file_entries(rows, dir as int, 0) == Ok::<FileParts, LibError>(
            FileParts { symbols: table_empty(), objects: Seq::empty() },
        )) by {
            reveal_with_fuel(file_entries, 2);
        }
        while k < n
            invariant
                k <= n,
                rows == views(lines@),
                rows == lines_of(contents@),
                rows.len() > 0,
                file_header(rows[0]) == Some((n as int, dir as int)),
                symbols.keys@.len() == symbols.values@.len(),
                forall|i: int| 0 <= i < objects@.len() ==> (#[trigger] deep(objects@)[i]).wf(),
                file_entries(rows, dir as int, k as int) == Ok::<FileParts, LibError>(
                    FileParts { symbols: symbols.deep_view(), objects: deep(objects@) },
                ),
            decreases n - k,
        {
            let ghost parts = FileParts { symbols: symbols.deep_view(), objects: deep(objects@) };
            proof {
                lemma_file_entries_step(rows, dir as int, k as int);
            }
            let at = match directory_line(lines.len(), dir, k) {
                None => {
                    proof {
                        lemma_file_entries_err(rows, dir as int, k + 1, n as int);
                    }
                    return Err(LibError::ParseLibError);
                },
                Some(at) => at,
            };
            match read_file_module(&lines, at) {
                Err(e) => {
                    proof {
                        lemma_file_entries_err(rows, dir as int, k + 1, n as int);
                    }
                    return Err(e);
                },
                Ok((o, fields)) => {
                    enter_file_symbols(&mut symbols, &fields, k);
                    let ghost before = deep(objects@);
                    objects.push(o);
                    assert(deep(objects@) =~= before.push(o@));
                },
            }
            k += 1;
        }
        assert(file_lib_of(libname@, contents@) == Ok::<LibView, LibError>(
            LibView::FileLib { libname: libname@, symbols: symbols.deep_view(), objects: deep(objects@) },
        ));
        Ok(StaticLib::FileLib { libname, symbols, objects })
    }
}


/// The texts of the names of the symbols among the first `n` that their module defines.
pub open spec fn defined_names(syms: Seq<SymbolView>, n: int) -> Seq<Seq<char>>
    decreases n,
{
    if n <= 0 {
        Seq::empty()
    } else if syms[n - 1].is_defined() {
        defined_names(syms, n - 1).push(syms[n - 1].st_name.text)
    } else {
        defined_names(syms, n - 1)
    }
}

/// The line of a module in a `MAP` file: its name, then the names that it defines.
pub open spec fn map_line(id: Seq<char>, o: ObjectView) -> Seq<char> {
    join(seq![id] + defined_names(o.symbol_table, o.symbol_table.len() as int), seq![' '])
}

/// The text of the `MAP` file of a library directory: a line for each
/// module, in the order of the names of the modules.
pub open spec fn map_file_text(objects: TableModel<Seq<char>, ObjectView>) -> Seq<char> {
    join_lines(
        Seq::new(objects.keys.len(), |i: int| map_line(objects.keys[i], objects.values[i])),
    )
}

/// The number of lines that a module takes in a library file.
pub open spec fn body_len(o: ObjectView) -> int {
    (newlines(object_text(o, false), object_text(o, false).len() as int) + 1) as int
}

/// The line, counted from 1, at which the module at `n` of a library file begins.
pub open spec fn line_of(objects: Seq<ObjectView>, n: int) -> int
    decreases n,
{
    if n <= 0 {
        2
    } else {
        line_of(objects, n - 1) + body_len(objects[n - 1])
    }
}

/// The directory line of the module at `i` of a library file: where it
/// begins, how many lines it takes, and the names that it defines.
pub open spec fn directory_entry(objects: Seq<ObjectView>, i: int) -> Seq<char> {
    hex_digits(line_of(objects, i) as nat) + " "@ + hex_digits(body_len(objects[i]) as nat) + " "@
        + join(defined_names(objects[i].symbol_table, objects[i].symbol_table.len() as int), seq![' '])
}

/// The first line of a library file of the given modules.
pub open spec fn library_header(objects: Seq<ObjectView>) -> Seq<char> {
    MAGIC_NUMBER_LIB@ + " "@ + hex_digits(objects.len()) + " "@ + hex_digits(
        line_of(objects, objects.len() as int) as nat,
    )
}

/// The text of a library file: the header, the modules without their magic
/// lines, and the directory, in the order of the names of the modules.
pub open spec fn library_file_text(objects: Seq<ObjectView>) -> Seq<char> {
    join_lines(
        seq![library_header(objects)] + Seq::new(
            objects.len(),
            |i: int| object_text(objects[i], false),
        ) + Seq::new(objects.len(), |i: int| directory_entry(objects, i)),
    )
}

/// The modules of a library file begin at ascending lines, from the second on.
pub proof fn lemma_line_of_grows(objects: Seq<ObjectView>, k: int, n: int)
    requires
        0 <= k <= n,
    ensures
        2 <= line_of(objects, k) <= line_of(objects, n),
    decreases n,
{
    if n > 0 {
        if k < n {
            lemma_line_of_grows(objects, k, n - 1);
        } else {
            lemma_line_of_grows(objects, k - 1, n - 1);
        }
    }
}

/// The names of the symbols that a module defines.
fn names_defined(syms: &Vec<SymbolTableEntry>) -> (names: Vec<Vec<char>>)
    ensures
        views(names@) == defined_names(deep(syms@), syms@.len() as int),
{
    let mut names: Vec<Vec<char>> = Vec::new();
    let mut k: usize = 0;
    assert(views(names@) =~= Seq::<Seq<char>>::empty());
    while k < syms.len()
        invariant
            k <= syms@.len(),
            views(names@) == defined_names(deep(syms@), k as int),
        decreases syms@.len() - k,
    {
        assert(deep(syms@)[k as int] == syms@[k as int]@);
        if syms[k].is_defined() {
            let name = chars_of(syms[k].st_name.as_str());
            proof {
                lemma_views_push(names@, name);
            }
            names.push(name);
        }
        k += 1;
    }
    names
}

impl StaticLib {
    /// The text of the `MAP` file of a library directory of the given modules.
    pub fn make_map_file(objects: &Table<String, ObjectIn>) -> (s: String)
        requires
            objects.keys@.len() == objects.values@.len(),
        ensures
            s@ == map_file_text(objects.deep_view()),
    {
        let ghost t = objects.deep_view();
        let ghost all = Seq::new(t.keys.len(), |i: int| map_line(t.keys[i], t.values[i]));
        let mut lines: Vec<Vec<char>> = Vec::new();
        let mut k: usize = 0;
        while k < objects.keys.len()
            invariant
                k <= objects.keys@.len(),
                objects.keys@.len() == objects.values@.len(),
                t == objects.deep_view(),
                all == Seq::new(t.keys.len(), |i: int| map_line(t.keys[i], t.values[i])),
                views(lines@) =~= all.take(k as int),
            decreases objects.keys@.len() - k,
        {
            let o = &objects.values[k];
            assert(t.keys[k as int] == objects.keys@[k as int]@);
            assert(t.values[k as int] == o@);
            let names = names_defined(&o.symbol_table);
            let mut words: Vec<Vec<char>> = Vec::new();
            words.push(chars_of(objects.keys[k].as_str()));
            let mut j: usize = 0;
            while j < names.len()
                invariant
                    j <= names@.len(),
                    views(words@) =~= seq![t.keys[k as int]] + views(names@).take(j as int),
                decreases names@.len() - j,
            {
                let w = crate::text::slice_of(names[j].as_slice(), 0, names[j].len());
                assert(w@ =~= names@[j as int]@);
                proof {
                    lemma_views_push(words@, w);
                    assert(views(names@).take(j + 1) =~= views(names@).take(j as int).push(
                        names@[j as int]@,
                    ));
                }
                words.push(w);
                j += 1;
            }
            assert(views(names@).take(names@.len() as int) =~= views(names@));
            let line = join_with(&words, ' ');
            assert(line@ == map_line(t.keys[k as int], t.values[k as int]));
            proof {
                lemma_views_push(lines@, line);
                assert(all.take(k + 1) =~= all.take(k as int).push(all[k as int]));
            }
            lines.push(line);
            k += 1;
        }
        assert(all.take(all.len() as int) =~= all);
        let text = join_with(&lines, '\n');
        assert(text@.subrange(0, text@.len() as int) =~= text@);
        string_of(text.as_slice(), 0, text.len())
    }

    /// The text of a library file of the given modules; none if the file
    /// would have more lines than a 64-bit number counts.
    pub fn make_staticlib_file(objects: &Table<String, ObjectIn>) -> (r: Option<String>)
        requires
            objects.keys@.len() == objects.values@.len(),
        ensures
            match r {
                Some(s) => s@ == library_file_text(objects.deep_view().values) && line_of(
                    objects.deep_view().values,
                    objects.deep_view().values.len() as int,
                ) <= u64::MAX,
                None => line_of(
                    objects.deep_view().values,
                    objects.deep_view().values.len() as int,
                ) > u64::MAX,
            },
    {
        let ghost os = objects.deep_view().values;
        let n = objects.values.len();
        let ghost bodies_all = Seq::new(os.len(), |i: int| object_text(os[i], false));
        let ghost details_all = Seq::new(os.len(), |i: int| directory_entry(os, i));
        let mut bodies: Vec<Vec<char>> = Vec::new();
        let mut details: Vec<Vec<char>> = Vec::new();
        let mut offset: u64 = 2;
        let mut k: usize = 0;
        while k < n
            invariant
                k <= n,
                n == os.len(),
                os == objects.deep_view().values,
                bodies_all == Seq::new(os.len(), |i: int| object_text(os[i], false)),
                details_all == Seq::new(os.len(), |i: int| directory_entry(os, i)),
                offset == line_of(os, k as int),
                views(bodies@) =~= bodies_all.take(k as int),
                views(details@) =~= details_all.take(k as int),
            decreases n - k,
        {
            let o = &objects.values[k];
            assert(os[k as int] == o@);
            let printed = o.ppr(false);
            let body = chars_of(printed.as_str());
            let feeds = count_line_feeds(&body);
            if feeds as u64 >= u64::MAX - offset {
                proof {
                    lemma_line_of_grows(os, k + 1, n as int);
                }
                return None;
            }
            let len: u64 = feeds as u64 + 1;
            let names = names_defined(&o.symbol_table);
            let mut line: Vec<char> = Vec::new();
            push_hex(&mut line, offset as u128);
            push_str(&mut line, " ");
            push_hex(&mut line, len as u128);
            push_str(&mut line, " ");
            let joined = join_with(&names, ' ');
            push_chars(&mut line, joined.as_slice());
            assert(line@ =~= directory_entry(os, k as int));
            proof {
                lemma_views_push(bodies@, body);
                lemma_views_push(details@, line);
                assert(bodies_all.take(k + 1) =~= bodies_all.take(k as int).push(
                    bodies_all[k as int],
                ));
                assert(details_all.take(k + 1) =~= details_all.take(k as int).push(
                    details_all[k as int],
                ));
            }
            bodies.push(body);
            details.push(line);
            offset = offset + len;
            k += 1;
        }
        assert(bodies_all.take(n as int) =~= bodies_all);
        assert(details_all.take(n as int) =~= details_all);
        let mut header: Vec<char> = Vec::new();
        push_str(&mut header, MAGIC_NUMBER_LIB);
        push_str(&mut header, " ");
        push_hex(&mut header, n as u128);
        push_str(&mut header, " ");
        push_hex(&mut header, offset as u128);
        assert(header@ =~= library_header(os));
        let mut lines: Vec<Vec<char>> = Vec::new();
        lines.push(header);
        let ghost l0 = seq![library_header(os)];
        assert(views(lines@) =~= l0);
        append_lines(&mut lines, &bodies);
        append_lines(&mut lines, &details);
        assert(views(lines@) =~= l0 + bodies_all + details_all);
        let text = join_with(&lines, '\n');
        assert(text@.subrange(0, text@.len() as int) =~= text@);
        Some(string_of(text.as_slice(), 0, text.len()))
    }
}

/// Appends copies of the lines of `more`.
pub fn append_lines(lines: &mut Vec<Vec<char>>, more: &Vec<Vec<char>>)
    ensures
        views(final(lines)@) == views(old(lines)@) + views(more@),
{
    let ghost start = views(lines@);
    let mut k: usize = 0;
    assert(start + views(more@).take(0) =~= start);
    while k < more.len()
        invariant
            k <= more@.len(),
            views(lines@) == start + views(more@).take(k as int),
        decreases more@.len() - k,
    {
        let line = crate::text::slice_of(more[k].as_slice(), 0, more[k].len());
        assert(line@ =~= more@[k as int]@);
        proof {
            lemma_views_push(lines@, line);
            assert(start + views(more@).take(k + 1) =~= (start + views(more@).take(k as int)).push(
                more@[k as int]@,
            ));
        }
        lines.push(line);
        k += 1;
    }
    assert(views(more@).take(more@.len() as int) =~= views(more@));
}


impl StaticLib {
    /// Whether the library is well formed.
    pub fn check(&self) -> (b: bool)
        ensures
            b == crate::linker::libs::lib_wf(self.deep_view()),
    {
        match self {
            StaticLib::DirLib { libname, symbols, objects } => {
                let ok = crate::types::object::check_modules(&objects.values);
                assert(objects.deep_view().values == deep(objects.values@));
                assert(ok == crate::linker::libs::modules_wf(objects.deep_view().values));
                symbols.keys.len() == symbols.values.len() && objects.keys.len()
                    == objects.values.len() && ok
            },
            StaticLib::FileLib { libname, symbols, objects } => {
                let ok = crate::types::object::check_modules(objects);
                assert(ok == crate::linker::libs::modules_wf(deep(objects@)));
                symbols.keys.len() == symbols.values.len() && ok
            },
            StaticLib::Stub(stub) => stub.check(),
        }
    }
}

/// Whether each of the libraries is well formed.
pub fn check_libs(libs: &Vec<StaticLib>) -> (b: bool)
    ensures
        b == crate::linker::libs::libs_wf(deep(libs@)),
{
    let mut k: usize = 0;
    while k < libs.len()
        invariant
            k <= libs@.len(),
            forall|i: int| 0 <= i < k ==> crate::linker::libs::lib_wf(#[trigger] deep(libs@)[i]),
        decreases libs@.len() - k,
    {
        assert(deep(libs@)[k as int] == libs@[k as int].deep_view());
        if !libs[k].check() {
            return false;
        }
        k += 1;
    }
    true
}


/// The modules that the first `n` files hold, by the names of the files.
pub open spec fn objects_of(files: Seq<(Seq<char>, Seq<char>)>, n: int) -> Result<
    TableModel<Seq<char>, ObjectView>,
    LibError,
>
    decreases n,
{
    if n <= 0 {
        Ok(table_empty())
    } else {
        match objects_of(files, n - 1) {
            Err(e) => Err(e),
            Ok(objects) => match object_of(files[n - 1].1) {
                Err(e) => Err(LibError::ObjectParseFailure(e)),
                Ok(o) => Ok(table_put::<String, ObjectView>(objects, files[n - 1].0, o)),
            },
        }
    }
}

/// Reading that fails on the first `k` object files fails in the same way on more.
pub proof fn lemma_objects_of_err(files: Seq<(Seq<char>, Seq<char>)>, k: int, n: int)
    requires
        k <= n,
        objects_of(files, k) is Err,
    ensures
        objects_of(files, n) == objects_of(files, k),
    decreases n - k,
{
    if k < n {
        lemma_objects_of_err(files, k, n - 1);
    }
}

/// The files of the library directory that is built from the given object
/// files: the object files as they are, then the `MAP` file.
pub open spec fn dirlib_files(files: Seq<(Seq<char>, Seq<char>)>) -> Result<
    Seq<(Seq<char>, Seq<char>)>,
    LibError,
> {
    match objects_of(files, files.len() as int) {
        Err(e) => Err(e),
        Ok(objects) => Ok(files.push((MAP_FILE_NAME@, map_file_text(objects)))),
    }
}

/// The text of the library file that is built from the given object files.
pub open spec fn filelib_text(files: Seq<(Seq<char>, Seq<char>)>) -> Result<Seq<char>, LibError> {
    match objects_of(files, files.len() as int) {
        Err(e) => Err(e),
        Ok(objects) => if line_of(objects.values, objects.values.len() as int) > u64::MAX {
            Err(LibError::UnexpectedLibError)
        } else {
            Ok(library_file_text(objects.values))
        },
    }
}

impl StaticLib {
    /// Reads object files, each given by its name and its contents.
    pub fn read_objects(files: &Vec<(String, String)>) -> (r: Result<
        Table<String, ObjectIn>,
        LibError,
    >)
        ensures
            match r {
                Ok(t) => objects_of(files.deep_view(), files@.len() as int) == Ok::<
                    TableModel<Seq<char>, ObjectView>,
                    LibError,
                >(t.deep_view()) && t.keys@.len() == t.values@.len()
                    && crate::linker::libs::modules_wf(t.deep_view().values),
                Err(e) => objects_of(files.deep_view(), files@.len() as int) == Err::<
                    TableModel<Seq<char>, ObjectView>,
                    LibError,
                >(e),
            },
    {
        let ghost fs = files.deep_view();
        let mut objects: Table<String, ObjectIn> = Table::new();
        let mut k: usize = 0;
        while k < files.len()
            invariant
                k <= files@.len(),
                fs == files.deep_view(),
                objects.keys@.len() == objects.values@.len(),
                crate::linker::libs::modules_wf(objects.deep_view().values),
                objects_of(fs, k as int) == Ok::<TableModel<Seq<char>, ObjectView>, LibError>(
                    objects.deep_view(),
                ),
            decreases files@.len() - k,
        {
            let name = &files[k].0;
            let contents = &files[k].1;
            assert(fs[k as int] == (name@, contents@));
            match crate::types::object::parse_object_file(contents.clone()) {
                Err(e) => {
                    proof {
                        assert(objects_of(fs, k + 1) is Err);
                        lemma_objects_of_err(fs, k + 1, fs.len() as int);
                    }
                    return Err(LibError::ObjectParseFailure(e));
                },
                Ok(o) => {
                    proof {
                        crate::linker::libs::lemma_put_keeps::<String, ObjectView>(
                            objects.deep_view(),
                            name@,
                            o@,
                        );
                    }
                    objects.insert(name.clone(), o);
                },
            }
            k += 1;
        }
        Ok(objects)
    }

    /// The files of the library directory that is built from the given
    /// object files, each given by its name and its contents.
    pub fn build_static_dirlib(object_files: &Vec<(String, String)>) -> (r: Result<
        Vec<(String, String)>,
        LibError,
    >)
        ensures
            match r {
                Ok(out) => dirlib_files(object_files.deep_view()) == Ok::<
                    Seq<(Seq<char>, Seq<char>)>,
                    LibError,
                >(out.deep_view()),
                Err(e) => dirlib_files(object_files.deep_view()) == Err::<
                    Seq<(Seq<char>, Seq<char>)>,
                    LibError,
                >(e),
            },
    {
        let objects = match StaticLib::read_objects(object_files) {
            Err(e) => {
                return Err(e);
            },
            Ok(t) => t,
        };
        let mut out: Vec<(String, String)> = Vec::new();
        let mut k: usize = 0;
        while k < object_files.len()
            invariant
                k <= object_files@.len(),
                out.deep_view() =~= object_files.deep_view().take(k as int),
            decreases object_files@.len() - k,
        {
            let ghost before = out.deep_view();
            let pair = (object_files[k].0.clone(), object_files[k].1.clone());
            out.push(pair);
            assert(out.deep_view() =~= before.push(pair.deep_view()));
            assert(object_files.deep_view().take(k + 1) =~= object_files.deep_view().take(
                k as int,
            ).push(object_files@[k as int].deep_view()));
            k += 1;
        }
        assert(object_files.deep_view().take(object_files@.len() as int)
            =~= object_files.deep_view());
        let ghost before = out.deep_view();
        let map = (crate::text::string_of_str(MAP_FILE_NAME), StaticLib::make_map_file(&objects));
        out.push(map);
        assert(out.deep_view() =~= before.push(map.deep_view()));
        Ok(out)
    }

    /// The text of the library file that is built from the given object
    /// files, each given by its name and its contents.
    pub fn build_static_filelib(object_files: &Vec<(String, String)>) -> (r: Result<
        String,
        LibError,
    >)
        ensures
            match r {
                Ok(s) => filelib_text(object_files.deep_view()) == Ok::<Seq<char>, LibError>(s@),
                Err(e) => filelib_text(object_files.deep_view()) == Err::<Seq<char>, LibError>(e),
            },
    {
        let objects = match StaticLib::read_objects(object_files) {
            Err(e) => {
                return Err(e);
            },
            Ok(t) => t,
        };
        match StaticLib::make_staticlib_file(&objects) {
            None => Err(LibError::UnexpectedLibError),
            Some(s) => Ok(s),
        }
    }
}


/// What a library is read from: the files of a directory, each given by its
/// name and its contents, or the text of a single file.
#[derive(Debug)]
pub enum LibSource {
    Dir(Vec<(String, String)>),
    File(String),
}

impl StaticLib {
    /// Reads a library of the given name: a library directory from the
    /// files of a directory, a library file from the text of a file.
    pub fn parse(libname: String, source: &LibSource) -> (r: Result<StaticLib, LibError>)
        ensures
            match source {
                LibSource::Dir(files) => match r {
                    Ok(lib) => dir_lib_of(libname@, files.deep_view()) == Ok::<LibView, LibError>(
                        lib.deep_view(),
                    ) && crate::linker::libs::lib_wf(lib.deep_view()),
                    Err(e) => dir_lib_of(libname@, files.deep_view()) == Err::<LibView, LibError>(
                        e,
                    ),
                },
                LibSource::File(contents) => match r {
                    Ok(lib) => file_lib_of(libname@, contents@) == Ok::<LibView, LibError>(
                        lib.deep_view(),
                    ) && crate::linker::libs::lib_wf(lib.deep_view()),
                    Err(e) => file_lib_of(libname@, contents@) == Err::<LibView, LibError>(e),
                },
            },
    {
        match source {
            LibSource::Dir(files) => StaticLib::parse_dir_lib(libname, files),
            LibSource::File(contents) => StaticLib::parse_file_lib(libname, contents.as_str()),
        }
    }
}

} // verus!
