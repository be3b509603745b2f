//! Stub libraries: what a shared library exports, without its code.

use crate::common::{
    Address, LibName, StubMemberName, LIB_NAME_FILE, MAP_FILE_NAME, STUB_MAGIC_NUMBER,
};
use crate::table::{deep, lemma_deep_vec, table_empty, table_put, Table, TableModel};
use crate::text::{
    chars_of, fields_of, hex_i32, join, join_lines, join_with, lemma_views_push, lines_of,
    parse_signed_hex, push_hex_i32, push_str, signed_hex, spells, split_fields, split_lines,
    split_words, string_of, views, words_of,
};
use crate::types::errors::{LibError, ParseError};
use crate::types::library::plain;
use crate::types::symbol_table::{symbol_text, SymbolId, SymbolName};
use vstd::prelude::*;

verus! {

/// Where a stub says a symbol is defined: at an address of the shared image,
/// or in another library.
#[derive(Debug)]
pub enum StubTarget {
    Addr(Address),
    Lib(LibName),
}

/// What a stub target holds.
pub enum StubTargetView {
    Addr(i32),
    Lib(Seq<char>),
}

impl DeepView for StubTarget {
    type V = StubTargetView;

    open spec fn deep_view(&self) -> StubTargetView {
        match self {
            StubTarget::Addr(a) => StubTargetView::Addr(*a),
            StubTarget::Lib(l) => StubTargetView::Lib(l@),
        }
    }
}

/// A member of a stub library: for each symbol that it exports, where the
/// symbol is defined.
#[derive(Debug)]
pub struct StubMember {
    pub name: StubMemberName,
    pub syms: Table<SymbolName, StubTarget>,
}

/// What a stub member holds.
pub struct StubMemberView {
    pub name: Seq<char>,
    pub syms: <Table<SymbolName, StubTarget> as DeepView>::V,
}

impl DeepView for StubMember {
    type V = StubMemberView;

    open spec fn deep_view(&self) -> StubMemberView {
        StubMemberView { name: self.name@, syms: self.syms.deep_view() }
    }
}

impl StubMember {
    /// The member of the given name and symbols.
    pub fn new(name: StubMemberName, syms: Table<SymbolName, StubTarget>) -> (m: StubMember)
        ensures
            m.name == name,
            m.syms == syms,
    {
        StubMember { name, syms }
    }
}

/// A stub library: its name, its members, the symbols that each member
/// defines, and the names of the libraries that it depends on.
#[derive(Debug)]
pub struct StubLib {
    pub libname: LibName,
    pub members: Table<StubMemberName, StubMember>,
    pub defs: Table<StubMemberName, Vec<SymbolName>>,
    pub deps: Vec<LibName>,
}

/// What a stub library holds.
pub struct StubLibView {
    pub libname: Seq<char>,
    pub members: <Table<StubMemberName, StubMember> as DeepView>::V,
    pub defs: <Table<StubMemberName, Vec<SymbolName>> as DeepView>::V,
    pub deps: Seq<Seq<char>>,
}

impl DeepView for StubLib {
    type V = StubLibView;

    open spec fn deep_view(&self) -> StubLibView {
        StubLibView {
            libname: self.libname@,
            members: self.members.deep_view(),
            defs: self.defs.deep_view(),
            deps: self.deps.deep_view(),
        }
    }
}

impl StubLib {
    /// The stub library of the given name, without members.
    pub fn new(name: String) -> (l: StubLib)
        ensures
            l.libname == name,
            l.members.keys@.len() == 0,
            l.members.values@.len() == 0,
            l.defs.keys@.len() == 0,
            l.deps@.len() == 0,
    {
        StubLib { libname: name, members: Table::new(), defs: Table::new(), deps: Vec::new() }
    }
}


/// What a line of a stub member says: `name value`, the value an address in
/// hexadecimal or else the name of a library.
pub open spec fn stub_line(line: Seq<char>) -> Result<(SymbolId, StubTargetView), ParseError> {
    let w = words_of(line, true);
    if w.len() != 2 {
        Err(ParseError::UnexpectedParseError)
    } else {
        Ok(
            (
                plain(w[0]),
                match signed_hex(w[1]) {
                    Some(a) => StubTargetView::Addr(a as i32),
                    None => StubTargetView::Lib(w[1]),
                },
            ),
        )
    }
}

/// The symbols of a stub member after the lines from the second up to `n`.
pub open spec fn stub_syms(lines: Seq<Seq<char>>, n: int) -> Result<
    TableModel<SymbolId, StubTargetView>,
    ParseError,
>
    decreases n,
{
    if n <= 1 {
        Ok(table_empty())
    } else {
        match stub_syms(lines, n - 1) {
            Err(e) => Err(e),
            Ok(syms) => match stub_line(lines[n - 1]) {
                Err(e) => Err(e),
                Ok(p) => Ok(table_put::<SymbolName, StubTargetView>(syms, p.0, p.1)),
            },
        }
    }
}

/// Reading that fails on the first `k` lines of a member fails in the same way on more.
pub proof fn lemma_stub_syms_err(lines: Seq<Seq<char>>, k: int, n: int)
    requires
        k <= n,
        stub_syms(lines, k) is Err,
    ensures
        stub_syms(lines, n) == stub_syms(lines, k),
    decreases n - k,
{
    if k < n {
        lemma_stub_syms_err(lines, k, n - 1);
    }
}

/// The stub member that a file of the given name and text holds.
pub open spec fn stub_member_of(name: Seq<char>, contents: Seq<char>) -> Result<
    StubMemberView,
    ParseError,
> {
    let lines = lines_of(contents);
    if lines.len() == 0 {
        Err(ParseError::MissingMagicNumber)
    } else if lines[0] != STUB_MAGIC_NUMBER@ {
        Err(ParseError::InvalidMagicNumber)
    } else {
        match stub_syms(lines, lines.len() as int) {
            Err(e) => Err(e),
            Ok(syms) => Ok(StubMemberView { name, syms }),
        }
    }
}

/// How a stub target is written.
pub open spec fn target_text(t: StubTargetView) -> Seq<char> {
    match t {
        StubTargetView::Addr(a) => hex_i32(a as int),
        StubTargetView::Lib(l) => l,
    }
}

/// The text of a stub member: the magic line, then a line for each symbol.
pub open spec fn stub_text(m: StubMemberView) -> Seq<char> {
    join_lines(
        seq![STUB_MAGIC_NUMBER@] + Seq::new(
            m.syms.keys.len(),
            |i: int| symbol_text(m.syms.keys[i]) + " "@ + target_text(m.syms.values[i]),
        ),
    )
}

impl StubMember {
    /// The text of the member.
    pub fn serialize(&self) -> (s: String)
        requires
            self.syms.keys@.len() == self.syms.values@.len(),
        ensures
            s@ == stub_text(self.deep_view()),
    {
        let ghost m = self.deep_view();
        let ghost all = Seq::new(
            m.syms.keys.len(),
            |i: int| symbol_text(m.syms.keys[i]) + " "@ + target_text(m.syms.values[i]),
        );
        let mut lines: Vec<Vec<char>> = Vec::new();
        let mut magic: Vec<char> = Vec::new();
        push_str(&mut magic, STUB_MAGIC_NUMBER);
        assert(magic@ =~= STUB_MAGIC_NUMBER@);
        lines.push(magic);
        let mut k: usize = 0;
        assert(views(lines@) =~= seq![STUB_MAGIC_NUMBER@] + all.take(0));
        while k < self.syms.keys.len()
            invariant
                k <= self.syms.keys@.len(),
                self.syms.keys@.len() == self.syms.values@.len(),
                m == self.deep_view(),
                all == Seq::new(
                    m.syms.keys.len(),
                    |i: int| symbol_text(m.syms.keys[i]) + " "@ + target_text(m.syms.values[i]),
                ),
                views(lines@) == seq![STUB_MAGIC_NUMBER@] + all.take(k as int),
            decreases self.syms.keys@.len() - k,
        {
            assert(m.syms.keys[k as int] == self.syms.keys@[k as int]@);
            assert(m.syms.values[k as int] == self.syms.values@[k as int].deep_view());
            let mut line: Vec<char> = Vec::new();
            let name = self.syms.keys[k].to_string();
            push_str(&mut line, name.as_str());
            push_str(&mut line, " ");
            match &self.syms.values[k] {
                StubTarget::Addr(a) => push_hex_i32(&mut line, *a),
                StubTarget::Lib(l) => push_str(&mut line, l.as_str()),
            }
            assert(line@ =~= all[k as int]);
            proof {
                lemma_views_push(lines@, line);
                assert(seq![STUB_MAGIC_NUMBER@] + all.take(k + 1) =~= (seq![STUB_MAGIC_NUMBER@]
                    + all.take(k as int)).push(all[k as int]));
            }
            lines.push(line);
            k += 1;
        }
        assert(all.take(all.len() as int) =~= all);
        let text = join_with(&lines, '\n');
        assert(text@.subrange(0, text@.len() as int) =~= text@);
        string_of(text.as_slice(), 0, text.len())
    }
}

/// The plain names that the fields from `from` up to `n` spell, in their order.
pub open spec fn name_list(fields: Seq<Seq<char>>, from: int, n: int) -> Seq<SymbolId>
    decreases n - from,
{
    if n <= from {
        Seq::empty()
    } else {
        name_list(fields, from, n - 1).push(plain(fields[n - 1]))
    }
}

/// The definitions of a stub library after the first `n` lines of its `MAP` file.
pub open spec fn read_defs(
    defs: TableModel<Seq<char>, Seq<SymbolId>>,
    lines: Seq<Seq<char>>,
    n: int,
) -> TableModel<Seq<char>, Seq<SymbolId>>
    decreases n,
{
    if n <= 0 {
        defs
    } else {
        let fields = fields_of(lines[n - 1]);
        table_put::<String, Seq<SymbolId>>(
            read_defs(defs, lines, n - 1),
            fields[0],
            name_list(fields, 1, fields.len() as int),
        )
    }
}

/// A stub library after one more of its files: `MAP` lists what the
/// members define, `LIBRARY NAME` names the library and then the libraries
/// that it depends on, every other file is a member.
pub open spec fn stub_file(lib: StubLibView, name: Seq<char>, contents: Seq<char>) -> Result<
    StubLibView,
    LibError,
> {
    if name == MAP_FILE_NAME@ {
        Ok(
            StubLibView {
                defs: read_defs(lib.defs, lines_of(contents), lines_of(contents).len() as int),
                ..lib
            },
        )
    } else if name == LIB_NAME_FILE@ {
        let lines = lines_of(contents);
        if lines.len() == 0 {
            Ok(lib)
        } else {
            Ok(StubLibView { libname: lines[0], deps: lib.deps + lines.skip(1), ..lib })
        }
    } else {
        match stub_member_of(name, contents) {
            Err(e) => Err(LibError::StubMemberParseFailure(e)),
            Ok(m) => Ok(
                StubLibView {
                    members: table_put::<String, StubMemberView>(lib.members, name, m),
                    ..lib
                },
            ),
        }
    }
}

/// The stub library without files.
pub open spec fn stub_empty() -> StubLibView {
    StubLibView {
        libname: "stublib"@,
        members: table_empty(),
        defs: table_empty(),
        deps: Seq::empty(),
    }
}

/// A stub library after the first `n` of its files.
pub open spec fn stub_files(files: Seq<(Seq<char>, Seq<char>)>, n: int) -> Result<
    StubLibView,
    LibError,
>
    decreases n,
{
    if n <= 0 {
        Ok(stub_empty())
    } else {
        match stub_files(files, n - 1) {
            Err(e) => Err(e),
            Ok(lib) => stub_file(lib, files[n - 1].0, files[n - 1].1),
        }
    }
}

/// Reading that fails on the first `k` files of a stub library fails in the same way on more.
pub proof fn lemma_stub_files_err(files: Seq<(Seq<char>, Seq<char>)>, k: int, n: int)
    requires
        k <= n,
        stub_files(files, k) is Err,
    ensures
        stub_files(files, n) == stub_files(files, k),
    decreases n - k,
{
    if k < n {
        lemma_stub_files_err(files, k, n - 1);
    }
}

/// The names that the fields from `from` on spell.
fn names_from(fields: &Vec<Vec<char>>, from: usize) -> (names: Vec<SymbolName>)
    ensures
        names.deep_view() == name_list(views(fields@), from as int, fields@.len() as int),
{
    let mut names: Vec<SymbolName> = Vec::new();
    if from >= fields.len() {
        proof {
            lemma_deep_vec(names);
            assert(deep(names@) =~= Seq::<SymbolId>::empty());
        }
        return names;
    }
    let mut k: usize = from;
    assert(deep(names@) =~= Seq::<SymbolId>::empty());
    while k < fields.len()
        invariant
            from <= k <= fields@.len(),
            deep(names@) == name_list(views(fields@), from as int, k as int),
        decreases fields@.len() - k,
    {
        let name = SymbolName::SName(string_of(fields[k].as_slice(), 0, fields[k].len()));
        assert(fields@[k as int]@.subrange(0, fields@[k as int]@.len() as int)
            =~= fields@[k as int]@);
        let ghost before = deep(names@);
        names.push(name);
        assert(deep(names@) =~= before.push(name@));
        k += 1;
    }
    proof {
        lemma_deep_vec(names);
    }
    names
}

impl StubLib {
    /// Reads a member of a stub library from its name and its text.
    pub fn parse_stub_member(name: &str, file_contents: &str) -> (r: Result<
        StubMember,
        ParseError,
    >)
        ensures
            match r {
                Ok(m) => stub_member_of(name@, file_contents@) == Ok::<
                    StubMemberView,
                    ParseError,
                >(m.deep_view()) && m.syms.keys@.len() == m.syms.values@.len(),
                Err(e) => stub_member_of(name@, file_contents@) == Err::<
                    StubMemberView,
                    ParseError,
                >(e),
            },
    {
        let text = chars_of(file_contents);
        let lines = split_lines(text.as_slice());
        let ghost rows = views(lines@);
        if lines.len() == 0 {
            return Err(ParseError::MissingMagicNumber);
        }
        assert(rows[0] == lines@[0]@);
        if !spells(lines[0].as_slice(), STUB_MAGIC_NUMBER) {
            return Err(ParseError::InvalidMagicNumber);
        }
        let mut syms: Table<SymbolName, StubTarget> = Table::new();
        let mut k: usize = 1;
        while k < lines.len()
            invariant
                1 <= k <= lines@.len(),
                rows == views(lines@),
                rows == lines_of(file_contents@),
                rows[0] == STUB_MAGIC_NUMBER@,
                syms.keys@.len() == syms.values@.len(),
                stub_syms(rows, k as int) == Ok::<TableModel<SymbolId, StubTargetView>, ParseError>(
                    syms.deep_view(),
                ),
            decreases lines@.len() - k,
        {
            assert(rows[k as int] == lines@[k as int]@);
            let w = split_words(lines[k].as_slice(), true);
            if w.len() != 2 {
                proof {
                    assert(stub_syms(rows, k + 1) is Err);
                    lemma_stub_syms_err(rows, k + 1, rows.len() as int);
                }
                return Err(ParseError::UnexpectedParseError);
            }
            let ghost ws = views(w@);
            assert(ws[0] == w@[0]@ && ws[1] == w@[1]@);
            let sym = SymbolName::SName(string_of(w[0].as_slice(), 0, w[0].len()));
            assert(w@[0]@.subrange(0, w@[0]@.len() as int) =~= w@[0]@);
            let target = match parse_signed_hex(w[1].as_slice()) {
                Some(a) => StubTarget::Addr(a),
                None => {
                    assert(w@[1]@.subrange(0, w@[1]@.len() as int) =~= w@[1]@);
                    StubTarget::Lib(string_of(w[1].as_slice(), 0, w[1].len()))
                },
            };
            syms.insert(sym, target);
            k += 1;
        }
        Ok(StubMember { name: crate::text::string_of_str(name), syms })
    }

    /// Reads a stub library from its files, each given by its name and its contents.
    pub fn parse(files: &Vec<(String, String)>) -> (r: Result<StubLib, LibError>)
        ensures
            match r {
                Ok(lib) => stub_files(files.deep_view(), files@.len() as int) == Ok::<
                    StubLibView,
                    LibError,
                >(lib.deep_view()) && lib.ok(),
                Err(e) => stub_files(files.deep_view(), files@.len() as int) == Err::<
                    StubLibView,
                    LibError,
                >(e),
            },
    {
        let ghost fs = files.deep_view();
        let mut lib = StubLib {
            libname: crate::text::string_of_str("stublib"),
            members: Table::new(),
            defs: Table::new(),
            deps: Vec::new(),
        };
        assert(lib.deep_view().deps =~= Seq::<Seq<char>>::empty());
        let mut k: usize = 0;
        while k < files.len()
            invariant
                k <= files@.len(),
                fs == files.deep_view(),
                lib.ok(),
                stub_files(fs, k as int) == Ok::<StubLibView, LibError>(lib.deep_view()),
            decreases files@.len() - k,
        {
            assert(fs[k as int] == (files@[k as int].0@, files@[k as int].1@));
            match add_stub_file(&mut lib, &files[k].0, &files[k].1) {
                Err(e) => {
                    proof {
                        lemma_stub_files_err(fs, k + 1, fs.len() as int);
                    }
                    return Err(e);
                },
                Ok(()) => {},
            }
            k += 1;
        }
        Ok(lib)
    }

    /// Each table has a value for each key, and each member a target for each symbol.
    pub open spec fn ok(&self) -> bool {
        &&& self.members.keys@.len() == self.members.values@.len()
        &&& self.defs.keys@.len() == self.defs.values@.len()
        &&& members_ok(self.deep_view().members.values)
    }
}

/// Reads the lines of the `MAP` file of a stub library.
fn read_def_lines(defs: &mut Table<String, Vec<SymbolName>>, lines: &Vec<Vec<char>>)
    requires
        old(defs).keys@.len() == old(defs).values@.len(),
    ensures
        final(defs).deep_view() == read_defs(
            old(defs).deep_view(),
            views(lines@),
            lines@.len() as int,
        ),
        final(defs).keys@.len() == final(defs).values@.len(),
{
    let mut j: usize = 0;
    while j < lines.len()
        invariant
            j <= lines@.len(),
            defs.keys@.len() == defs.values@.len(),
            defs.deep_view() == read_defs(old(defs).deep_view(), views(lines@), j as int),
        decreases lines@.len() - j,
    {
        let fields = split_fields(lines[j].as_slice());
        assert(views(lines@)[j as int] == lines@[j as int]@);
        let key = string_of(fields[0].as_slice(), 0, fields[0].len());
        assert(fields@[0]@.subrange(0, fields@[0]@.len() as int) =~= fields@[0]@);
        assert(key@ == views(fields@)[0]);
        let names = names_from(&fields, 1);
        defs.insert(key, names);
        j += 1;
    }
}

/// Copies the lines from the second on as strings to the end of `deps`.
fn read_dep_lines(deps: &mut Vec<String>, lines: &Vec<Vec<char>>)
    requires
        lines@.len() > 0,
    ensures
        deep(final(deps)@) == deep(old(deps)@) + views(lines@).skip(1),
{
    let ghost start = deep(deps@);
    let mut j: usize = 1;
    assert(start + views(lines@).subrange(1, 1) =~= start);
    while j < lines.len()
        invariant
            1 <= j <= lines@.len(),
            deep(deps@) == start + views(lines@).subrange(1, j as int),
        decreases lines@.len() - j,
    {
        let dep = string_of(lines[j].as_slice(), 0, lines[j].len());
        assert(lines@[j as int]@.subrange(0, lines@[j as int]@.len() as int) =~= lines@[j as int]@);
        let ghost d0 = deep(deps@);
        deps.push(dep);
        assert(deep(deps@) =~= d0.push(dep@));
        assert(start + views(lines@).subrange(1, j + 1) =~= (start + views(lines@).subrange(
            1,
            j as int,
        )).push(lines@[j as int]@));
        j += 1;
    }
    assert(views(lines@).subrange(1, lines@.len() as int) =~= views(lines@).skip(1));
}

/// Reads one file of a stub library.
fn add_stub_file(lib: &mut StubLib, name: &String, contents: &String) -> (r: Result<(), LibError>)
    requires
        old(lib).ok(),
    ensures
        match r {
            Ok(()) => stub_file(old(lib).deep_view(), name@, contents@) == Ok::<
                StubLibView,
                LibError,
            >(final(lib).deep_view()) && final(lib).ok(),
            Err(e) => stub_file(old(lib).deep_view(), name@, contents@) == Err::<
                StubLibView,
                LibError,
            >(e) && final(lib).deep_view() == old(lib).deep_view(),
        },
{
    let ghost before = lib.deep_view();
    if crate::table::str_same(name.as_str(), MAP_FILE_NAME) {
        let text = chars_of(contents.as_str());
        let lines = split_lines(text.as_slice());
        read_def_lines(&mut lib.defs, &lines);
        Ok(())
    } else if crate::table::str_same(name.as_str(), LIB_NAME_FILE) {
        let text = chars_of(contents.as_str());
        let lines = split_lines(text.as_slice());
        if lines.len() > 0 {
            lib.libname = string_of(lines[0].as_slice(), 0, lines[0].len());
            assert(lines@[0]@.subrange(0, lines@[0]@.len() as int) =~= lines@[0]@);
            assert(views(lines@)[0] == lines@[0]@);
            proof {
                lemma_deep_vec(lib.deps);
            }
            read_dep_lines(&mut lib.deps, &lines);
            proof {
                lemma_deep_vec(lib.deps);
            }
        }
        Ok(())
    } else {
        match StubLib::parse_stub_member(name.as_str(), contents.as_str()) {
            Err(e) => Err(LibError::StubMemberParseFailure(e)),
            Ok(member) => {
                proof {
                    lemma_put_member(before.members, name@, member.deep_view());
                }
                lib.members.insert(name.clone(), member);
                Ok(())
            },
        }
    }
}

/// Whether every member has a target for each of its symbols.
pub open spec fn members_ok(values: Seq<StubMemberView>) -> bool {
    forall|i: int| 0 <= i < values.len() ==> (#[trigger] values[i]).syms.keys.len() == values[i].syms.values.len()
}

/// A table of such members stays one when such a member is put in.
pub proof fn lemma_put_member(m: TableModel<Seq<char>, StubMemberView>, k: Seq<char>, v: StubMemberView)
    requires
        m.keys.len() == m.values.len(),
        members_ok(m.values),
        v.syms.keys.len() == v.syms.values.len(),
    ensures
        members_ok(table_put::<String, StubMemberView>(m, k, v).values),
{
    let t = table_put::<String, StubMemberView>(m, k, v);
    let at = crate::table::slot::<String>(m.keys, k);
    crate::table::lemma_slot::<String>(m.keys, k);
    assert forall|i: int| 0 <= i < t.values.len() implies (#[trigger] t.values[i]).syms.keys.len()
        == t.values[i].syms.values.len() by {
        if crate::table::holds::<String>(m.keys, k) {
            if i != at {
                assert(t.values[i] == m.values[i]);
            }
        } else {
            if i < at {
                assert(t.values[i] == m.values[i]);
            } else if i > at {
                assert(t.values[i] == m.values[i - 1]);
            }
        }
    }
}


/// The names, as they are written, of the first `n` symbols of a member that
/// the member defines at an address.
pub open spec fn addressed_names(syms: TableModel<SymbolId, StubTargetView>, n: int) -> Seq<
    Seq<char>,
>
    decreases n,
{
    if n <= 0 {
        Seq::empty()
    } else if syms.values[n - 1] is Addr {
        addressed_names(syms, n - 1).push(symbol_text(syms.keys[n - 1]))
    } else {
        addressed_names(syms, n - 1)
    }
}

/// The line of a member in the `MAP` file of a stub library.
pub open spec fn stub_map_line(key: Seq<char>, m: StubMemberView) -> Seq<char> {
    join(seq![key] + addressed_names(m.syms, m.syms.keys.len() as int), seq![' '])
}

/// The text of the `MAP` file of a stub library: a line for each member.
pub open spec fn stub_map_text(lib: StubLibView) -> Seq<char> {
    join_lines(
        Seq::new(
            lib.members.keys.len(),
            |i: int| stub_map_line(lib.members.keys[i], lib.members.values[i]),
        ),
    )
}

/// The text of the `LIBRARY NAME` file of a stub library: its name, then
/// the libraries that it depends on.
pub open spec fn library_name_text(lib: StubLibView) -> Seq<char> {
    join_lines(seq![lib.libname] + lib.deps)
}

impl StubLib {
    /// The text of the `MAP` file of the library.
    pub fn make_map_file(&self) -> (s: String)
        requires
            self.members.keys@.len() == self.members.values@.len(),
            members_ok(self.deep_view().members.values),
        ensures
            s@ == stub_map_text(self.deep_view()),
    {
        let ghost lib = self.deep_view();
        let ghost all = Seq::new(
            lib.members.keys.len(),
            |i: int| stub_map_line(lib.members.keys[i], lib.members.values[i]),
        );
        let mut lines: Vec<Vec<char>> = Vec::new();
        let mut k: usize = 0;
        while k < self.members.keys.len()
            invariant
                k <= self.members.keys@.len(),
                self.members.keys@.len() == self.members.values@.len(),
                members_ok(self.deep_view().members.values),
                lib == self.deep_view(),
                all == Seq::new(
                    lib.members.keys.len(),
                    |i: int| stub_map_line(lib.members.keys[i], lib.members.values[i]),
                ),
                views(lines@) =~= all.take(k as int),
            decreases self.members.keys@.len() - k,
        {
            let member = &self.members.values[k];
            let ghost m = lib.members.values[k as int];
            assert(lib.members.keys[k as int] == self.members.keys@[k as int]@);
            assert(m == member.deep_view());
            let mut words: Vec<Vec<char>> = Vec::new();
            words.push(chars_of(self.members.keys[k].as_str()));
            let mut j: usize = 0;
            assert(views(words@) =~= seq![lib.members.keys[k as int]] + addressed_names(m.syms, 0));
            while j < member.syms.keys.len()
                invariant
                    j <= member.syms.keys@.len(),
                    member.syms.keys@.len() == member.syms.values@.len(),
                    m == member.deep_view(),
                    views(words@) == seq![lib.members.keys[k as int]] + addressed_names(
                        m.syms,
                        j as int,
                    ),
                decreases member.syms.keys@.len() - j,
            {
                assert(m.syms.keys[j as int] == member.syms.keys@[j as int]@);
                assert(m.syms.values[j as int] == member.syms.values@[j as int].deep_view());
                match &member.syms.values[j] {
                    StubTarget::Addr(_) => {
                        let name = member.syms.keys[j].to_string();
                        let w = chars_of(name.as_str());
                        proof {
                            lemma_views_push(words@, w);
                            assert(seq![lib.members.keys[k as int]] + addressed_names(
                                m.syms,
                                j + 1,
                            ) =~= (seq![lib.members.keys[k as int]] + addressed_names(
                                m.syms,
                                j as int,
                            )).push(w@));
                        }
                        words.push(w);
                    },
                    StubTarget::Lib(_) => {},
                }
                j += 1;
            }
            let line = join_with(&words, ' ');
            assert(line@ == all[k as int]);
            proof {
                lemma_views_push(lines@, line);
                assert(all.take(k + 1) =~= all.take(k as int).push(all[k as int]));
            }
            lines.push(line);
            k += 1;
        }
        assert(all.take(all.len() as int) =~= all);
        let text = join_with(&lines, '\n');
        assert(text@.subrange(0, text@.len() as int) =~= text@);
        string_of(text.as_slice(), 0, text.len())
    }

    /// The text of the `LIBRARY NAME` file of the library.
    pub fn make_library_file(&self) -> (s: String)
        ensures
            s@ == library_name_text(self.deep_view()),
    {
        let ghost lib = self.deep_view();
        let mut lines: Vec<Vec<char>> = Vec::new();
        lines.push(chars_of(self.libname.as_str()));
        let mut k: usize = 0;
        proof {
            lemma_deep_vec(self.deps);
        }
        assert(views(lines@) =~= seq![lib.libname] + lib.deps.take(0));
        while k < self.deps.len()
            invariant
                k <= self.deps@.len(),
                lib == self.deep_view(),
                lib.deps == deep(self.deps@),
                views(lines@) == seq![lib.libname] + lib.deps.take(k as int),
            decreases self.deps@.len() - k,
        {
            let line = chars_of(self.deps[k].as_str());
            proof {
                lemma_views_push(lines@, line);
                assert(seq![lib.libname] + lib.deps.take(k + 1) =~= (seq![lib.libname]
                    + lib.deps.take(k as int)).push(line@));
            }
            lines.push(line);
            k += 1;
        }
        assert(lib.deps.take(lib.deps.len() as int) =~= lib.deps);
        let text = join_with(&lines, '\n');
        assert(text@.subrange(0, text@.len() as int) =~= text@);
        string_of(text.as_slice(), 0, text.len())
    }
}


impl StubLib {
    /// Whether the members have a value each, and each member a target for each symbol.
    pub fn check(&self) -> (b: bool)
        ensures
            b == (self.members.keys@.len() == self.members.values@.len() && members_ok(
                self.deep_view().members.values,
            )),
    {
        if self.members.keys.len() != self.members.values.len() {
            return false;
        }
        let ghost ms = self.deep_view().members.values;
        let mut k: usize = 0;
        while k < self.members.values.len()
            invariant
                k <= self.members.values@.len(),
                ms == self.deep_view().members.values,
                forall|i: int|
                    0 <= i < k ==> (#[trigger] ms[i]).syms.keys.len() == ms[i].syms.values.len(),
            decreases self.members.values@.len() - k,
        {
            assert(ms[k as int] == self.members.values@[k as int].deep_view());
            let m = &self.members.values[k];
            if m.syms.keys.len() != m.syms.values.len() {
                assert(ms[k as int].syms.keys.len() != ms[k as int].syms.values.len());
                return false;
            }
            k += 1;
        }
        true
    }
}

} // verus!
