//! Satisfying undefined symbols from libraries.

use crate::common::{Defn, DefnView, ProvenanceView};
use crate::linker::ingest::{alloc_storage_and_symtables, ingest, ingest_reached};
use crate::linker::symbols::{has_definition, lemma_register_defines};
use crate::linker::state::{GlobalEntry, GlobalEntryView, InfoView, LinkState, Work};
use crate::table::{
    deep, holds, lemma_get_put, slot, table_get, table_put, table_wf, Key, Table, TableModel,
};
use crate::text::{dec_digits, push_dec, push_str, string_of};
use crate::types::errors::LinkError;
use crate::types::library::{LibView, StaticLib};
use crate::types::object::{ObjectIn, ObjectView};
use crate::types::stub::{StubLib, StubLibView, StubTarget, StubTargetView};
use crate::types::symbol_table::{SymbolId, SymbolName, SymbolView};
use vstd::prelude::*;

verus! {

/// What a library offers for a name.
pub enum Offer {
    /// Nothing: the search goes on in the next library.
    Nothing,
    /// A module is listed for the name but is not there: the search ends.
    Stop,
    /// A module to take in under the given id.
    Module { id: Seq<char>, module: ObjectView },
    /// The member at `member` of the stub library at `lib` exports the name.
    Stub { lib: int, member: int },
}

/// The id of the module at `index` of a library file.
pub open spec fn file_id(libname: Seq<char>, index: usize) -> Seq<char> {
    libname + "_mod_"@ + dec_digits(index as nat)
}

/// The id of a member of a stub library.
pub open spec fn stub_id(libname: Seq<char>, member: Seq<char>) -> Seq<char> {
    libname + "_"@ + member
}

/// The first entry from `from` on of the map of a library directory that
/// was not taken in yet and lists the name; the number of entries if there
/// is none.
pub open spec fn first_listing(
    symbols: TableModel<Seq<char>, TableModel<SymbolId, ()>>,
    name: SymbolId,
    visited: Seq<Seq<char>>,
    from: int,
) -> int
    decreases symbols.keys.len() - from,
{
    if from < 0 || from >= symbols.keys.len() {
        symbols.keys.len() as int
    } else if !visited.contains(symbols.keys[from]) && holds::<SymbolName>(
        symbols.values[from].keys,
        name,
    ) {
        from
    } else {
        first_listing(symbols, name, visited, from + 1)
    }
}

/// The first member from `from` on of a stub library that was not used up
/// yet and exports the name; the number of members if there is none.
pub open spec fn first_member(
    stub: StubLibView,
    name: SymbolId,
    visited: Seq<Seq<char>>,
    from: int,
) -> int
    decreases stub.members.keys.len() - from,
{
    if from < 0 || from >= stub.members.keys.len() {
        stub.members.keys.len() as int
    } else if !visited.contains(stub_id(stub.libname, stub.members.keys[from])) && holds::<
        SymbolName,
    >(stub.members.values[from].syms.keys, name) {
        from
    } else {
        first_member(stub, name, visited, from + 1)
    }
}

/// What the library at `at` offers for a name.
pub open spec fn offer_of(lib: LibView, at: int, name: SymbolId, visited: Seq<Seq<char>>) -> Offer {
    match lib {
        LibView::DirLib { libname, symbols, objects } => {
            let k = first_listing(symbols, name, visited, 0);
            if k >= symbols.keys.len() {
                Offer::Nothing
            } else {
                match table_get::<String, ObjectView>(objects, symbols.keys[k]) {
                    Some(module) => Offer::Module { id: symbols.keys[k], module },
                    None => Offer::Stop,
                }
            }
        },
        LibView::FileLib { libname, symbols, objects } => {
            match table_get::<SymbolName, usize>(symbols, name) {
                Some(index) => if index < objects.len() && !visited.contains(
                    file_id(libname, index),
                ) {
                    Offer::Module { id: file_id(libname, index), module: objects[index as int] }
                } else {
                    Offer::Nothing
                },
                None => Offer::Nothing,
            }
        },
        LibView::Stub(stub) => {
            let k = first_member(stub, name, visited, 0);
            if k >= stub.members.keys.len() {
                Offer::Nothing
            } else {
                Offer::Stub { lib: at, member: k }
            }
        },
    }
}

/// What the libraries from `from` on offer for a name: the offer of the
/// first library that offers anything.
pub open spec fn first_offer(
    libs: Seq<LibView>,
    name: SymbolId,
    visited: Seq<Seq<char>>,
    from: int,
) -> Offer
    decreases libs.len() - from,
{
    if from < 0 || from >= libs.len() {
        Offer::Nothing
    } else {
        match offer_of(libs[from], from, name, visited) {
            Offer::Nothing => first_offer(libs, name, visited, from + 1),
            o => o,
        }
    }
}

/// Whether the global symbol table holds a name without a definition.
pub open spec fn lacks_definition(g: TableModel<SymbolId, GlobalEntryView>, name: SymbolId) -> bool {
    match table_get::<SymbolName, GlobalEntryView>(g, name) {
        Some(e) => e.0 is None,
        None => false,
    }
}

/// The names of the symbols among the first `n` of a module that taking the
/// module in made undefined: the table `before` did not hold them, and the
/// table `after` holds them without a definition.
pub open spec fn undefined_names(
    syms: Seq<SymbolView>,
    before: TableModel<SymbolId, GlobalEntryView>,
    after: TableModel<SymbolId, GlobalEntryView>,
    n: int,
) -> Seq<SymbolId>
    decreases n,
{
    if n <= 0 {
        Seq::empty()
    } else if !holds::<SymbolName>(before.keys, syms[n - 1].st_name) && lacks_definition(
        after,
        syms[n - 1].st_name,
    ) {
        undefined_names(syms, before, after, n - 1).push(syms[n - 1].st_name)
    } else {
        undefined_names(syms, before, after, n - 1)
    }
}

/// The names among the first `n` of the global symbol table that have no definition.
pub open spec fn missing_names(g: TableModel<SymbolId, GlobalEntryView>, n: int) -> Seq<SymbolId>
    decreases n,
{
    if n <= 0 {
        Seq::empty()
    } else if g.values[n - 1].0 is Some {
        missing_names(g, n - 1)
    } else {
        missing_names(g, n - 1).push(g.keys[n - 1])
    }
}

/// The first stub library from `from` on of the given name; the number of
/// libraries if there is none.
pub open spec fn find_stub(libs: Seq<LibView>, libname: Seq<char>, from: int) -> int
    decreases libs.len() - from,
{
    if from < 0 || from >= libs.len() {
        libs.len() as int
    } else if libs[from] is Stub && libs[from]->Stub_0.libname == libname {
        from
    } else {
        find_stub(libs, libname, from + 1)
    }
}

/// Where a stub library says a symbol is defined.
pub struct Found {
    pub addr: i32,
    pub lib: int,
    pub member: int,
}

/// The number of libraries among the first `n` that are neither the
/// library at `lib` nor on the path.
pub open spec fn off_path(path: Seq<int>, lib: int, n: int) -> nat
    decreases n,
{
    if n <= 0 {
        0
    } else {
        off_path(path, lib, n - 1) + if n - 1 != lib && !path.contains(n - 1) {
            1nat
        } else {
            0
        }
    }
}

/// A step from the library at `lib` to one that is off the path leaves
/// fewer libraries off the path.
pub proof fn lemma_off_path(path: Seq<int>, lib: int, j: int, n: int)
    requires
        j != lib,
        !path.contains(j),
    ensures
        off_path(path.push(lib), j, n) <= off_path(path, lib, n),
        0 <= j < n ==> off_path(path.push(lib), j, n) < off_path(path, lib, n),
    decreases n,
{
    if n > 0 {
        lemma_off_path(path, lib, j, n - 1);
        let i = n - 1;
        assert(path.push(lib).contains(i) <==> path.contains(i) || i == lib) by {
            if path.contains(i) {
                let k = choose|k: int| 0 <= k < path.len() && path[k] == i;
                assert(path.push(lib)[k] == i);
            }
            if i == lib {
                assert(path.push(lib)[path.len() as int] == i);
            }
            if path.push(lib).contains(i) {
                let k = choose|k: int| 0 <= k < path.push(lib).len() && path.push(lib)[k] == i;
                if k < path.len() {
                    assert(path[k] == i);
                }
            }
        }
    }
}

/// Follows the definition of a name from the member at `member` of the stub
/// library at `lib`. An address ends the search. The name of another library
/// leads to the first member of that library that exports the name; a
/// library or member that is not there is an error, and so is a library met
/// twice.
pub open spec fn chase(libs: Seq<LibView>, lib: int, member: int, name: SymbolId, path: Seq<int>)
    -> Result<Found, LinkError>
    decreases off_path(path, lib, libs.len() as int),
{
    let stub = libs[lib]->Stub_0;
    match table_get::<SymbolName, StubTargetView>(stub.members.values[member].syms, name) {
        None => Err(LinkError::SharedLibRefDefnNotFound),
        Some(StubTargetView::Addr(addr)) => Ok(Found { addr, lib, member }),
        Some(StubTargetView::Lib(other)) => {
            let j = find_stub(libs, other, 0);
            if j < 0 || j >= libs.len() {
                Err(LinkError::SharedLibRefDefnNotFound)
            } else if j == lib || path.contains(j) {
                Err(LinkError::SharedLibsReferenceCycle)
            } else {
                let k = first_member(libs[j]->Stub_0, name, Seq::empty(), 0);
                if k >= libs[j]->Stub_0.members.keys.len() {
                    Err(LinkError::SharedLibRefDefnNotFound)
                } else {
                    proof {
                        lemma_off_path(path, lib, j, libs.len() as int);
                    }
                    chase(libs, j, k, name, path.push(lib))
                }
            }
        },
    }
}

/// The definition that a stub library gives.
pub open spec fn stub_defn(libs: Seq<LibView>, f: Found) -> DefnView {
    DefnView {
        defn_mod_id: libs[f.lib]->Stub_0.members.keys[f.member],
        defn_ste_ix: None,
        defn_addr: Some(f.addr),
        defn_prov: ProvenanceView::FromSharedLib(libs[f.lib]->Stub_0.libname),
    }
}

/// The global symbol table with a definition from a stub library. A name
/// that is not in the table stays out; a name that has a definition must not
/// get another.
pub open spec fn record_stub(g: TableModel<SymbolId, GlobalEntryView>, name: SymbolId, d: DefnView)
    -> Result<TableModel<SymbolId, GlobalEntryView>, LinkError> {
    match table_get::<SymbolName, GlobalEntryView>(g, name) {
        None => Ok(g),
        Some(e) => if e.0 is Some {
            Err(LinkError::MultipleSymbolDefinitions)
        } else {
            Ok(table_put::<SymbolName, GlobalEntryView>(g, name, (Some(d), e.1)))
        },
    }
}

/// The id under which a library gives its module at `k`.
pub open spec fn lib_id(lib: LibView, k: int) -> Seq<char> {
    match lib {
        LibView::DirLib { libname, symbols, objects } => symbols.keys[k],
        LibView::FileLib { libname, symbols, objects } => file_id(libname, k as usize),
        LibView::Stub(stub) => Seq::empty(),
    }
}

/// The number of modules that a library can give.
pub open spec fn lib_size(lib: LibView) -> int {
    match lib {
        LibView::DirLib { libname, symbols, objects } => symbols.keys.len() as int,
        LibView::FileLib { libname, symbols, objects } => if objects.len() <= usize::MAX {
            objects.len() as int
        } else {
            usize::MAX + 1
        },
        LibView::Stub(stub) => 0,
    }
}

/// The number of modules among the first `n` of a library whose ids were not visited.
pub open spec fn unvisited(lib: LibView, visited: Seq<Seq<char>>, n: int) -> nat
    decreases n,
{
    if n <= 0 {
        0
    } else {
        unvisited(lib, visited, n - 1) + if visited.contains(lib_id(lib, n - 1)) {
            0nat
        } else {
            1
        }
    }
}

/// The number of modules of the first `n` libraries whose ids were not visited.
pub open spec fn fresh(libs: Seq<LibView>, visited: Seq<Seq<char>>, n: int) -> nat
    decreases n,
{
    if n <= 0 {
        0
    } else {
        fresh(libs, visited, n - 1) + unvisited(libs[n - 1], visited, lib_size(libs[n - 1]))
    }
}

/// What was visited stays visited when one more id is.
pub proof fn lemma_visited_push(visited: Seq<Seq<char>>, x: Seq<char>, y: Seq<char>)
    ensures
        visited.push(x).contains(y) <==> visited.contains(y) || y == x,
{
    if visited.contains(y) {
        let k = choose|k: int| 0 <= k < visited.len() && visited[k] == y;
        assert(visited.push(x)[k] == y);
    }
    if y == x {
        assert(visited.push(x)[visited.len() as int] == y);
    }
    if visited.push(x).contains(y) {
        let k = choose|k: int| 0 <= k < visited.push(x).len() && visited.push(x)[k] == y;
        if k < visited.len() {
            assert(visited[k] == y);
        }
    }
}

/// One more visited id leaves no more modules of a library unvisited, and
/// fewer if it is the id of one of them and new.
pub proof fn lemma_unvisited_push(lib: LibView, visited: Seq<Seq<char>>, x: Seq<char>, n: int, k: int)
    ensures
        unvisited(lib, visited.push(x), n) <= unvisited(lib, visited, n),
        0 <= k < n && lib_id(lib, k) == x && !visited.contains(x) ==> unvisited(
            lib,
            visited.push(x),
            n,
        ) < unvisited(lib, visited, n),
    decreases n,
{
    if n > 0 {
        lemma_unvisited_push(lib, visited, x, n - 1, k);
        lemma_visited_push(visited, x, lib_id(lib, n - 1));
    }
}

/// One more visited id leaves no more modules of the libraries unvisited,
/// and fewer if it is the new id of the module at `k` of the library at `i`.
pub proof fn lemma_fresh_push(
    libs: Seq<LibView>,
    visited: Seq<Seq<char>>,
    x: Seq<char>,
    n: int,
    i: int,
    k: int,
)
    ensures
        fresh(libs, visited.push(x), n) <= fresh(libs, visited, n),
        0 <= i < n && 0 <= k < lib_size(libs[i]) && lib_id(libs[i], k) == x && !visited.contains(x)
            ==> fresh(libs, visited.push(x), n) < fresh(libs, visited, n),
    decreases n,
{
    if n > 0 {
        lemma_fresh_push(libs, visited, x, n - 1, i, k);
        lemma_unvisited_push(libs[n - 1], visited, x, lib_size(libs[n - 1]), k);
    }
}

/// A module that the libraries offer is one of their modules, under an id
/// that was not visited.
pub proof fn lemma_offer_is_fresh(
    libs: Seq<LibView>,
    name: SymbolId,
    visited: Seq<Seq<char>>,
    from: int,
) -> (at: (int, int))
    requires
        0 <= from,
        first_offer(libs, name, visited, from) is Module,
    ensures
        from <= at.0 < libs.len(),
        0 <= at.1 < lib_size(libs[at.0]),
        lib_id(libs[at.0], at.1) == first_offer(libs, name, visited, from)->id,
        !visited.contains(first_offer(libs, name, visited, from)->id),
    decreases libs.len() - from,
{
    if offer_of(libs[from], from, name, visited) is Nothing {
        lemma_offer_is_fresh(libs, name, visited, from + 1)
    } else {
        match libs[from] {
            LibView::DirLib { libname, symbols, objects } => {
                lemma_first_listing(symbols, name, visited, 0);
                (from, first_listing(symbols, name, visited, 0))
            },
            LibView::FileLib { libname, symbols, objects } => {
                let index = table_get::<SymbolName, usize>(symbols, name)->0;
                (from, index as int)
            },
            LibView::Stub(stub) => (from, 0),
        }
    }
}

/// Taking in the module that the libraries offer leaves fewer of their modules unvisited.
pub proof fn lemma_pull_decreases(libs: Seq<LibView>, name: SymbolId, visited: Seq<Seq<char>>)
    requires
        first_offer(libs, name, visited, 0) is Module,
    ensures
        fresh(libs, visited.push(first_offer(libs, name, visited, 0)->id), libs.len() as int)
            < fresh(libs, visited, libs.len() as int),
{
    let at = lemma_offer_is_fresh(libs, name, visited, 0);
    lemma_fresh_push(
        libs,
        visited,
        first_offer(libs, name, visited, 0)->id,
        libs.len() as int,
        at.0,
        at.1,
    );
}

/// The session after the names of the worklist were looked up in the
/// libraries, last name first. A name that has a definition by the time it
/// is looked up is passed over, so the first library that offers a name is
/// the only one that gives it. A module that a library offers is taken in,
/// its id is noted as visited, and the names that it made undefined join the
/// worklist. The search ends because each module of a library is taken in
/// once at most.
pub open spec fn pull(
    s: LinkState,
    worklist: Seq<SymbolId>,
    visited: Seq<Seq<char>>,
    libs: Seq<LibView>,
) -> Result<LinkState, LinkError>
    decreases fresh(libs, visited, libs.len() as int), worklist.len(),
{
    if worklist.len() == 0 {
        Ok(s)
    } else {
        let name = worklist.last();
        let rest = worklist.drop_last();
        if !lacks_definition(s.info.global_symtable, name) {
            pull(s, rest, visited, libs)
        } else {
            match first_offer(libs, name, visited, 0) {
                Offer::Nothing => pull(s, rest, visited, libs),
                Offer::Stop => pull(s, rest, visited, libs),
                Offer::Module { id, module } => match ingest(s, id, module) {
                    Err(e) => Err(e),
                    Ok(t) => {
                        proof {
                            lemma_pull_decreases(libs, name, visited);
                        }
                        pull(
                            t,
                            rest + undefined_names(
                                module.symbol_table,
                                s.info.global_symtable,
                                t.info.global_symtable,
                                module.symbol_table.len() as int,
                            ),
                            visited.push(id),
                            libs,
                        )
                    },
                },
                Offer::Stub { lib, member } => match chase(libs, lib, member, name, Seq::empty()) {
                    Err(e) => Err(e),
                    Ok(f) => match record_stub(s.info.global_symtable, name, stub_defn(libs, f)) {
                        Err(e) => Err(e),
                        Ok(g) => pull(
                            LinkState { info: InfoView { global_symtable: g, ..s.info }, ..s },
                            rest,
                            visited,
                            libs,
                        ),
                    },
                },
            }
        }
    }
}

/// The session that the lookup of the names of the worklist leaves, whether
/// it succeeds or fails. A lookup that fails leaves what was taken in before
/// the name that fails, and of the module that could not be taken in what
/// `ingest_reached` says.
pub open spec fn pull_reached(
    s: LinkState,
    worklist: Seq<SymbolId>,
    visited: Seq<Seq<char>>,
    libs: Seq<LibView>,
) -> LinkState
    decreases fresh(libs, visited, libs.len() as int), worklist.len(),
{
    if worklist.len() == 0 {
        s
    } else {
        let name = worklist.last();
        let rest = worklist.drop_last();
        if !lacks_definition(s.info.global_symtable, name) {
            pull_reached(s, rest, visited, libs)
        } else {
            match first_offer(libs, name, visited, 0) {
                Offer::Nothing => pull_reached(s, rest, visited, libs),
                Offer::Stop => pull_reached(s, rest, visited, libs),
                Offer::Module { id, module } => match ingest(s, id, module) {
                    Err(e) => ingest_reached(s, id, module),
                    Ok(t) => {
                        proof {
                            lemma_pull_decreases(libs, name, visited);
                        }
                        pull_reached(
                            t,
                            rest + undefined_names(
                                module.symbol_table,
                                s.info.global_symtable,
                                t.info.global_symtable,
                                module.symbol_table.len() as int,
                            ),
                            visited.push(id),
                            libs,
                        )
                    },
                },
                Offer::Stub { lib, member } => match chase(libs, lib, member, name, Seq::empty()) {
                    Err(e) => s,
                    Ok(f) => match record_stub(s.info.global_symtable, name, stub_defn(libs, f)) {
                        Err(e) => s,
                        Ok(g) => pull_reached(
                            LinkState { info: InfoView { global_symtable: g, ..s.info }, ..s },
                            rest,
                            visited,
                            libs,
                        ),
                    },
                },
            }
        }
    }
}

/// A lookup that succeeds leaves the session that it gives.
pub proof fn lemma_pull_reached(
    s: LinkState,
    worklist: Seq<SymbolId>,
    visited: Seq<Seq<char>>,
    libs: Seq<LibView>,
)
    requires
        pull(s, worklist, visited, libs) is Ok,
    ensures
        pull_reached(s, worklist, visited, libs) == pull(s, worklist, visited, libs)->Ok_0,
    decreases fresh(libs, visited, libs.len() as int), worklist.len(),
{
    if worklist.len() > 0 {
        let name = worklist.last();
        let rest = worklist.drop_last();
        if !lacks_definition(s.info.global_symtable, name) {
            lemma_pull_reached(s, rest, visited, libs);
        } else {
            match first_offer(libs, name, visited, 0) {
                Offer::Nothing => lemma_pull_reached(s, rest, visited, libs),
                Offer::Stop => lemma_pull_reached(s, rest, visited, libs),
                Offer::Module { id, module } => {
                    let t = ingest(s, id, module)->Ok_0;
                    lemma_pull_decreases(libs, name, visited);
                    lemma_pull_reached(
                        t,
                        rest + undefined_names(
                            module.symbol_table,
                            s.info.global_symtable,
                            t.info.global_symtable,
                            module.symbol_table.len() as int,
                        ),
                        visited.push(id),
                        libs,
                    );
                },
                Offer::Stub { lib, member } => {
                    let f = chase(libs, lib, member, name, Seq::empty())->Ok_0;
                    let g = record_stub(s.info.global_symtable, name, stub_defn(libs, f))->Ok_0;
                    lemma_pull_reached(
                        LinkState { info: InfoView { global_symtable: g, ..s.info }, ..s },
                        rest,
                        visited,
                        libs,
                    );
                },
            }
        }
    }
}

/// A name that has a definition when its turn comes takes nothing from the
/// libraries: a module that defines two names that are waiting is taken in
/// for the first of them only.
pub proof fn lemma_defined_name_is_passed(
    s: LinkState,
    worklist: Seq<SymbolId>,
    visited: Seq<Seq<char>>,
    libs: Seq<LibView>,
)
    requires
        worklist.len() > 0,
        !lacks_definition(s.info.global_symtable, worklist.last()),
    ensures
        pull(s, worklist, visited, libs) == pull(s, worklist.drop_last(), visited, libs),
        pull_reached(s, worklist, visited, libs) == pull_reached(
            s,
            worklist.drop_last(),
            visited,
            libs,
        ),
{
}

/// The session after the libraries were searched for every name that the
/// global symbol table holds without a definition.
pub open spec fn satisfy(s: LinkState, libs: Seq<LibView>) -> Result<LinkState, LinkError> {
    pull(
        s,
        missing_names(s.info.global_symtable, s.info.global_symtable.keys.len() as int),
        Seq::empty(),
        libs,
    )
}

/// The session that the search of the libraries leaves, whether it succeeds
/// or fails.
pub open spec fn satisfy_reached(s: LinkState, libs: Seq<LibView>) -> LinkState {
    pull_reached(
        s,
        missing_names(s.info.global_symtable, s.info.global_symtable.keys.len() as int),
        Seq::empty(),
        libs,
    )
}

/// Whether a library is well formed: its tables have a value for each key,
/// and its modules are well formed.
pub open spec fn lib_wf(lib: LibView) -> bool {
    match lib {
        LibView::DirLib { libname, symbols, objects } => {
            &&& symbols.keys.len() == symbols.values.len()
            &&& objects.keys.len() == objects.values.len()
            &&& modules_wf(objects.values)
        },
        LibView::FileLib { libname, symbols, objects } => {
            &&& symbols.keys.len() == symbols.values.len()
            &&& modules_wf(objects)
        },
        LibView::Stub(stub) => {
            &&& stub.members.keys.len() == stub.members.values.len()
            &&& crate::types::stub::members_ok(stub.members.values)
        },
    }
}

/// Whether every library is well formed.
pub open spec fn libs_wf(libs: Seq<LibView>) -> bool {
    forall|i: int| 0 <= i < libs.len() ==> lib_wf(#[trigger] libs[i])
}


/// Whether `id` is one of the visited ids.
pub fn known(visited: &Vec<String>, id: &str) -> (b: bool)
    ensures
        b == deep(visited@).contains(id@),
{
    let mut k: usize = 0;
    while k < visited.len()
        invariant
            k <= visited@.len(),
            forall|j: int| 0 <= j < k ==> deep(visited@)[j] != id@,
        decreases visited@.len() - k,
    {
        if crate::table::str_same(visited[k].as_str(), id) {
            assert(deep(visited@)[k as int] == id@);
            return true;
        }
        k += 1;
    }
    false
}

/// The id of the module at `index` of a library file.
pub fn make_file_id(libname: &str, index: usize) -> (id: String)
    ensures
        id@ == file_id(libname@, index),
{
    let mut out: Vec<char> = Vec::new();
    push_str(&mut out, libname);
    push_str(&mut out, "_mod_");
    push_dec(&mut out, index);
    assert(out@ =~= file_id(libname@, index));
    assert(out@.subrange(0, out@.len() as int) =~= out@);
    string_of(out.as_slice(), 0, out.len())
}

/// The id of a member of a stub library.
pub fn make_stub_id(libname: &str, member: &str) -> (id: String)
    ensures
        id@ == stub_id(libname@, member@),
{
    let mut out: Vec<char> = Vec::new();
    push_str(&mut out, libname);
    push_str(&mut out, "_");
    push_str(&mut out, member);
    assert(out@ =~= stub_id(libname@, member@));
    assert(out@.subrange(0, out@.len() as int) =~= out@);
    string_of(out.as_slice(), 0, out.len())
}

/// The first entry of the map of a library directory that was not taken in
/// yet and lists the name.
fn listing(symbols: &Table<String, Table<SymbolName, ()>>, name: &SymbolName, visited: &Vec<String>)
    -> (k: usize)
    requires
        symbols.keys@.len() == symbols.values@.len(),
    ensures
        k == first_listing(symbols.deep_view(), name@, deep(visited@), 0),
        k <= symbols.keys@.len(),
{
    let ghost sv = symbols.deep_view();
    let mut k: usize = 0;
    while k < symbols.keys.len()
        invariant
            k <= symbols.keys@.len(),
            symbols.keys@.len() == symbols.values@.len(),
            sv == symbols.deep_view(),
            first_listing(sv, name@, deep(visited@), 0) == first_listing(
                sv,
                name@,
                deep(visited@),
                k as int,
            ),
        decreases symbols.keys@.len() - k,
    {
        assert(sv.keys[k as int] == symbols.keys@[k as int]@);
        assert(sv.values[k as int] == symbols.values@[k as int].deep_view());
        if !known(visited, symbols.keys[k].as_str()) && symbols.values[k].contains_key(name) {
            return k;
        }
        k += 1;
    }
    k
}

/// The first member from `from` on of a stub library that was not used up
/// yet and exports the name.
fn member_of(stub: &StubLib, name: &SymbolName, visited: &Vec<String>) -> (k: usize)
    requires
        stub.members.keys@.len() == stub.members.values@.len(),
    ensures
        k == first_member(stub.deep_view(), name@, deep(visited@), 0),
        k <= stub.members.keys@.len(),
{
    let ghost sv = stub.deep_view();
    let mut k: usize = 0;
    while k < stub.members.keys.len()
        invariant
            k <= stub.members.keys@.len(),
            stub.members.keys@.len() == stub.members.values@.len(),
            sv == stub.deep_view(),
            first_member(sv, name@, deep(visited@), 0) == first_member(
                sv,
                name@,
                deep(visited@),
                k as int,
            ),
        decreases stub.members.keys@.len() - k,
    {
        assert(sv.members.keys[k as int] == stub.members.keys@[k as int]@);
        assert(sv.members.values[k as int] == stub.members.values@[k as int].deep_view());
        let id = make_stub_id(stub.libname.as_str(), stub.members.keys[k].as_str());
        if !known(visited, id.as_str()) && stub.members.values[k].syms.contains_key(name) {
            return k;
        }
        k += 1;
    }
    k
}

/// What a library offers for a name, the module copied.
pub enum Offered {
    Nothing,
    Stop,
    Module { id: String, module: ObjectIn },
    Stub { lib: usize, member: usize },
}

impl Offered {
    /// What is offered.
    pub open spec fn offer(self) -> Offer {
        match self {
            Offered::Nothing => Offer::Nothing,
            Offered::Stop => Offer::Stop,
            Offered::Module { id, module } => Offer::Module { id: id@, module: module@ },
            Offered::Stub { lib, member } => Offer::Stub { lib: lib as int, member: member as int },
        }
    }

    /// A module that is offered is well formed, and a stub member that is
    /// offered is a member of a stub library.
    pub open spec fn sound(self, libs: Seq<LibView>) -> bool {
        match self {
            Offered::Module { id, module } => module@.wf(),
            Offered::Stub { lib, member } => lib < libs.len() && libs[lib as int] is Stub && member
                < libs[lib as int]->Stub_0.members.keys.len(),
            _ => true,
        }
    }
}

/// What the library at `at` offers for a name.
fn offer(libs: &Vec<StaticLib>, at: usize, name: &SymbolName, visited: &Vec<String>) -> (r: Offered)
    requires
        at < libs@.len(),
        libs_wf(deep(libs@)),
    ensures
        r.offer() == offer_of(deep(libs@)[at as int], at as int, name@, deep(visited@)),
        r.sound(deep(libs@)),
{
    let lib = &libs[at];
    assert(deep(libs@)[at as int] == lib.deep_view());
    assert(lib_wf(deep(libs@)[at as int]));
    match lib {
        StaticLib::DirLib { libname, symbols, objects } => {
            let k = listing(symbols, name, visited);
            if k >= symbols.keys.len() {
                Offered::Nothing
            } else {
                assert(symbols.deep_view().keys[k as int] == symbols.keys@[k as int]@);
                match objects.find(&symbols.keys[k]) {
                    Some(i) => {
                        let module = objects.values[i].duplicate();
                        assert(objects.deep_view().values[i as int] == module@);
                        Offered::Module { id: symbols.keys[k].clone(), module }
                    },
                    None => Offered::Stop,
                }
            }
        },
        StaticLib::FileLib { libname, symbols, objects } => {
            match symbols.get(name) {
                Some(index) => {
                    let index: usize = *index;
                    if index < objects.len() {
                        let id = make_file_id(libname.as_str(), index);
                        if known(visited, id.as_str()) {
                            Offered::Nothing
                        } else {
                            let module = objects[index].duplicate();
                            assert(deep(objects@)[index as int] == module@);
                            Offered::Module { id, module }
                        }
                    } else {
                        Offered::Nothing
                    }
                },
                None => Offered::Nothing,
            }
        },
        StaticLib::Stub(stub) => {
            let k = member_of(stub, name, visited);
            if k >= stub.members.keys.len() {
                Offered::Nothing
            } else {
                Offered::Stub { lib: at, member: k }
            }
        },
    }
}

/// What the libraries offer for a name.
fn scan(libs: &Vec<StaticLib>, name: &SymbolName, visited: &Vec<String>) -> (r: Offered)
    requires
        libs_wf(deep(libs@)),
    ensures
        r.offer() == first_offer(deep(libs@), name@, deep(visited@), 0),
        r.sound(deep(libs@)),
{
    let mut at: usize = 0;
    while at < libs.len()
        invariant
            at <= libs@.len(),
            libs_wf(deep(libs@)),
            first_offer(deep(libs@), name@, deep(visited@), 0) == first_offer(
                deep(libs@),
                name@,
                deep(visited@),
                at as int,
            ),
        decreases libs@.len() - at,
    {
        let o = offer(libs, at, name, visited);
        match o {
            Offered::Nothing => {},
            _ => {
                return o;
            },
        }
        at += 1;
    }
    Offered::Nothing
}


/// The first stub library of the given name.
fn stub_named(libs: &Vec<StaticLib>, libname: &str) -> (j: usize)
    ensures
        j == find_stub(deep(libs@), libname@, 0),
        j <= libs@.len(),
        j < libs@.len() ==> deep(libs@)[j as int] is Stub,
{
    let mut j: usize = 0;
    while j < libs.len()
        invariant
            j <= libs@.len(),
            find_stub(deep(libs@), libname@, 0) == find_stub(deep(libs@), libname@, j as int),
        decreases libs@.len() - j,
    {
        assert(deep(libs@)[j as int] == libs@[j as int].deep_view());
        match &libs[j] {
            StaticLib::Stub(stub) => {
                if crate::table::str_same(stub.libname.as_str(), libname) {
                    return j;
                }
            },
            _ => {},
        }
        j += 1;
    }
    j
}

/// Whether `j` is one of `path`.
fn on_path(path: &Vec<usize>, j: usize) -> (b: bool)
    ensures
        b == path@.map_values(|x: usize| x as int).contains(j as int),
{
    let ghost p = path@.map_values(|x: usize| x as int);
    let mut k: usize = 0;
    while k < path.len()
        invariant
            k <= path@.len(),
            p == path@.map_values(|x: usize| x as int),
            forall|i: int| 0 <= i < k ==> p[i] != j as int,
        decreases path@.len() - k,
    {
        if path[k] == j {
            assert(p[k as int] == j as int);
            return true;
        }
        k += 1;
    }
    false
}

/// Follows the definition of a name from a member of a stub library.
fn follow(libs: &Vec<StaticLib>, lib: usize, member: usize, name: &SymbolName) -> (r: Result<
    (i32, usize, usize),
    LinkError,
>)
    requires
        libs_wf(deep(libs@)),
        lib < libs@.len(),
        deep(libs@)[lib as int] is Stub,
        member < deep(libs@)[lib as int]->Stub_0.members.keys.len(),
    ensures
        match r {
            Ok(f) => chase(deep(libs@), lib as int, member as int, name@, Seq::empty()) == Ok::<
                Found,
                LinkError,
            >(Found { addr: f.0, lib: f.1 as int, member: f.2 as int })
                && f.1 < libs@.len() && deep(libs@)[f.1 as int] is Stub && f.2 < deep(
                libs@,
            )[f.1 as int]->Stub_0.members.keys.len(),
            Err(e) => chase(deep(libs@), lib as int, member as int, name@, Seq::empty())
                == Err::<Found, LinkError>(e),
        },
{
    let ghost all = deep(libs@);
    let ghost goal = chase(all, lib as int, member as int, name@, Seq::empty());
    let mut at = lib;
    let mut mem = member;
    let mut path: Vec<usize> = Vec::new();
    assert(path@.map_values(|x: usize| x as int) =~= Seq::<int>::empty());
    loop
        invariant
            all == deep(libs@),
            libs_wf(all),
            at < libs@.len(),
            all[at as int] is Stub,
            mem < all[at as int]->Stub_0.members.keys.len(),
            goal == chase(all, lib as int, member as int, name@, Seq::empty()),
            chase(all, at as int, mem as int, name@, path@.map_values(|x: usize| x as int))
                == goal,
        decreases off_path(path@.map_values(|x: usize| x as int), at as int, all.len() as int),
    {
        assert(all[at as int] == libs@[at as int].deep_view());
        assert(lib_wf(all[at as int]));
        let stub = match &libs[at] {
            StaticLib::Stub(stub) => stub,
            _ => {
                return Err(LinkError::UnexpectedLinkError);
            },
        };
        assert(stub.deep_view().members.values[mem as int]
            == stub.members.values@[mem as int].deep_view());
        match stub.members.values[mem].syms.get(name) {
            None => {
                return Err(LinkError::SharedLibRefDefnNotFound);
            },
            Some(StubTarget::Addr(addr)) => {
                return Ok((*addr, at, mem));
            },
            Some(StubTarget::Lib(other)) => {
                let j = stub_named(libs, other.as_str());
                if j >= libs.len() {
                    return Err(LinkError::SharedLibRefDefnNotFound);
                }
                if j == at || on_path(&path, j) {
                    return Err(LinkError::SharedLibsReferenceCycle);
                }
                assert(all[j as int] == libs@[j as int].deep_view());
                assert(lib_wf(all[j as int]));
                let next = match &libs[j] {
                    StaticLib::Stub(next) => next,
                    _ => {
                        return Err(LinkError::UnexpectedLinkError);
                    },
                };
                let none: Vec<String> = Vec::new();
                assert(deep(none@) =~= Seq::<Seq<char>>::empty());
                let k = member_of(next, name, &none);
                if k >= next.members.keys.len() {
                    return Err(LinkError::SharedLibRefDefnNotFound);
                }
                let ghost before = path@.map_values(|x: usize| x as int);
                proof {
                    lemma_off_path(before, at as int, j as int, all.len() as int);
                }
                path.push(at);
                assert(path@.map_values(|x: usize| x as int) =~= before.push(at as int));
                at = j;
                mem = k;
            },
        }
    }
}

/// Records a definition from a stub library in the global symbol table.
fn record(g: &mut Table<SymbolName, GlobalEntry>, name: &SymbolName, d: Defn) -> (r: Result<
    (),
    LinkError,
>)
    requires
        crate::linker::ingest::refs_ok(old(g).deep_view()),
    ensures
        match r {
            Ok(()) => record_stub(old(g).deep_view(), name@, d@) == Ok::<
                TableModel<SymbolId, GlobalEntryView>,
                LinkError,
            >(final(g).deep_view()) && crate::linker::ingest::refs_ok(final(g).deep_view()),
            Err(e) => record_stub(old(g).deep_view(), name@, d@) == Err::<
                TableModel<SymbolId, GlobalEntryView>,
                LinkError,
            >(e) && final(g).deep_view() == old(g).deep_view(),
        },
{
    let ghost g0 = g.deep_view();
    match g.find(name) {
        None => Ok(()),
        Some(at) => {
            assert(g0.values[at as int] == g.values@[at as int].deep_view());
            if g.values[at].0.is_some() {
                return Err(LinkError::MultipleSymbolDefinitions);
            }
            let (_, refs) = g.values.remove(at);
            let entry: GlobalEntry = (Some(d), refs);
            assert(entry.deep_view() == (Some(d@), g0.values[at as int].1));
            g.values.insert(at, entry);
            assert(g.deep_view().values =~= g0.values.update(at as int, entry.deep_view()));
            assert(g.deep_view().keys =~= g0.keys);
            Ok(())
        },
    }
}

/// For each symbol of a module, whether the global symbol table lacks its name.
fn unknown(o: &ObjectIn, g: &Table<SymbolName, GlobalEntry>) -> (flags: Vec<bool>)
    ensures
        flags@.len() == o@.symbol_table.len(),
        forall|k: int|
            0 <= k < flags@.len() ==> flags@[k] == !holds::<SymbolName>(
                g.deep_view().keys,
                (#[trigger] o@.symbol_table[k]).st_name,
            ),
{
    let mut flags: Vec<bool> = Vec::new();
    let mut k: usize = 0;
    while k < o.symbol_table.len()
        invariant
            k <= o.symbol_table@.len(),
            flags@.len() == k,
            o@.symbol_table.len() == o.symbol_table@.len(),
            forall|j: int|
                0 <= j < k ==> flags@[j] == !holds::<SymbolName>(
                    g.deep_view().keys,
                    (#[trigger] o@.symbol_table[j]).st_name,
                ),
        decreases o.symbol_table@.len() - k,
    {
        let sym = &o.symbol_table[k];
        assert(sym@ == o@.symbol_table[k as int]);
        flags.push(!g.contains_key(&sym.st_name));
        k += 1;
    }
    flags
}

/// Adds to the worklist the names of the symbols of a module that the global
/// symbol table did not hold before, by the flags, and holds without a
/// definition now.
fn push_undefined(
    worklist: &mut Vec<SymbolName>,
    o: &ObjectIn,
    flags: &Vec<bool>,
    g: &Table<SymbolName, GlobalEntry>,
    Ghost(before): Ghost<TableModel<SymbolId, GlobalEntryView>>,
)
    requires
        flags@.len() == o@.symbol_table.len(),
        forall|k: int|
            0 <= k < flags@.len() ==> flags@[k] == !holds::<SymbolName>(
                before.keys,
                (#[trigger] o@.symbol_table[k]).st_name,
            ),
    ensures
        deep(final(worklist)@) == deep(old(worklist)@) + undefined_names(
            o@.symbol_table,
            before,
            g.deep_view(),
            o@.symbol_table.len() as int,
        ),
{
    let ghost start = deep(worklist@);
    let mut k: usize = 0;
    assert(start + Seq::<SymbolId>::empty() =~= start);
    while k < o.symbol_table.len()
        invariant
            k <= o.symbol_table@.len(),
            o@.symbol_table.len() == o.symbol_table@.len(),
            flags@.len() == o@.symbol_table.len(),
            forall|j: int|
                0 <= j < flags@.len() ==> flags@[j] == !holds::<SymbolName>(
                    before.keys,
                    (#[trigger] o@.symbol_table[j]).st_name,
                ),
            start == deep(old(worklist)@),
            deep(worklist@) == start + undefined_names(
                o@.symbol_table,
                before,
                g.deep_view(),
                k as int,
            ),
        decreases o.symbol_table@.len() - k,
    {
        let sym = &o.symbol_table[k];
        assert(sym@ == o@.symbol_table[k as int]);
        let lacks = match g.get(&sym.st_name) {
            Some(e) => e.0.is_none(),
            None => false,
        };
        if flags[k] && lacks {
            let ghost was = deep(worklist@);
            let name = sym.st_name.duplicate();
            worklist.push(name);
            assert(deep(worklist@) =~= was.push(name@));
            assert(start + undefined_names(o@.symbol_table, before, g.deep_view(), k + 1) =~= (start
                + undefined_names(o@.symbol_table, before, g.deep_view(), k as int)).push(name@));
        }
        k += 1;
    }
}

/// The names of the global symbol table that have no definition.
pub fn missing(g: &Table<SymbolName, GlobalEntry>) -> (names: Vec<SymbolName>)
    requires
        g.keys@.len() == g.values@.len(),
    ensures
        deep(names@) == missing_names(g.deep_view(), g.keys@.len() as int),
{
    let mut names: Vec<SymbolName> = Vec::new();
    let mut k: usize = 0;
    assert(deep(names@) =~= Seq::<SymbolId>::empty());
    while k < g.keys.len()
        invariant
            k <= g.keys@.len(),
            g.keys@.len() == g.values@.len(),
            deep(names@) == missing_names(g.deep_view(), k as int),
        decreases g.keys@.len() - k,
    {
        assert(g.deep_view().values[k as int] == g.values@[k as int].deep_view());
        assert(g.deep_view().keys[k as int] == g.keys@[k as int]@);
        if g.values[k].0.is_none() {
            let ghost before = deep(names@);
            let name = g.keys[k].duplicate();
            names.push(name);
            assert(deep(names@) =~= before.push(name@));
        }
        k += 1;
    }
    names
}

/// Searches the libraries for every name that the global symbol table holds
/// without a definition, and takes in the modules that define them. A
/// search that fails leaves what it took in before.
pub fn static_libs_symbol_lookup(w: &mut Work, libs: &Vec<StaticLib>) -> (r: Result<(), LinkError>)
    requires
        old(w)@.wf(),
        libs_wf(deep(libs@)),
    ensures
        match r {
            Ok(()) => satisfy(old(w)@, deep(libs@)) == Ok::<LinkState, LinkError>(final(w)@),
            Err(e) => satisfy(old(w)@, deep(libs@)) == Err::<LinkState, LinkError>(e),
        },
        final(w)@ == satisfy_reached(old(w)@, deep(libs@)),
        final(w)@.wf(),
{
    let ghost all = deep(libs@);
    let ghost goal = satisfy(w@, all);
    let ghost end = satisfy_reached(w@, all);
    let mut worklist = missing(&w.info.global_symtable);
    let mut visited: Vec<String> = Vec::new();
    assert(deep(visited@) =~= Seq::<Seq<char>>::empty());
    while worklist.len() > 0
        invariant
            all == deep(libs@),
            libs_wf(all),
            w@.wf(),
            pull(w@, deep(worklist@), deep(visited@), all) == goal,
            pull_reached(w@, deep(worklist@), deep(visited@), all) == end,
            goal == satisfy(old(w)@, all),
            end == satisfy_reached(old(w)@, all),
        decreases fresh(all, deep(visited@), all.len() as int), worklist@.len(),
    {
        let ghost list = deep(worklist@);
        let ghost seen = deep(visited@);
        let ghost s = w@;
        let name = worklist.pop().unwrap();
        assert(name@ == list.last());
        assert(deep(worklist@) =~= list.drop_last());
        let waits = match w.info.global_symtable.get(&name) {
            Some(e) => e.0.is_none(),
            None => false,
        };
        assert(waits == lacks_definition(s.info.global_symtable, name@));
        let found = if waits {
            scan(libs, &name, &visited)
        } else {
            Offered::Nothing
        };
        match found {
            Offered::Nothing => {},
            Offered::Stop => {},
            Offered::Module { id, module } => {
                proof {
                    lemma_pull_decreases(all, name@, seen);
                }
                let ghost taken = module@;
                let flags = unknown(&module, &w.info.global_symtable);
                visited.push(id.clone());
                assert(deep(visited@) =~= seen.push(id@));
                match alloc_storage_and_symtables(w, id, module) {
                    Err(e) => {
                        return Err(e);
                    },
                    Ok(()) => {},
                }
                let last = w.session.modules.len() - 1;
                assert(w.session.modules@[last as int]@ == taken) by {
                    assert(w@.session.modules[last as int] == taken);
                }
                push_undefined(
                    &mut worklist,
                    &w.session.modules[last],
                    &flags,
                    &w.info.global_symtable,
                    Ghost(s.info.global_symtable),
                );
            },
            Offered::Stub { lib, member } => {
                let (addr, l, m) = match follow(libs, lib, member, &name) {
                    Err(e) => {
                        return Err(e);
                    },
                    Ok(f) => f,
                };
                assert(all[l as int] == libs@[l as int].deep_view());
                let defn = match &libs[l] {
                    StaticLib::Stub(stub) => {
                        assert(stub.deep_view().members.keys[m as int]
                            == stub.members.keys@[m as int]@);
                        Defn::shared_lib_defn(stub.members.keys[m].clone(), addr, stub.libname.clone())
                    },
                    _ => {
                        return Err(LinkError::UnexpectedLinkError);
                    },
                };
                assert(defn@ == stub_defn(
                    all,
                    Found { addr, lib: l as int, member: m as int },
                ));
                match record(&mut w.info.global_symtable, &name, defn) {
                    Err(e) => {
                        return Err(e);
                    },
                    Ok(()) => {},
                }
            },
        }
    }
    Ok(())
}


/// Whether every value of a table is a well-formed module.
pub open spec fn modules_wf(values: Seq<ObjectView>) -> bool {
    forall|i: int| 0 <= i < values.len() ==> (#[trigger] values[i]).wf()
}

/// A table of well-formed modules stays one when a well-formed module is put in.
pub proof fn lemma_put_keeps<K: Key, V>(m: TableModel<K::V, ObjectView>, k: K::V, o: ObjectView)
    requires
        m.keys.len() == m.values.len(),
        modules_wf(m.values),
        o.wf(),
    ensures
        modules_wf(table_put::<K, ObjectView>(m, k, o).values),
{
    let t = table_put::<K, ObjectView>(m, k, o);
    let at = slot::<K>(m.keys, k);
    crate::table::lemma_slot::<K>(m.keys, k);
    assert forall|i: int| 0 <= i < t.values.len() implies (#[trigger] t.values[i]).wf() by {
        if holds::<K>(m.keys, k) {
            if i != at {
                assert(t.values[i] == m.values[i]);
            }
        } else {
            if i < at {
                assert(t.values[i] == m.values[i]);
            } else if i > at {
                assert(t.values[i] == m.values[i - 1]);
            }
        }
    }
}


/// A listing that is found stands for a module that was not taken in yet.
pub proof fn lemma_first_listing(
    symbols: TableModel<Seq<char>, TableModel<SymbolId, ()>>,
    name: SymbolId,
    visited: Seq<Seq<char>>,
    from: int,
)
    requires
        0 <= from,
    ensures
        from <= first_listing(symbols, name, visited, from) || first_listing(
            symbols,
            name,
            visited,
            from,
        ) == symbols.keys.len(),
        first_listing(symbols, name, visited, from) < symbols.keys.len() ==> !visited.contains(
            symbols.keys[first_listing(symbols, name, visited, from)],
        ),
    decreases symbols.keys.len() - from,
{
    if from < symbols.keys.len() {
        if !visited.contains(symbols.keys[from]) && holds::<SymbolName>(
            symbols.values[from].keys,
            name,
        ) {
        } else {
            lemma_first_listing(symbols, name, visited, from + 1);
        }
    }
}

/// No library offers a module under an id that was visited: what was taken
/// in from a library is not taken in again.
pub proof fn lemma_offer_is_new(
    libs: Seq<LibView>,
    name: SymbolId,
    visited: Seq<Seq<char>>,
    from: int,
)
    requires
        0 <= from,
    ensures
        first_offer(libs, name, visited, from) is Module ==> !visited.contains(
            first_offer(libs, name, visited, from)->id,
        ),
    decreases libs.len() - from,
{
    if from < libs.len() {
        match libs[from] {
            LibView::DirLib { libname, symbols, objects } => {
                lemma_first_listing(symbols, name, visited, 0);
            },
            _ => {},
        }
        if offer_of(libs[from], from, name, visited) is Nothing {
            lemma_offer_is_new(libs, name, visited, from + 1);
        }
    }
}

/// A session does not take in a second module under an id that it knows.
pub proof fn lemma_ingest_once(s: LinkState, id: Seq<char>, o: ObjectView)
    requires
        s.session.knows(id),
    ensures
        ingest(s, id, o) == Err::<LinkState, LinkError>(LinkError::DuplicateObjectError),
{
}

/// A module that was taken in is known to the session from then on.
pub proof fn lemma_ingest_knows(s: LinkState, id: Seq<char>, o: ObjectView)
    requires
        s.session.wf(),
        ingest(s, id, o) is Ok,
    ensures
        ingest(s, id, o)->Ok_0.session.knows(id),
        ingest(s, id, o)->Ok_0.session.modules.len() == s.session.modules.len() + 1,
{
    let t = ingest(s, id, o)->Ok_0;
    crate::linker::state::lemma_position(s.session.ids, id);
    assert forall|j: int| 0 <= j < s.session.ids.len() implies t.session.ids[j] != id by {
        assert(t.session.ids[j] == s.session.ids[j]);
    }
    crate::linker::state::lemma_position_is(t.session.ids, id, s.session.ids.len() as int);
}

/// A module that was taken in for one of the names that it defines has
/// given the others their definitions too: when their turn comes they have
/// one, and the libraries are not asked for them.
pub proof fn lemma_ingest_defines(s: LinkState, id: Seq<char>, o: ObjectView, i: int)
    requires
        s.info.wf(),
        ingest(s, id, o) is Ok,
        0 <= i < o.symbol_table.len(),
        o.symbol_table[i].is_defined(),
    ensures
        has_definition(ingest(s, id, o)->Ok_0.info.global_symtable, o.symbol_table[i].st_name),
        !lacks_definition(ingest(s, id, o)->Ok_0.info.global_symtable, o.symbol_table[i].st_name),
{
    lemma_register_defines(
        s.info.global_symtable,
        id,
        o.symbol_table,
        o.symbol_table.len() as int,
        o.symbol_table[i].st_name,
    );
}

/// A name that waits for a definition gets one from a stub library, and has
/// it from then on: were it looked up again, it would be passed over.
pub proof fn lemma_stub_defines(
    g: TableModel<SymbolId, GlobalEntryView>,
    name: SymbolId,
    d: DefnView,
)
    requires
        table_wf::<SymbolName, GlobalEntryView>(g),
        lacks_definition(g, name),
    ensures
        record_stub(g, name, d) is Ok,
        has_definition(record_stub(g, name, d)->Ok_0, name),
        !lacks_definition(record_stub(g, name, d)->Ok_0, name),
{
    let e = table_get::<SymbolName, GlobalEntryView>(g, name)->0;
    lemma_get_put::<SymbolName, GlobalEntryView>(g, name, (Some(d), e.1), name);
}

} // verus!
