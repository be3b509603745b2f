//! The link editor.

use crate::linker::ingest::{alloc_storage_and_symtables, ingest, ingest_reached};
use crate::linker::layout::{
    allocate_commons, common_block_allocation, laid_out, lemma_commons, lemma_place,
    patch_segment_offsets, place, starts_of, Config,
};
use crate::linker::libs::{
    file_id, lemma_put_keeps, lib_wf, libs_wf, make_file_id, modules_wf, satisfy,
    static_libs_symbol_lookup,
};
use crate::linker::relocate::{relocated, run_relocations};
use crate::linker::resolve::{
    all_defined, all_resolved, check_defined, lemma_resolve, resolve, resolve_global_sym_offsets,
};
use crate::linker::state::{
    initial_state, GlobalEntryView, InfoView, LinkState, LinkerInfo, Session, SessionView, Work,
};
use crate::linker::wrap::{module_clashes, wrap_module, wrap_one};
use crate::table::{deep, table_empty, table_put, Key, Table, TableModel};
use crate::types::errors::LinkError;
use crate::types::library::{LibView, StaticLib};
use crate::types::object::{ObjectIn, ObjectView};
use crate::types::out::{ObjectOut, OutView};
use crate::types::symbol_table::{
    SymbolId, SymbolName, SymbolTableEntry, SymbolTableEntryType, SymbolView,
};
use vstd::prelude::*;

verus! {

/// What a link builds.
#[derive(Debug, PartialEq, Eq, Clone, Copy, Structural)]
pub enum LinkObjType {
    SharedLib,
    Executable,
}

/// The order of the bytes of a number.
#[derive(Debug, PartialEq, Eq, Clone, Copy, Structural)]
pub enum Endianness {
    BigEndian,
    LittleEndian,
}

/// A link editor: where the text starts, the boundaries on which the data
/// segments start, and the modules of the last link.
pub struct LinkerEditor {
    pub text_start: i32,
    pub data_start_boundary: i32,
    pub bss_start_boundary: i32,
    pub session_objects: Session,
    pub silent: bool,
    pub endianness: Endianness,
}

/// The modules with the names wrapped; an error if a symbol of a module
/// stands in the way.
pub open spec fn wrap_all(names: Seq<SymbolId>, modules: Seq<ObjectView>) -> Result<
    Seq<ObjectView>,
    LinkError,
> {
    if exists|i: int| 0 <= i < modules.len() && module_clashes(names, #[trigger] modules[i]) {
        Err(LinkError::WrappedSymbolNameAlreadyExists)
    } else {
        Ok(modules.map_values(|o: ObjectView| wrap_module(names, o)))
    }
}

/// The session after the first `n` modules were taken in, in their order.
pub open spec fn ingest_all(s: LinkState, ids: Seq<Seq<char>>, modules: Seq<ObjectView>, n: int)
    -> Result<LinkState, LinkError>
    decreases n,
{
    if n <= 0 {
        Ok(s)
    } else {
        match ingest_all(s, ids, modules, n - 1) {
            Err(e) => Err(e),
            Ok(t) => ingest(t, ids[n - 1], modules[n - 1]),
        }
    }
}

/// Taking in that fails on the first `k` modules fails in the same way on more.
pub proof fn lemma_ingest_all_err(
    s: LinkState,
    ids: Seq<Seq<char>>,
    modules: Seq<ObjectView>,
    k: int,
    n: int,
)
    requires
        k <= n,
        ingest_all(s, ids, modules, k) is Err,
    ensures
        ingest_all(s, ids, modules, n) == ingest_all(s, ids, modules, k),
    decreases n - k,
{
    if k < n {
        lemma_ingest_all_err(s, ids, modules, k, n - 1);
    }
}

/// The session that taking in the first `n` modules leaves, whether it
/// succeeds or fails: the modules before the one that fails are in it, and
/// of that one what `ingest_reached` says.
pub open spec fn ingest_all_reached(
    s: LinkState,
    ids: Seq<Seq<char>>,
    modules: Seq<ObjectView>,
    n: int,
) -> LinkState
    decreases n,
{
    if n <= 0 {
        s
    } else {
        match ingest_all(s, ids, modules, n - 1) {
            Err(_) => ingest_all_reached(s, ids, modules, n - 1),
            Ok(t) => ingest_reached(t, ids[n - 1], modules[n - 1]),
        }
    }
}

/// Taking in that fails on the first `k` modules goes no further on more.
pub proof fn lemma_ingest_all_reached_err(
    s: LinkState,
    ids: Seq<Seq<char>>,
    modules: Seq<ObjectView>,
    k: int,
    n: int,
)
    requires
        k <= n,
        ingest_all(s, ids, modules, k) is Err,
    ensures
        ingest_all_reached(s, ids, modules, n) == ingest_all_reached(s, ids, modules, k),
    decreases n - k,
{
    if k < n {
        lemma_ingest_all_err(s, ids, modules, k, n - 1);
        lemma_ingest_all_reached_err(s, ids, modules, k, n - 1);
    }
}

/// The global symbol as a shared library lists it: defined, absolute, at its address.
pub open spec fn exported_symbol(name: SymbolId, e: GlobalEntryView) -> SymbolView {
    SymbolView {
        st_name: name,
        st_value: match e.0 {
            Some(d) => match d.defn_addr {
                Some(a) => a,
                None => 0,
            },
            None => 0,
        },
        st_seg: 0,
        st_type: SymbolTableEntryType::D,
    }
}

/// The symbols that a shared library lists: the global symbols in the order of their names.
pub open spec fn exported_symbols(g: TableModel<SymbolId, GlobalEntryView>) -> Seq<SymbolView> {
    Seq::new(g.keys.len(), |i: int| exported_symbol(g.keys[i], g.values[i]))
}

/// The session with the symbol table of the image filled in: a shared
/// library lists the global symbols, an executable lists none.
pub open spec fn emit_symbols(s: LinkState, ty: LinkObjType) -> Result<LinkState, LinkError> {
    if ty == LinkObjType::Executable {
        Ok(s)
    } else if s.info.global_symtable.keys.len() > i32::MAX {
        Err(LinkError::IntOverflowError)
    } else {
        Ok(
            LinkState {
                out: OutView {
                    nsyms: s.info.global_symtable.keys.len() as i32,
                    symbol_table: exported_symbols(s.info.global_symtable),
                    ..s.out
                },
                ..s
            },
        )
    }
}

/// What a link makes of the modules, the libraries and the names to wrap.
/// The names are wrapped in every module; the modules are taken in, in their
/// order; the libraries are searched for what is undefined; the segments are
/// laid out and the common blocks get their room; every global symbol must
/// have a definition by then and gets its address; the relocations are
/// applied; a shared library lists the global symbols.
pub open spec fn link_spec(
    cfg: Config,
    ids: Seq<Seq<char>>,
    modules: Seq<ObjectView>,
    libs: Seq<LibView>,
    names: Seq<SymbolId>,
    ty: LinkObjType,
) -> Result<LinkState, LinkError> {
    match wrap_all(names, modules) {
        Err(e) => Err(e),
        Ok(wrapped) => match ingest_all(initial_state(), ids, wrapped, wrapped.len() as int) {
            Err(e) => Err(e),
            Ok(s1) => match satisfy(s1, libs) {
                Err(e) => Err(e),
                Ok(s2) => match place(s2, cfg) {
                    Err(e) => Err(e),
                    Ok(s3) => match allocate_commons(
                        s3,
                        starts_of(s2.out, cfg, s2.got_size).bss as i32,
                    ) {
                        Err(e) => Err(e),
                        Ok(s4) => if !all_defined(s4.info.global_symtable) {
                            Err(LinkError::UndefinedSymbolError)
                        } else {
                            match resolve(s4) {
                                Err(e) => Err(e),
                                Ok(s5) => match relocated(s5, cfg.text_start) {
                                    Err(e) => Err(e),
                                    Ok(s6) => emit_symbols(s6, ty),
                                },
                            }
                        },
                    },
                },
            },
        },
    }
}

/// Whether a link ended as `link_spec` says: with the same error, or with
/// the image, the tables and the modules of its last state.
pub open spec fn link_result(
    want: Result<LinkState, LinkError>,
    got: Result<(ObjectOut, LinkerInfo), LinkError>,
    session: SessionView,
) -> bool {
    match got {
        Ok(pair) => want is Ok && want->Ok_0.out == pair.0@ && want->Ok_0.info == pair.1@
            && want->Ok_0.session == session,
        Err(e) => want == Err::<LinkState, LinkError>(e),
    }
}

/// What holds of every image that a link returns: each segment has data of
/// its length, the counts are right, the segments stand where the layout
/// puts them, every global symbol has a definition with an address, and the
/// tables of the session are well formed.
pub open spec fn linked(cfg: Config, out: OutView, info: InfoView) -> bool {
    out.wf() && laid_out(out, cfg) && all_resolved(info.global_symtable) && info.wf()
}

/// Copies of the modules with the names wrapped.
fn wrap_routines(names: &Vec<SymbolName>, modules: &Vec<ObjectIn>) -> (r: Result<
    Vec<ObjectIn>,
    LinkError,
>)
    requires
        forall|i: int| 0 <= i < modules@.len() ==> (#[trigger] deep(modules@)[i]).wf(),
    ensures
        match r {
            Ok(v) => wrap_all(deep(names@), deep(modules@)) == Ok::<Seq<ObjectView>, LinkError>(
                deep(v@),
            ) && forall|i: int| 0 <= i < v@.len() ==> (#[trigger] deep(v@)[i]).wf(),
            Err(e) => wrap_all(deep(names@), deep(modules@)) == Err::<
                Seq<ObjectView>,
                LinkError,
            >(e),
        },
{
    let ghost ns = deep(names@);
    let ghost ms = deep(modules@);
    let mut v: Vec<ObjectIn> = Vec::new();
    let mut k: usize = 0;
    while k < modules.len()
        invariant
            k <= modules@.len(),
            ns == deep(names@),
            ms == deep(modules@),
            v@.len() == k,
            forall|i: int| 0 <= i < modules@.len() ==> (#[trigger] ms[i]).wf(),
            forall|i: int| 0 <= i < k ==> !module_clashes(ns, #[trigger] ms[i]),
            forall|i: int| 0 <= i < k ==> (#[trigger] deep(v@)[i]) == wrap_module(ns, ms[i]),
            forall|i: int| 0 <= i < k ==> (#[trigger] deep(v@)[i]).wf(),
        decreases modules@.len() - k,
    {
        assert(ms[k as int] == modules@[k as int]@);
        match wrap_one(names.as_slice(), &modules[k]) {
            Err(e) => {
                assert(module_clashes(ns, ms[k as int]));
                return Err(e);
            },
            Ok(m) => {
                proof {
                    crate::linker::wrap::lemma_wrap_wf(ns, ms[k as int]);
                }
                let ghost before = deep(v@);
                v.push(m);
                assert(deep(v@) =~= before.push(m@));
            },
        }
        k += 1;
    }
    assert(deep(v@) =~= ms.map_values(|o: ObjectView| wrap_module(ns, o)));
    Ok(v)
}

/// Takes the modules in, in their order.
fn take_all_in(w: &mut Work, ids: &Vec<String>, modules: &Vec<ObjectIn>) -> (r: Result<
    (),
    LinkError,
>)
    requires
        old(w)@.wf(),
        ids@.len() == modules@.len(),
        forall|i: int| 0 <= i < modules@.len() ==> (#[trigger] deep(modules@)[i]).wf(),
    ensures
        match r {
            Ok(()) => ingest_all(old(w)@, deep(ids@), deep(modules@), modules@.len() as int)
                == Ok::<LinkState, LinkError>(final(w)@) && final(w)@.wf(),
            Err(e) => ingest_all(old(w)@, deep(ids@), deep(modules@), modules@.len() as int)
                == Err::<LinkState, LinkError>(e),
        },
        final(w)@ == ingest_all_reached(old(w)@, deep(ids@), deep(modules@), modules@.len() as int),
{
    let ghost s0 = w@;
    let ghost ms = deep(modules@);
    let ghost names = deep(ids@);
    let n = ids.len();
    let mut k: usize = 0;
    while k < n
        invariant
            k <= n,
            n == ids@.len(),
            n == modules@.len(),
            s0 == old(w)@,
            ms == deep(modules@),
            names == deep(ids@),
            w@.wf(),
            forall|i: int| 0 <= i < n ==> (#[trigger] ms[i]).wf(),
            ingest_all(s0, names, ms, k as int) == Ok::<LinkState, LinkError>(w@),
            ingest_all_reached(s0, names, ms, k as int) == w@,
        decreases n - k,
    {
        let m = modules[k].duplicate();
        assert(m@ == ms[k as int]);
        assert(names[k as int] == ids@[k as int]@);
        match alloc_storage_and_symtables(w, ids[k].clone(), m) {
            Err(e) => {
                proof {
                    assert(ingest_all(s0, names, ms, k + 1) == Err::<LinkState, LinkError>(e));
                    lemma_ingest_all_err(s0, names, ms, k + 1, n as int);
                    lemma_ingest_all_reached_err(s0, names, ms, k + 1, n as int);
                }
                return Err(e);
            },
            Ok(()) => {},
        }
        k += 1;
    }
    Ok(())
}

/// Fills in the symbol table of the image.
fn fill_symbols(w: &mut Work, ty: LinkObjType) -> (r: Result<(), LinkError>)
    requires
        old(w)@.info.wf(),
        old(w)@.out.segments_wf(),
        old(w)@.out.nrels == old(w)@.out.relocations.len(),
        old(w)@.out.nsyms == old(w)@.out.symbol_table.len(),
    ensures
        match r {
            Ok(()) => emit_symbols(old(w)@, ty) == Ok::<LinkState, LinkError>(final(w)@)
                && final(w)@.out.wf(),
            Err(e) => emit_symbols(old(w)@, ty) == Err::<LinkState, LinkError>(e) && final(w)@
                == old(w)@,
        },
{
    match ty {
        LinkObjType::Executable => Ok(()),
        LinkObjType::SharedLib => {
            let ghost g = w@.info.global_symtable;
            let n = w.info.global_symtable.keys.len();
            if n > 0x7FFF_FFFF {
                return Err(LinkError::IntOverflowError);
            }
            let mut symbols: Vec<SymbolTableEntry> = Vec::new();
            let mut k: usize = 0;
            while k < n
                invariant
                    k <= n,
                    n == g.keys.len(),
                    g == w@.info.global_symtable,
                    g.keys.len() == g.values.len(),
                    symbols@.len() == k,
                    forall|i: int|
                        0 <= i < k ==> (#[trigger] deep(symbols@)[i]) == exported_symbol(
                            g.keys[i],
                            g.values[i],
                        ),
                decreases n - k,
            {
                let name = &w.info.global_symtable.keys[k];
                let entry = &w.info.global_symtable.values[k];
                assert(g.keys[k as int] == name@);
                assert(g.values[k as int] == entry.deep_view());
                let value: i32 = match &entry.0 {
                    Some(d) => match d.defn_addr {
                        Some(a) => a,
                        None => 0,
                    },
                    None => 0,
                };
                let ghost before = deep(symbols@);
                let sym = SymbolTableEntry {
                    st_name: name.duplicate(),
                    st_value: value,
                    st_seg: 0,
                    st_type: SymbolTableEntryType::D,
                };
                symbols.push(sym);
                assert(deep(symbols@) =~= before.push(sym@));
                k += 1;
            }
            assert(deep(symbols@) =~= exported_symbols(g));
            w.out.symbol_table = symbols;
            w.out.nsyms = n as i32;
            Ok(())
        },
    }
}

impl LinkerEditor {
    /// The options that the layout depends on.
    pub open spec fn config(&self) -> Config {
        Config {
            text_start: self.text_start,
            data_start_boundary: self.data_start_boundary,
            bss_start_boundary: self.bss_start_boundary,
        }
    }

    /// A link editor with the given start of the text and the given
    /// boundaries, which must not be negative.
    pub fn new(text_start: i32, data_start_boundary: i32, bss_start_boundary: i32, silent: bool)
        -> (e: LinkerEditor)
        requires
            data_start_boundary >= 0,
            bss_start_boundary >= 0,
        ensures
            e.config() == (Config { text_start, data_start_boundary, bss_start_boundary }),
            e.config().wf(),
            e.session_objects@ == SessionView::empty(),
            e.silent == silent,
    {
        LinkerEditor {
            text_start,
            data_start_boundary,
            bss_start_boundary,
            session_objects: Session::new(),
            silent,
            endianness: Endianness::BigEndian,
        }
    }

    /// Links the modules into an executable. A link that fails leaves the
    /// editor as it was, the modules of its last link included; one that
    /// succeeds changes nothing but those.
    pub fn link(
        &mut self,
        objs_in: Table<String, ObjectIn>,
        static_libs: Vec<StaticLib>,
        wrap_routines: Vec<SymbolName>,
    ) -> (r: Result<(ObjectOut, LinkerInfo), LinkError>)
        requires
            old(self).config().wf(),
            objs_in.keys@.len() == objs_in.values@.len(),
            forall|i: int|
                0 <= i < objs_in.values@.len() ==> (#[trigger] deep(objs_in.values@)[i]).wf(),
            libs_wf(deep(static_libs@)),
        ensures
            final(self).config() == old(self).config(),
            link_result(
                link_spec(
                    old(self).config(),
                    deep(objs_in.keys@),
                    deep(objs_in.values@),
                    deep(static_libs@),
                    deep(wrap_routines@),
                    LinkObjType::Executable,
                ),
                r,
                final(self).session_objects@,
            ),
            r is Ok ==> linked(old(self).config(), r->Ok_0.0@, r->Ok_0.1@),
            final(self).silent == old(self).silent,
            final(self).endianness == old(self).endianness,
            r is Err ==> *final(self) == *old(self),
    {
        self.do_link(objs_in, static_libs, wrap_routines, LinkObjType::Executable)
    }

    /// Links the modules into a shared library. A link that fails leaves
    /// the editor as it was, the modules of its last link included; one
    /// that succeeds changes nothing but those.
    pub fn link_lib(
        &mut self,
        objs_in: Table<String, ObjectIn>,
        static_libs: Vec<StaticLib>,
        wrap_routines: Vec<SymbolName>,
    ) -> (r: Result<(ObjectOut, LinkerInfo), LinkError>)
        requires
            old(self).config().wf(),
            objs_in.keys@.len() == objs_in.values@.len(),
            forall|i: int|
                0 <= i < objs_in.values@.len() ==> (#[trigger] deep(objs_in.values@)[i]).wf(),
            libs_wf(deep(static_libs@)),
        ensures
            final(self).config() == old(self).config(),
            link_result(
                link_spec(
                    old(self).config(),
                    deep(objs_in.keys@),
                    deep(objs_in.values@),
                    deep(static_libs@),
                    deep(wrap_routines@),
                    LinkObjType::SharedLib,
                ),
                r,
                final(self).session_objects@,
            ),
            r is Ok ==> linked(old(self).config(), r->Ok_0.0@, r->Ok_0.1@),
            final(self).silent == old(self).silent,
            final(self).endianness == old(self).endianness,
            r is Err ==> *final(self) == *old(self),
    {
        self.do_link(objs_in, static_libs, wrap_routines, LinkObjType::SharedLib)
    }

    fn do_link(
        &mut self,
        objs_in: Table<String, ObjectIn>,
        static_libs: Vec<StaticLib>,
        wrap_routines: Vec<SymbolName>,
        ty: LinkObjType,
    ) -> (r: Result<(ObjectOut, LinkerInfo), LinkError>)
        requires
            old(self).config().wf(),
            objs_in.keys@.len() == objs_in.values@.len(),
            forall|i: int|
                0 <= i < objs_in.values@.len() ==> (#[trigger] deep(objs_in.values@)[i]).wf(),
            libs_wf(deep(static_libs@)),
        ensures
            final(self).config() == old(self).config(),
            link_result(
                link_spec(
                    old(self).config(),
                    deep(objs_in.keys@),
                    deep(objs_in.values@),
                    deep(static_libs@),
                    deep(wrap_routines@),
                    ty,
                ),
                r,
                final(self).session_objects@,
            ),
            r is Ok ==> linked(old(self).config(), r->Ok_0.0@, r->Ok_0.1@),
            final(self).silent == old(self).silent,
            final(self).endianness == old(self).endianness,
            r is Err ==> *final(self) == *old(self),
    {
        let cfg = Config {
            text_start: self.text_start,
            data_start_boundary: self.data_start_boundary,
            bss_start_boundary: self.bss_start_boundary,
        };
        let mut w = Work::new();
        let wrapped = match self::wrap_routines(&wrap_routines, &objs_in.values) {
            Err(e) => {
                return Err(e);
            },
            Ok(v) => v,
        };
        match take_all_in(&mut w, &objs_in.keys, &wrapped) {
            Err(e) => {
                return Err(e);
            },
            Ok(()) => {},
        }
        match static_libs_symbol_lookup(&mut w, &static_libs) {
            Err(e) => {
                return Err(e);
            },
            Ok(()) => {},
        }
        let ghost s2 = w@;
        let bss_start = match patch_segment_offsets(&mut w, &cfg) {
            Err(e) => {
                return Err(e);
            },
            Ok(b) => b,
        };
        proof {
            lemma_place(s2, cfg);
        }
        let ghost s3 = w@;
        match common_block_allocation(&mut w, bss_start) {
            Err(e) => {
                return Err(e);
            },
            Ok(()) => {},
        }
        proof {
            lemma_commons(s3, cfg, bss_start);
        }
        let ghost s4 = w@;
        if !check_defined(&w.info.global_symtable) {
            return Err(LinkError::UndefinedSymbolError);
        }
        match resolve_global_sym_offsets(&mut w) {
            Err(e) => {
                return Err(e);
            },
            Ok(()) => {},
        }
        proof {
            lemma_resolve(s4);
        }
        match run_relocations(&mut w, cfg.text_start) {
            Err(e) => {
                return Err(e);
            },
            Ok(()) => {},
        }
        match fill_symbols(&mut w, ty) {
            Err(e) => {
                return Err(e);
            },
            Ok(()) => {},
        }
        let Work { session, out, info, got_size } = w;
        self.session_objects = session;
        Ok((out, info))
    }
}


/// The first `n` modules of a library file, each under its id.
pub open spec fn file_modules(libname: Seq<char>, objects: Seq<ObjectView>, n: int) -> TableModel<
    Seq<char>,
    ObjectView,
>
    decreases n,
{
    if n <= 0 {
        table_empty()
    } else {
        table_put::<String, ObjectView>(
            file_modules(libname, objects, n - 1),
            file_id(libname, (n - 1) as usize),
            objects[n - 1],
        )
    }
}

/// The modules that a library holds itself, by their ids.
pub open spec fn own_modules(lib: LibView) -> TableModel<Seq<char>, ObjectView> {
    match lib {
        LibView::DirLib { libname, symbols, objects } => objects,
        LibView::FileLib { libname, symbols, objects } => file_modules(
            libname,
            objects,
            objects.len() as int,
        ),
        LibView::Stub(stub) => table_empty(),
    }
}

/// The options of the link that builds a shared library at `start`.
pub open spec fn shared_config(start: i32) -> Config {
    Config { text_start: start, data_start_boundary: 0, bss_start_boundary: 0 }
}

impl StaticLib {
    /// Copies of the modules that the library holds itself, by their ids.
    pub fn modules(&self) -> (t: Table<String, ObjectIn>)
        requires
            lib_wf(self.deep_view()),
        ensures
            t.deep_view() == own_modules(self.deep_view()),
            t.keys@.len() == t.values@.len(),
            modules_wf(t.deep_view().values),
    {
        match self {
            StaticLib::DirLib { libname, symbols, objects } => {
                let mut keys: Vec<String> = Vec::new();
                let mut values: Vec<ObjectIn> = Vec::new();
                let mut k: usize = 0;
                while k < objects.keys.len()
                    invariant
                        k <= objects.keys@.len(),
                        objects.keys@.len() == objects.values@.len(),
                        deep(keys@) =~= deep(objects.keys@).take(k as int),
                        deep(values@) =~= deep(objects.values@).take(k as int),
                    decreases objects.keys@.len() - k,
                {
                    let ghost k0 = deep(keys@);
                    let ghost v0 = deep(values@);
                    let key = objects.keys[k].clone();
                    let value = objects.values[k].duplicate();
                    keys.push(key);
                    values.push(value);
                    assert(deep(keys@) =~= k0.push(key@));
                    assert(deep(values@) =~= v0.push(value@));
                    assert(deep(objects.keys@).take(k + 1) =~= deep(objects.keys@).take(
                        k as int,
                    ).push(objects.keys@[k as int]@));
                    assert(deep(objects.values@).take(k + 1) =~= deep(objects.values@).take(
                        k as int,
                    ).push(objects.values@[k as int]@));
                    k += 1;
                }
                assert(deep(keys@) =~= deep(objects.keys@));
                assert(deep(values@) =~= deep(objects.values@));
                Table { keys, values }
            },
            StaticLib::FileLib { libname, symbols, objects } => {
                let mut t: Table<String, ObjectIn> = Table::new();
                let mut k: usize = 0;
                while k < objects.len()
                    invariant
                        k <= objects@.len(),
                        t.keys@.len() == t.values@.len(),
                        modules_wf(deep(objects@)),
                        modules_wf(t.deep_view().values),
                        t.deep_view() == file_modules(libname@, deep(objects@), k as int),
                    decreases objects@.len() - k,
                {
                    let id = make_file_id(libname.as_str(), k);
                    let m = objects[k].duplicate();
                    assert(m@ == deep(objects@)[k as int]);
                    proof {
                        lemma_put_keeps::<String, ObjectView>(t.deep_view(), id@, m@);
                    }
                    t.insert(id, m);
                    k += 1;
                }
                t
            },
            StaticLib::Stub(_) => Table::new(),
        }
    }

    /// Links the modules of the library into a shared library whose text
    /// starts at `start`, with the given libraries to satisfy what the
    /// modules leave undefined.
    pub fn build_shared_lib(&self, start: i32, libs: Vec<StaticLib>) -> (r: Result<
        (ObjectOut, LinkerInfo),
        LinkError,
    >)
        requires
            lib_wf(self.deep_view()),
            libs_wf(deep(libs@)),
        ensures
            match r {
                Ok(p) => link_spec(
                    shared_config(start),
                    own_modules(self.deep_view()).keys,
                    own_modules(self.deep_view()).values,
                    deep(libs@),
                    Seq::empty(),
                    LinkObjType::SharedLib,
                ) is Ok && link_spec(
                    shared_config(start),
                    own_modules(self.deep_view()).keys,
                    own_modules(self.deep_view()).values,
                    deep(libs@),
                    Seq::empty(),
                    LinkObjType::SharedLib,
                )->Ok_0.out == p.0@ && link_spec(
                    shared_config(start),
                    own_modules(self.deep_view()).keys,
                    own_modules(self.deep_view()).values,
                    deep(libs@),
                    Seq::empty(),
                    LinkObjType::SharedLib,
                )->Ok_0.info == p.1@ && linked(shared_config(start), p.0@, p.1@),
                Err(e) => link_spec(
                    shared_config(start),
                    own_modules(self.deep_view()).keys,
                    own_modules(self.deep_view()).values,
                    deep(libs@),
                    Seq::empty(),
                    LinkObjType::SharedLib,
                ) == Err::<LinkState, LinkError>(e),
            },
    {
        let objects = self.modules();
        let mut editor = LinkerEditor::new(start, 0, 0, true);
        let names: Vec<SymbolName> = Vec::new();
        assert(deep(names@) =~= Seq::<SymbolId>::empty());
        assert(objects.deep_view().keys == deep(objects.keys@));
        assert(objects.deep_view().values == deep(objects.values@));
        editor.link_lib(objects, libs, names)
    }
}

} // verus!
