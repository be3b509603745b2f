//! Taking a module into the session: storage for its segments, its symbols
//! in the global symbol table, its common blocks and its need of the global
//! offset table.

use crate::common::{Defn, DefnView, ProvenanceView};
use crate::linker::state::{GlobalEntry, GlobalEntryView, InfoView, LinkState, Work};
use crate::table::{
    deep, lemma_deep_vec, slot, table_empty, table_get, table_put, Table, TableModel, Key,
};
use crate::types::errors::LinkError;
use crate::types::object::{ObjectIn, ObjectView};
use crate::types::out::{ObjectOut, OutView};
use crate::types::relocation::{RelType, Relocation};
use crate::types::segment::{Segment, SegmentData, SegmentName, SegmentView};
use crate::types::segment_map::SegMap;
use crate::types::symbol_table::{SymbolId, SymbolName, SymbolTableEntry, SymbolView};
use vstd::prelude::*;

verus! {

/// The image under construction, and where the segments of the module at
/// hand begin in the segments of the image.
pub struct Alloc {
    pub out: OutView,
    pub offsets: SegMap<i32>,
}

/// The data of a segment of the image; nothing where there is none yet.
pub open spec fn data_or_empty(out: OutView, name: SegmentName) -> Seq<u8> {
    match out.object_data.at(name) {
        Some(d) => d,
        None => Seq::empty(),
    }
}

/// Storage for one segment of a module. Where the image has a segment of
/// that name, the segment of the module goes to its end; else the image gets
/// such a segment, which begins with that of the module.
pub open spec fn alloc_segment(a: Alloc, seg: SegmentView, data: Seq<u8>) -> Result<
    Alloc,
    LinkError,
> {
    let name = seg.segment_name;
    match a.out.segments.at(name) {
        Some(os) => if os.segment_len + seg.segment_len > i32::MAX || os.segment_len
            + seg.segment_len < i32::MIN {
            Err(LinkError::IntOverflowError)
        } else {
            Ok(
                Alloc {
                    out: OutView {
                        segments: a.out.segments.put(
                            name,
                            SegmentView {
                                segment_len: (os.segment_len + seg.segment_len) as i32,
                                ..os
                            },
                        ),
                        object_data: a.out.object_data.put(name, data_or_empty(a.out, name) + data),
                        ..a.out
                    },
                    offsets: a.offsets.put(name, os.segment_len),
                },
            )
        },
        None => if a.out.nsegs >= i32::MAX {
            Err(LinkError::IntOverflowError)
        } else {
            Ok(
                Alloc {
                    out: OutView {
                        nsegs: (a.out.nsegs + 1) as i32,
                        segments: a.out.segments.put(name, SegmentView { segment_start: 0, ..seg }),
                        object_data: a.out.object_data.put(name, data_or_empty(a.out, name) + data),
                        ..a.out
                    },
                    offsets: a.offsets.put(name, 0),
                },
            )
        },
    }
}

/// Storage for the first `n` segments of a module, in their order.
pub open spec fn alloc_segments(a: Alloc, o: ObjectView, n: int) -> Result<Alloc, LinkError>
    decreases n,
{
    if n <= 0 {
        Ok(a)
    } else {
        match alloc_segments(a, o, n - 1) {
            Err(e) => Err(e),
            Ok(b) => alloc_segment(b, o.segments[n - 1], o.object_data[n - 1]),
        }
    }
}

/// Storage for a segment keeps the image well formed.
pub proof fn lemma_alloc_segment_wf(a: Alloc, seg: SegmentView, data: Seq<u8>)
    requires
        a.out.wf(),
        data.len() == seg.segment_len,
        alloc_segment(a, seg, data) is Ok,
    ensures
        alloc_segment(a, seg, data)->Ok_0.out.wf(),
{
    let b = alloc_segment(a, seg, data)->Ok_0;
    let name = seg.segment_name;
    assert(a.out.segment_ok(name));
    assert(a.out.segment_ok(SegmentName::TEXT));
    assert(a.out.segment_ok(SegmentName::GOT));
    assert(a.out.segment_ok(SegmentName::DATA));
    assert(a.out.segment_ok(SegmentName::BSS));
    assert(b.out.segment_ok(SegmentName::TEXT));
    assert(b.out.segment_ok(SegmentName::GOT));
    assert(b.out.segment_ok(SegmentName::DATA));
    assert(b.out.segment_ok(SegmentName::BSS));
}

/// Allocates storage for one segment of a module.
pub fn allocate_segment(
    out: &mut ObjectOut,
    offsets: &mut SegMap<i32>,
    seg: &Segment,
    data: &SegmentData,
) -> (r: Result<(), LinkError>)
    requires
        old(out)@.wf(),
        data@.len() == seg@.segment_len,
    ensures
        match r {
            Ok(()) => alloc_segment(
                Alloc { out: old(out)@, offsets: *old(offsets) },
                seg@,
                data@,
            ) == Ok::<Alloc, LinkError>(Alloc { out: final(out)@, offsets: *final(offsets) })
                && final(out)@.wf(),
            Err(e) => alloc_segment(
                Alloc { out: old(out)@, offsets: *old(offsets) },
                seg@,
                data@,
            ) == Err::<Alloc, LinkError>(e) && final(out)@ == old(out)@ && *final(offsets)
                == *old(offsets),
        },
{
    let name = seg.segment_name;
    let ghost a = Alloc { out: out@, offsets: *offsets };
    proof {
        assert(out@.segment_ok(name));
        if alloc_segment(a, seg@, data@) is Ok {
            lemma_alloc_segment_wf(a, seg@, data@);
        }
        crate::types::segment_map::lemma_segmap_at_view(out.segments, name);
    }
    // nothing is changed unless the lengths fit
    let fits = match out.segments.get(&name) {
        Some(os) => {
            let sum: i64 = os.segment_len as i64 + seg.segment_len as i64;
            sum <= i32::MAX as i64 && sum >= i32::MIN as i64
        },
        None => out.nsegs < i32::MAX,
    };
    if !fits {
        return Err(LinkError::IntOverflowError);
    }
    match out.segments.take(name) {
        Some(os) => {
            let sum: i64 = os.segment_len as i64 + seg.segment_len as i64;
            let offset = os.segment_len;
            let grown = Segment {
                segment_name: os.segment_name,
                segment_start: os.segment_start,
                segment_len: sum as i32,
                segment_descr: os.segment_descr,
            };
            out.segments.insert(name, grown);
            offsets.insert(name, offset);
            let joined = match out.object_data.take(name) {
                Some(d) => d.concat(data),
                None => data.duplicate(),
            };
            assert(joined@ =~= data_or_empty(a.out, name) + data@);
            out.object_data.insert(name, joined);
            assert(out@.segments == a.out.segments.put(
                name,
                SegmentView { segment_len: sum as i32, ..os@ },
            ));
            assert(out@.object_data == a.out.object_data.put(name, joined@));
            Ok(())
        },
        None => {
            out.nsegs = out.nsegs + 1;
            let mut first = seg.duplicate();
            first.segment_start = 0;
            out.segments.insert(name, first);
            offsets.insert(name, 0);
            let joined = match out.object_data.take(name) {
                Some(d) => d.concat(data),
                None => data.duplicate(),
            };
            assert(joined@ =~= data_or_empty(a.out, name) + data@);
            out.object_data.insert(name, joined);
            assert(out@.segments == a.out.segments.put(
                name,
                SegmentView { segment_start: 0, ..seg@ },
            ));
            assert(out@.object_data == a.out.object_data.put(name, joined@));
            Ok(())
        },
    }
}

/// Storage for the first `n` segments of a module as far as it goes: what
/// the segments before the first that finds no room leave.
pub open spec fn alloc_reached(a: Alloc, o: ObjectView, n: int) -> Alloc
    decreases n,
{
    if n <= 0 {
        a
    } else {
        match alloc_segments(a, o, n - 1) {
            Err(_) => alloc_reached(a, o, n - 1),
            Ok(b) => match alloc_segment(b, o.segments[n - 1], o.object_data[n - 1]) {
                Ok(c) => c,
                Err(_) => b,
            },
        }
    }
}

/// Storage that succeeds goes all the way.
pub proof fn lemma_alloc_reached_ok(a: Alloc, o: ObjectView, n: int)
    requires
        alloc_segments(a, o, n) is Ok,
    ensures
        alloc_reached(a, o, n) == alloc_segments(a, o, n)->Ok_0,
{
}

/// Storage that fails on the first `k` segments goes no further on more.
pub proof fn lemma_alloc_reached_err(a: Alloc, o: ObjectView, k: int, n: int)
    requires
        k <= n,
        alloc_segments(a, o, k) is Err,
    ensures
        alloc_reached(a, o, n) == alloc_reached(a, o, k),
    decreases n - k,
{
    if k < n {
        lemma_alloc_err(a, o, k, n - 1);
        lemma_alloc_reached_err(a, o, k, n - 1);
    }
}

/// Allocates storage for the segments of a module.
pub fn allocate_segments(out: &mut ObjectOut, o: &ObjectIn) -> (r: Result<SegMap<i32>, LinkError>)
    requires
        old(out)@.wf(),
        o@.wf(),
    ensures
        match r {
            Ok(offsets) => alloc_segments(
                Alloc { out: old(out)@, offsets: SegMap::empty() },
                o@,
                o@.segments.len() as int,
            ) == Ok::<Alloc, LinkError>(Alloc { out: final(out)@, offsets }) && final(out)@.wf(),
            Err(e) => alloc_segments(
                Alloc { out: old(out)@, offsets: SegMap::empty() },
                o@,
                o@.segments.len() as int,
            ) == Err::<Alloc, LinkError>(e) && final(out)@ == alloc_reached(
                Alloc { out: old(out)@, offsets: SegMap::empty() },
                o@,
                o@.segments.len() as int,
            ).out && final(out)@.wf(),
        },
{
    let ghost a0 = Alloc { out: out@, offsets: SegMap::empty() };
    let mut offsets: SegMap<i32> = SegMap::new();
    let mut k: usize = 0;
    while k < o.segments.len()
        invariant
            k <= o.segments@.len(),
            o@.wf(),
            out@.wf(),
            a0 == (Alloc { out: old(out)@, offsets: SegMap::empty() }),
            alloc_segments(a0, o@, k as int) == Ok::<Alloc, LinkError>(
                Alloc { out: out@, offsets },
            ),
        decreases o.segments@.len() - k,
    {
        assert(o@.object_data[k as int].len() == o@.segments[k as int].segment_len);
        assert(o@.segments[k as int] == o.segments@[k as int]@);
        assert(o@.object_data[k as int] == o.object_data@[k as int]@);
        let ghost before = Alloc { out: out@, offsets };
        match allocate_segment(out, &mut offsets, &o.segments[k], &o.object_data[k]) {
            Err(e) => {
                proof {
                    assert(alloc_segment(
                        before,
                        o@.segments[k as int],
                        o@.object_data[k as int],
                    ) == Err::<Alloc, LinkError>(e));
                    assert(alloc_segments(a0, o@, k + 1) == Err::<Alloc, LinkError>(e));
                    assert(alloc_reached(a0, o@, k + 1) == before);
                    lemma_alloc_err(a0, o@, k + 1, o@.segments.len() as int);
                    lemma_alloc_reached_err(a0, o@, k + 1, o@.segments.len() as int);
                }
                return Err(e);
            },
            Ok(()) => {},
        }
        k += 1;
    }
    Ok(offsets)
}

/// Storage that fails for the first `k` segments fails in the same way for more.
pub proof fn lemma_alloc_err(a: Alloc, o: ObjectView, k: int, n: int)
    requires
        k <= n,
        alloc_segments(a, o, k) is Err,
    ensures
        alloc_segments(a, o, n) == alloc_segments(a, o, k),
    decreases n - k,
{
    if k < n {
        lemma_alloc_err(a, o, k, n - 1);
    }
}

/// The definition by the symbol at `i` of the module `id`, its address not yet known.
pub open spec fn object_defn(id: Seq<char>, i: usize) -> DefnView {
    DefnView {
        defn_mod_id: id,
        defn_ste_ix: Some(i),
        defn_addr: None,
        defn_prov: ProvenanceView::FromObjectIn,
    }
}

/// The global symbol table after the symbol at `i` of the module `id`. A
/// common block leaves the table as it is. A defined symbol becomes the
/// definition of its name, which must not have one. Any other symbol is
/// noted as a reference of the module to its name.
pub open spec fn register_symbol(
    g: TableModel<SymbolId, GlobalEntryView>,
    id: Seq<char>,
    i: usize,
    sym: SymbolView,
) -> Result<TableModel<SymbolId, GlobalEntryView>, LinkError> {
    if sym.is_common_block() {
        Ok(g)
    } else {
        let known = table_get::<SymbolName, GlobalEntryView>(g, sym.st_name);
        let (defn, refs) = match known {
            Some(e) => e,
            None => (None, table_empty()),
        };
        if sym.is_defined() {
            if defn is Some {
                Err(LinkError::MultipleSymbolDefinitions)
            } else {
                Ok(
                    table_put::<SymbolName, GlobalEntryView>(
                        g,
                        sym.st_name,
                        (Some(object_defn(id, i)), refs),
                    ),
                )
            }
        } else {
            Ok(
                table_put::<SymbolName, GlobalEntryView>(
                    g,
                    sym.st_name,
                    (defn, table_put::<String, usize>(refs, id, i)),
                ),
            )
        }
    }
}

/// The global symbol table after the first `n` symbols of the module `id`.
pub open spec fn register_symbols(
    g: TableModel<SymbolId, GlobalEntryView>,
    id: Seq<char>,
    syms: Seq<SymbolView>,
    n: int,
) -> Result<TableModel<SymbolId, GlobalEntryView>, LinkError>
    decreases n,
{
    if n <= 0 {
        Ok(g)
    } else {
        match register_symbols(g, id, syms, n - 1) {
            Err(e) => Err(e),
            Ok(h) => register_symbol(h, id, (n - 1) as usize, syms[n - 1]),
        }
    }
}

/// Registering that fails on the first `k` symbols fails in the same way on more.
pub proof fn lemma_register_err(
    g: TableModel<SymbolId, GlobalEntryView>,
    id: Seq<char>,
    syms: Seq<SymbolView>,
    k: int,
    n: int,
)
    requires
        k <= n,
        register_symbols(g, id, syms, k) is Err,
    ensures
        register_symbols(g, id, syms, n) == register_symbols(g, id, syms, k),
    decreases n - k,
{
    if k < n {
        lemma_register_err(g, id, syms, k, n - 1);
    }
}

/// Whether a global symbol table is well formed, and the table of the
/// references to each symbol too.
pub open spec fn refs_ok(g: TableModel<SymbolId, GlobalEntryView>) -> bool {
    &&& crate::table::table_wf::<SymbolName, GlobalEntryView>(g)
    &&& forall|i: int|
        0 <= i < g.values.len() ==> crate::table::table_wf::<String, usize>(
            (#[trigger] g.values[i]).1,
        )
}

/// Enters one symbol of the module `id` into the global symbol table.
pub fn enter_symbol(
    g: &mut Table<SymbolName, GlobalEntry>,
    id: &String,
    i: usize,
    sym: &SymbolTableEntry,
) -> (r: Result<(), LinkError>)
    requires
        refs_ok(old(g).deep_view()),
    ensures
        match r {
            Ok(()) => register_symbol(old(g).deep_view(), id@, i, sym@) == Ok::<
                TableModel<SymbolId, GlobalEntryView>,
                LinkError,
            >(final(g).deep_view()) && refs_ok(final(g).deep_view()),
            Err(e) => register_symbol(old(g).deep_view(), id@, i, sym@) == Err::<
                TableModel<SymbolId, GlobalEntryView>,
                LinkError,
            >(e) && final(g).deep_view() == old(g).deep_view(),
        },
{
    if sym.is_common_block() {
        return Ok(());
    }
    let ghost g0 = g.deep_view();
    assert(g.keys@.len() == g.values@.len());
    match g.find(&sym.st_name) {
        Some(at) => {
            assert(g0.values[at as int] == g.values@[at as int].deep_view());
            if sym.is_defined() {
                if g.values[at].0.is_some() {
                    return Err(LinkError::MultipleSymbolDefinitions);
                }
                let (_, refs) = g.values.remove(at);
                let defn = Defn::new(id.clone(), i, None);
                let entry: GlobalEntry = (Some(defn), refs);
                assert(entry.deep_view() == (Some(object_defn(id@, i)), g0.values[at as int].1));
                g.values.insert(at, entry);
                assert(g.deep_view().values =~= g0.values.update(at as int, entry.deep_view()));
                assert(g.deep_view().keys =~= g0.keys);
                assert(refs_ok(g.deep_view()));
                assert(register_symbol(g0, id@, i, sym@) == Ok::<
                    TableModel<SymbolId, GlobalEntryView>,
                    LinkError,
                >(g.deep_view()));
            } else {
                let (defn, mut refs) = g.values.remove(at);
                let ghost refs0 = refs.deep_view();
                refs.insert(id.clone(), i);
                let entry: GlobalEntry = (defn, refs);
                assert(entry.deep_view() == (
                    g0.values[at as int].0,
                    table_put::<String, usize>(refs0, id@, i),
                ));
                g.values.insert(at, entry);
                assert(g.deep_view().values =~= g0.values.update(at as int, entry.deep_view()));
                assert(g.deep_view().keys =~= g0.keys);
                assert(refs_ok(g.deep_view()));
                assert(register_symbol(g0, id@, i, sym@) == Ok::<
                    TableModel<SymbolId, GlobalEntryView>,
                    LinkError,
                >(g.deep_view()));
            }
        },
        None => {
            let entry: GlobalEntry = if sym.is_defined() {
                (Some(Defn::new(id.clone(), i, None)), Table::new())
            } else {
                let mut refs: Table<String, usize> = Table::new();
                refs.insert(id.clone(), i);
                (None, refs)
            };
            let ghost ev = entry.deep_view();
            assert(ev.1.keys.len() == ev.1.values.len());
            g.insert(sym.st_name.duplicate(), entry);
            assert(register_symbol(g0, id@, i, sym@) == Ok::<
                TableModel<SymbolId, GlobalEntryView>,
                LinkError,
            >(g.deep_view()));
            assert(refs_ok(g.deep_view())) by {
                let at = slot::<SymbolName>(g0.keys, sym@.st_name);
                crate::table::lemma_slot::<SymbolName>(g0.keys, sym@.st_name);
                assert forall|j: int| 0 <= j < g.deep_view().values.len() implies (
                #[trigger] g.deep_view().values[j]).1.keys.len() == g.deep_view().values[j].1.values.len() by {
                    if j < at {
                        assert(g.deep_view().values[j] == g0.values[j]);
                    } else if j > at {
                        assert(g.deep_view().values[j] == g0.values[j - 1]);
                    }
                }
            }
        },
    }
    Ok(())
}

/// The global symbol table after the first `n` symbols of the module `id`
/// as far as it goes: what the symbols before the first that is refused leave.
pub open spec fn register_reached(
    g: TableModel<SymbolId, GlobalEntryView>,
    id: Seq<char>,
    syms: Seq<SymbolView>,
    n: int,
) -> TableModel<SymbolId, GlobalEntryView>
    decreases n,
{
    if n <= 0 {
        g
    } else {
        match register_symbols(g, id, syms, n - 1) {
            Err(_) => register_reached(g, id, syms, n - 1),
            Ok(h) => match register_symbol(h, id, (n - 1) as usize, syms[n - 1]) {
                Ok(t) => t,
                Err(_) => h,
            },
        }
    }
}

/// Registering that succeeds goes all the way.
pub proof fn lemma_register_reached_ok(
    g: TableModel<SymbolId, GlobalEntryView>,
    id: Seq<char>,
    syms: Seq<SymbolView>,
    n: int,
)
    requires
        register_symbols(g, id, syms, n) is Ok,
    ensures
        register_reached(g, id, syms, n) == register_symbols(g, id, syms, n)->Ok_0,
{
}

/// Registering that fails on the first `k` symbols goes no further on more.
pub proof fn lemma_register_reached_err(
    g: TableModel<SymbolId, GlobalEntryView>,
    id: Seq<char>,
    syms: Seq<SymbolView>,
    k: int,
    n: int,
)
    requires
        k <= n,
        register_symbols(g, id, syms, k) is Err,
    ensures
        register_reached(g, id, syms, n) == register_reached(g, id, syms, k),
    decreases n - k,
{
    if k < n {
        lemma_register_err(g, id, syms, k, n - 1);
        lemma_register_reached_err(g, id, syms, k, n - 1);
    }
}

/// Enters the symbols of the module `id` into the global symbol table.
pub fn build_symbol_tables(g: &mut Table<SymbolName, GlobalEntry>, id: &String, o: &ObjectIn) -> (r:
    Result<(), LinkError>)
    requires
        refs_ok(old(g).deep_view()),
    ensures
        match r {
            Ok(()) => register_symbols(
                old(g).deep_view(),
                id@,
                o@.symbol_table,
                o@.symbol_table.len() as int,
            ) == Ok::<TableModel<SymbolId, GlobalEntryView>, LinkError>(final(g).deep_view())
                && refs_ok(final(g).deep_view()),
            Err(e) => register_symbols(
                old(g).deep_view(),
                id@,
                o@.symbol_table,
                o@.symbol_table.len() as int,
            ) == Err::<TableModel<SymbolId, GlobalEntryView>, LinkError>(e)
                && final(g).deep_view() == register_reached(
                old(g).deep_view(),
                id@,
                o@.symbol_table,
                o@.symbol_table.len() as int,
            ) && refs_ok(final(g).deep_view()),
        },
{
    let ghost g0 = g.deep_view();
    let mut k: usize = 0;
    while k < o.symbol_table.len()
        invariant
            k <= o.symbol_table@.len(),
            refs_ok(g.deep_view()),
            g0 == old(g).deep_view(),
            register_symbols(g0, id@, o@.symbol_table, k as int) == Ok::<
                TableModel<SymbolId, GlobalEntryView>,
                LinkError,
            >(g.deep_view()),
        decreases o.symbol_table@.len() - k,
    {
        assert(o@.symbol_table[k as int] == o.symbol_table@[k as int]@);
        let ghost before = g.deep_view();
        match enter_symbol(g, id, k, &o.symbol_table[k]) {
            Err(e) => {
                proof {
                    assert(register_symbol(before, id@, k, o@.symbol_table[k as int]) == Err::<
                        TableModel<SymbolId, GlobalEntryView>,
                        LinkError,
                    >(e));
                    assert(register_symbols(g0, id@, o@.symbol_table, k + 1) == Err::<
                        TableModel<SymbolId, GlobalEntryView>,
                        LinkError,
                    >(e));
                    assert(register_reached(g0, id@, o@.symbol_table, k + 1) == before);
                    lemma_register_reached_err(
                        g0,
                        id@,
                        o@.symbol_table,
                        k + 1,
                        o@.symbol_table.len() as int,
                    );
                    lemma_register_err(
                        g0,
                        id@,
                        o@.symbol_table,
                        k + 1,
                        o@.symbol_table.len() as int,
                    );
                }
                return Err(e);
            },
            Ok(()) => {},
        }
        k += 1;
    }
    Ok(())
}

/// The sizes of the common blocks after one more symbol: a common block
/// raises the size that is kept for its name.
pub open spec fn note_common(c: TableModel<SymbolId, i32>, sym: SymbolView) -> TableModel<
    SymbolId,
    i32,
> {
    if sym.is_common_block() {
        match table_get::<SymbolName, i32>(c, sym.st_name) {
            Some(size) => if sym.st_value > size {
                table_put::<SymbolName, i32>(c, sym.st_name, sym.st_value)
            } else {
                c
            },
            None => table_put::<SymbolName, i32>(c, sym.st_name, sym.st_value),
        }
    } else {
        c
    }
}

/// The sizes of the common blocks after the first `n` symbols of a module.
pub open spec fn note_commons(c: TableModel<SymbolId, i32>, syms: Seq<SymbolView>, n: int)
    -> TableModel<SymbolId, i32>
    decreases n,
{
    if n <= 0 {
        c
    } else {
        note_common(note_commons(c, syms, n - 1), syms[n - 1])
    }
}

/// Notes the common blocks of a module.
pub fn enter_commons(c: &mut Table<SymbolName, i32>, o: &ObjectIn)
    requires
        old(c).keys@.len() == old(c).values@.len(),
    ensures
        final(c).deep_view() == note_commons(
            old(c).deep_view(),
            o@.symbol_table,
            o@.symbol_table.len() as int,
        ),
        final(c).keys@.len() == final(c).values@.len(),
        old(c).wf() ==> final(c).wf(),
{
    let ghost c0 = c.deep_view();
    let mut k: usize = 0;
    while k < o.symbol_table.len()
        invariant
            k <= o.symbol_table@.len(),
            c.keys@.len() == c.values@.len(),
            old(c).wf() ==> c.wf(),
            c.deep_view() == note_commons(c0, o@.symbol_table, k as int),
        decreases o.symbol_table@.len() - k,
    {
        let sym = &o.symbol_table[k];
        assert(o@.symbol_table[k as int] == sym@);
        if sym.is_common_block() {
            let ghost before = c.deep_view();
            let raise = match c.get(&sym.st_name) {
                Some(size) => sym.st_value > *size,
                None => true,
            };
            if raise {
                c.insert(sym.st_name.duplicate(), sym.st_value);
            }
        }
        k += 1;
    }
}

/// The number of `GP4` relocations among the first `n`.
pub open spec fn gp4_count(rels: Seq<Relocation>, n: int) -> int
    decreases n,
{
    if n <= 0 {
        0
    } else {
        gp4_count(rels, n - 1) + if rels[n - 1].rel_type == RelType::GP4 {
            1int
        } else {
            0
        }
    }
}

/// There are no more `GP4` relocations than relocations.
pub proof fn lemma_gp4_count_bounds(rels: Seq<Relocation>, n: int)
    requires
        0 <= n,
    ensures
        0 <= gp4_count(rels, n) <= n,
    decreases n,
{
    if n > 0 {
        lemma_gp4_count_bounds(rels, n - 1);
    }
}

/// Counts the `GP4` relocations of a module.
pub fn count_gp4(o: &ObjectIn) -> (n: usize)
    ensures
        n == gp4_count(o@.relocations, o@.relocations.len() as int),
{
    let mut n: usize = 0;
    let mut k: usize = 0;
    while k < o.relocations.len()
        invariant
            k <= o.relocations@.len(),
            n == gp4_count(o@.relocations, k as int),
            n <= k,
        decreases o.relocations@.len() - k,
    {
        if o.relocations[k].rel_type == RelType::GP4 {
            n += 1;
        }
        k += 1;
    }
    n
}


/// The session after taking in the module `o` under the name `id`, which
/// must be new. The segments get storage, then the symbols enter the global
/// symbol table; the addresses of the segments, the common blocks and a copy
/// of the symbol table are noted, and each `GP4` relocation asks for four
/// bytes of the global offset table.
pub open spec fn ingest(s: LinkState, id: Seq<char>, o: ObjectView) -> Result<LinkState, LinkError> {
    if s.session.knows(id) {
        Err(LinkError::DuplicateObjectError)
    } else {
        match alloc_segments(
            Alloc { out: s.out, offsets: SegMap::empty() },
            o,
            o.segments.len() as int,
        ) {
            Err(e) => Err(e),
            Ok(a) => match register_symbols(
                s.info.global_symtable,
                id,
                o.symbol_table,
                o.symbol_table.len() as int,
            ) {
                Err(e) => Err(e),
                Ok(g) => {
                    let got = s.got_size + 4 * gp4_count(o.relocations, o.relocations.len() as int);
                    if got > i32::MAX {
                        Err(LinkError::IntOverflowError)
                    } else {
                        Ok(
                            LinkState {
                                session: s.session.with(id, o),
                                out: a.out,
                                info: InfoView {
                                    segment_mapping: table_put::<String, SegMap<i32>>(
                                        s.info.segment_mapping,
                                        id,
                                        a.offsets,
                                    ),
                                    common_block_mapping: note_commons(
                                        s.info.common_block_mapping,
                                        o.symbol_table,
                                        o.symbol_table.len() as int,
                                    ),
                                    symbol_tables: table_put::<String, Seq<SymbolView>>(
                                        s.info.symbol_tables,
                                        id,
                                        o.symbol_table,
                                    ),
                                    global_symtable: g,
                                },
                                got_size: got,
                            },
                        )
                    }
                },
            },
        }
    }
}

/// The session after taking in a module as far as it goes. A module under
/// a known id leaves the session as it is. Segments that find no room leave
/// the storage of the segments before them. Symbols that are refused, or a
/// global offset table that grows too long, leave the storage of all the
/// segments and the symbols that were registered before; the module is not
/// in the session then.
pub open spec fn ingest_reached(s: LinkState, id: Seq<char>, o: ObjectView) -> LinkState {
    let a = Alloc { out: s.out, offsets: SegMap::empty() };
    if s.session.knows(id) {
        s
    } else {
        match ingest(s, id, o) {
            Ok(t) => t,
            Err(_) => match alloc_segments(a, o, o.segments.len() as int) {
                Err(_) => LinkState { out: alloc_reached(a, o, o.segments.len() as int).out, ..s },
                Ok(b) => LinkState {
                    out: b.out,
                    info: InfoView {
                        global_symtable: register_reached(
                            s.info.global_symtable,
                            id,
                            o.symbol_table,
                            o.symbol_table.len() as int,
                        ),
                        ..s.info
                    },
                    ..s
                },
            },
        }
    }
}

/// A copy of a symbol table.
pub fn copy_symbols(v: &Vec<SymbolTableEntry>) -> (r: Vec<SymbolTableEntry>)
    ensures
        r.deep_view() == deep(v@),
{
    let mut r: Vec<SymbolTableEntry> = Vec::new();
    let mut k: usize = 0;
    while k < v.len()
        invariant
            k <= v@.len(),
            deep(r@) =~= deep(v@).take(k as int),
        decreases v@.len() - k,
    {
        let ghost before = deep(r@);
        let e = v[k].duplicate();
        r.push(e);
        assert(deep(r@) =~= before.push(e@));
        assert(deep(v@).take(k + 1) =~= deep(v@).take(k as int).push(v@[k as int]@));
        k += 1;
    }
    proof {
        lemma_deep_vec(r);
        assert(deep(v@).take(v@.len() as int) =~= deep(v@));
    }
    r
}

/// The view of a map of numbers is the map.
pub proof fn lemma_offsets_view(m: SegMap<i32>)
    ensures
        m.deep_view() == m,
{
}

/// Takes a module into the session.
pub fn alloc_storage_and_symtables(w: &mut Work, id: String, o: ObjectIn) -> (r: Result<(), LinkError>)
    requires
        old(w)@.wf(),
        o@.wf(),
    ensures
        match r {
            Ok(()) => ingest(old(w)@, id@, o@) == Ok::<LinkState, LinkError>(final(w)@)
                && final(w)@.wf(),
            Err(e) => ingest(old(w)@, id@, o@) == Err::<LinkState, LinkError>(e),
        },
        final(w)@ == ingest_reached(old(w)@, id@, o@),
        final(w)@.wf(),
{
    let ghost s = w@;
    if w.session.position(id.as_str()).is_some() {
        return Err(LinkError::DuplicateObjectError);
    }
    let offsets = match allocate_segments(&mut w.out, &o) {
        Err(e) => {
            return Err(e);
        },
        Ok(offsets) => offsets,
    };
    match build_symbol_tables(&mut w.info.global_symtable, &id, &o) {
        Err(e) => {
            return Err(e);
        },
        Ok(()) => {},
    }
    let n = count_gp4(&o);
    proof {
        lemma_gp4_count_bounds(o@.relocations, o@.relocations.len() as int);
        lemma_register_reached_ok(
            s.info.global_symtable,
            id@,
            o@.symbol_table,
            o@.symbol_table.len() as int,
        );
    }
    if n > 0x7FFF_FFFF || 4 * (n as i64) + w.got_size as i64 > 0x7FFF_FFFF {
        return Err(LinkError::IntOverflowError);
    }
    w.got_size = w.got_size + 4 * (n as i32);
    proof {
        lemma_offsets_view(offsets);
    }
    w.info.segment_mapping.insert(id.clone(), offsets);
    enter_commons(&mut w.info.common_block_mapping, &o);
    let symbols = copy_symbols(&o.symbol_table);
    w.info.symbol_tables.insert(id.clone(), symbols);
    w.session.push(id, o);
    proof {
        assert(w@.session.wf()) by {
            assert forall|i: int| 0 <= i < w@.session.modules.len() implies (
            #[trigger] w@.session.modules[i]).wf() by {
                if i < s.session.modules.len() {
                    assert(w@.session.modules[i] == s.session.modules[i]);
                }
            }
        }
    }
    Ok(())
}

} // verus!
