//! The addresses of the global symbols.

use crate::common::DefnView;
use crate::linker::layout::fits_i32;
use crate::linker::state::{
    position_of, GlobalEntry, GlobalEntryView, InfoView, LinkState, SessionView, Work,
};
use crate::table::{deep, table_get, Table, TableModel};
use crate::types::errors::LinkError;
use crate::types::segment_map::SegMap;
use crate::types::symbol_table::{SymbolId, SymbolName};
use vstd::prelude::*;

verus! {

/// Whether every entry of a global symbol table has a definition.
pub open spec fn all_defined(g: TableModel<SymbolId, GlobalEntryView>) -> bool {
    forall|i: int| 0 <= i < g.values.len() ==> (#[trigger] g.values[i]).0 is Some
}

/// Whether every entry of the global symbol table has a definition.
pub fn check_defined(g: &Table<SymbolName, GlobalEntry>) -> (b: bool)
    ensures
        b == all_defined(g.deep_view()),
{
    let mut k: usize = 0;
    while k < g.values.len()
        invariant
            k <= g.values@.len(),
            forall|i: int| 0 <= i < k ==> (#[trigger] g.deep_view().values[i]).0 is Some,
        decreases g.values@.len() - k,
    {
        assert(g.deep_view().values[k as int] == g.values@[k as int].deep_view());
        if g.values[k].0.is_none() {
            return false;
        }
        k += 1;
    }
    true
}

/// The address of the symbol at `i` of the module `id`: the address of the
/// segment that the symbol belongs to, plus the value of the symbol.
pub open spec fn symbol_address(
    session: SessionView,
    mapping: TableModel<Seq<char>, SegMap<i32>>,
    id: Seq<char>,
    i: usize,
) -> Result<i32, LinkError> {
    if !session.knows(id) {
        Err(LinkError::UnexpectedLinkError)
    } else {
        let o = session.modules[position_of(session.ids, id)];
        if i >= o.symbol_table.len() {
            Err(LinkError::UnexpectedLinkError)
        } else {
            let ste = o.symbol_table[i as int];
            if ste.st_seg <= 0 || ste.st_seg > o.segments.len() {
                Err(LinkError::UnexpectedLinkError)
            } else {
                let name = o.segments[ste.st_seg - 1].segment_name;
                match table_get::<String, SegMap<i32>>(mapping, id) {
                    None => Err(LinkError::UnexpectedLinkError),
                    Some(offsets) => match offsets.at(name) {
                        None => Err(LinkError::UnexpectedLinkError),
                        Some(off) => if !fits_i32(off + ste.st_value) {
                            Err(LinkError::IntOverflowError)
                        } else {
                            Ok((off + ste.st_value) as i32)
                        },
                    },
                }
            }
        }
    }
}

/// An entry of the global symbol table with the address of its definition
/// filled in. A definition from a shared library must have its address already.
pub open spec fn resolve_entry(
    session: SessionView,
    mapping: TableModel<Seq<char>, SegMap<i32>>,
    e: GlobalEntryView,
) -> Result<GlobalEntryView, LinkError> {
    match e.0 {
        None => Err(LinkError::UndefinedSymbolError),
        Some(d) => match d.defn_ste_ix {
            None => if d.defn_addr is Some {
                Ok(e)
            } else {
                Err(LinkError::UnexpectedLinkError)
            },
            Some(i) => match symbol_address(session, mapping, d.defn_mod_id, i) {
                Err(err) => Err(err),
                Ok(addr) => Ok((Some(DefnView { defn_addr: Some(addr), ..d }), e.1)),
            },
        },
    }
}

/// The first `n` entries with their addresses filled in.
pub open spec fn resolve_entries(
    session: SessionView,
    mapping: TableModel<Seq<char>, SegMap<i32>>,
    values: Seq<GlobalEntryView>,
    n: int,
) -> Result<Seq<GlobalEntryView>, LinkError>
    decreases n,
{
    if n <= 0 {
        Ok(Seq::empty())
    } else {
        match resolve_entries(session, mapping, values, n - 1) {
            Err(e) => Err(e),
            Ok(done) => match resolve_entry(session, mapping, values[n - 1]) {
                Err(e) => Err(e),
                Ok(entry) => Ok(done.push(entry)),
            },
        }
    }
}

/// Resolution that fails on the first `k` entries fails in the same way on more.
pub proof fn lemma_resolve_err(
    session: SessionView,
    mapping: TableModel<Seq<char>, SegMap<i32>>,
    values: Seq<GlobalEntryView>,
    k: int,
    n: int,
)
    requires
        k <= n,
        resolve_entries(session, mapping, values, k) is Err,
    ensures
        resolve_entries(session, mapping, values, n) == resolve_entries(
            session,
            mapping,
            values,
            k,
        ),
    decreases n - k,
{
    if k < n {
        lemma_resolve_err(session, mapping, values, k, n - 1);
    }
}

/// The session with the address of every global symbol filled in.
pub open spec fn resolve(s: LinkState) -> Result<LinkState, LinkError> {
    let g = s.info.global_symtable;
    match resolve_entries(s.session, s.info.segment_mapping, g.values, g.values.len() as int) {
        Err(e) => Err(e),
        Ok(values) => Ok(
            LinkState {
                info: InfoView {
                    global_symtable: TableModel { keys: g.keys, values },
                    ..s.info
                },
                ..s
            },
        ),
    }
}

/// The address of the symbol at `i` of the module `id`.
pub fn address_of_symbol(w: &Work, id: &String, i: usize) -> (r: Result<i32, LinkError>)
    requires
        w@.wf(),
    ensures
        r == symbol_address(w@.session, w@.info.segment_mapping, id@, i),
{
    let o = match w.session.get(id.as_str()) {
        None => {
            return Err(LinkError::UnexpectedLinkError);
        },
        Some(o) => o,
    };
    assert(o@ == w@.session.modules[position_of(w@.session.ids, id@)]);
    if i >= o.symbol_table.len() {
        return Err(LinkError::UnexpectedLinkError);
    }
    let ste = &o.symbol_table[i];
    assert(ste@ == o@.symbol_table[i as int]);
    if ste.st_seg <= 0 || ste.st_seg as usize > o.segments.len() {
        return Err(LinkError::UnexpectedLinkError);
    }
    let name = o.segments[(ste.st_seg - 1) as usize].segment_name;
    assert(name == o@.segments[ste.st_seg - 1].segment_name);
    let offsets = match w.info.segment_mapping.get(id) {
        None => {
            return Err(LinkError::UnexpectedLinkError);
        },
        Some(m) => m,
    };
    match offsets.get(&name) {
        None => Err(LinkError::UnexpectedLinkError),
        Some(off) => {
            let sum: i64 = *off as i64 + ste.st_value as i64;
            if sum < -0x8000_0000 || sum > 0x7FFF_FFFF {
                Err(LinkError::IntOverflowError)
            } else {
                Ok(sum as i32)
            }
        },
    }
}

/// Fills in the address of every global symbol.
pub fn resolve_global_sym_offsets(w: &mut Work) -> (r: Result<(), LinkError>)
    requires
        old(w)@.wf(),
    ensures
        match r {
            Ok(()) => resolve(old(w)@) == Ok::<LinkState, LinkError>(final(w)@),
            Err(e) => resolve(old(w)@) == Err::<LinkState, LinkError>(e) && final(w)@ == old(w)@,
        },
{
    let ghost s = w@;
    let ghost values = s.info.global_symtable.values;
    let n = w.info.global_symtable.values.len();
    let mut done: Vec<GlobalEntry> = Vec::new();
    let mut k: usize = 0;
    assert(deep(done@) =~= Seq::<GlobalEntryView>::empty());
    while k < n
        invariant
            k <= n,
            n == values.len(),
            w@ == s,
            s.wf(),
            values == s.info.global_symtable.values,
            resolve_entries(s.session, s.info.segment_mapping, values, k as int) == Ok::<
                Seq<GlobalEntryView>,
                LinkError,
            >(deep(done@)),
        decreases n - k,
    {
        let entry = &w.info.global_symtable.values[k];
        assert(values[k as int] == entry.deep_view());
        let ghost before = deep(done@);
        let defn = match &entry.0 {
            None => {
                proof {
                    lemma_resolve_err(
                        s.session,
                        s.info.segment_mapping,
                        values,
                        k + 1,
                        n as int,
                    );
                }
                return Err(LinkError::UndefinedSymbolError);
            },
            Some(d) => d,
        };
        let mut copy = defn.duplicate();
        match defn.defn_ste_ix {
            None => {
                if defn.defn_addr.is_none() {
                    proof {
                        lemma_resolve_err(
                            s.session,
                            s.info.segment_mapping,
                            values,
                            k + 1,
                            n as int,
                        );
                    }
                    return Err(LinkError::UnexpectedLinkError);
                }
            },
            Some(i) => {
                match address_of_symbol(w, &defn.defn_mod_id, i) {
                    Err(e) => {
                        proof {
                            lemma_resolve_err(
                                s.session,
                                s.info.segment_mapping,
                                values,
                                k + 1,
                                n as int,
                            );
                        }
                        return Err(e);
                    },
                    Ok(addr) => {
                        copy.defn_addr = Some(addr);
                    },
                }
            },
        }
        let refs = copy_refs(&entry.1);
        let resolved: GlobalEntry = (Some(copy), refs);
        assert(resolve_entry(s.session, s.info.segment_mapping, values[k as int]) == Ok::<
            GlobalEntryView,
            LinkError,
        >(resolved.deep_view()));
        done.push(resolved);
        assert(deep(done@) =~= before.push(resolved.deep_view()));
        k += 1;
    }
    w.info.global_symtable.values = done;
    Ok(())
}

/// A copy of the references to a symbol.
pub fn copy_refs(refs: &Table<String, usize>) -> (r: Table<String, usize>)
    ensures
        r.deep_view() == refs.deep_view(),
{
    let mut keys: Vec<String> = Vec::new();
    let mut values: Vec<usize> = Vec::new();
    let mut k: usize = 0;
    while k < refs.keys.len()
        invariant
            k <= refs.keys@.len(),
            deep(keys@) =~= deep(refs.keys@).take(k as int),
        decreases refs.keys@.len() - k,
    {
        let ghost before = deep(keys@);
        let key = refs.keys[k].clone();
        keys.push(key);
        assert(deep(keys@) =~= before.push(key@));
        assert(deep(refs.keys@).take(k + 1) =~= deep(refs.keys@).take(k as int).push(
            refs.keys@[k as int]@,
        ));
        k += 1;
    }
    let mut k: usize = 0;
    while k < refs.values.len()
        invariant
            k <= refs.values@.len(),
            deep(values@) =~= deep(refs.values@).take(k as int),
        decreases refs.values@.len() - k,
    {
        let ghost before = deep(values@);
        values.push(refs.values[k]);
        assert(deep(values@) =~= before.push(refs.values@[k as int]));
        assert(deep(refs.values@).take(k + 1) =~= deep(refs.values@).take(k as int).push(
            refs.values@[k as int],
        ));
        k += 1;
    }
    assert(deep(keys@) =~= deep(refs.keys@));
    assert(deep(values@) =~= deep(refs.values@));
    Table { keys, values }
}


/// Whether every entry of a global symbol table has a definition with an address.
pub open spec fn all_resolved(g: TableModel<SymbolId, GlobalEntryView>) -> bool {
    forall|i: int|
        0 <= i < g.values.len() ==> (#[trigger] g.values[i]).0 is Some
            && g.values[i].0->0.defn_addr is Some
}

/// Entries that were resolved have a definition with an address each, the
/// same references as before, and are as many as before.
pub proof fn lemma_resolve_entries(
    session: SessionView,
    mapping: TableModel<Seq<char>, SegMap<i32>>,
    values: Seq<GlobalEntryView>,
    n: int,
)
    requires
        0 <= n <= values.len(),
        resolve_entries(session, mapping, values, n) is Ok,
    ensures
        resolve_entries(session, mapping, values, n)->Ok_0.len() == n,
        forall|i: int|
            0 <= i < n ==> {
                let e = #[trigger] resolve_entries(session, mapping, values, n)->Ok_0[i];
                e.0 is Some && e.0->0.defn_addr is Some && e.1 == values[i].1
            },
    decreases n,
{
    if n > 0 {
        lemma_resolve_entries(session, mapping, values, n - 1);
        let done = resolve_entries(session, mapping, values, n - 1)->Ok_0;
        let all = resolve_entries(session, mapping, values, n)->Ok_0;
        assert forall|i: int| 0 <= i < n implies {
            let e = #[trigger] all[i];
            e.0 is Some && e.0->0.defn_addr is Some && e.1 == values[i].1
        } by {
            if i < n - 1 {
                assert(all[i] == done[i]);
            }
        }
    }
}

/// After the addresses were filled in, every global symbol has a definition
/// with an address, and the session is well formed as before.
pub proof fn lemma_resolve(s: LinkState)
    requires
        s.wf(),
        resolve(s) is Ok,
    ensures
        all_resolved(resolve(s)->Ok_0.info.global_symtable),
        resolve(s)->Ok_0.wf(),
        resolve(s)->Ok_0.out == s.out,
        resolve(s)->Ok_0.session == s.session,
{
    let g = s.info.global_symtable;
    lemma_resolve_entries(s.session, s.info.segment_mapping, g.values, g.values.len() as int);
}

} // verus!
