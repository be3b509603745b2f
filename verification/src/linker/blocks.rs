//! Laws of the common blocks: the size kept for a name is the largest that
//! was asked for, in whatever order the requests come, and a request makes
//! no entry in the global symbol table.

use crate::linker::ingest::{note_common, note_commons, register_symbol, register_symbols};
use crate::linker::state::GlobalEntryView;
use crate::table::{lemma_get_put, lemma_put_wf, table_get, table_wf, TableModel};
use crate::types::symbol_table::{SymbolId, SymbolName, SymbolView};
use vstd::prelude::*;
use vstd::seq_lib::to_multiset_contains;

verus! {

/// Whether the symbol asks for a common block of the given name.
pub open spec fn asks(sym: SymbolView, name: SymbolId) -> bool {
    sym.is_common_block() && sym.st_name == name
}

/// Whether `size` is the largest size that is asked for the name, by the
/// table `c` or by one of the first `n` symbols: nothing, where nobody asks.
pub open spec fn largest_asked(
    c: TableModel<SymbolId, i32>,
    syms: Seq<SymbolView>,
    n: int,
    name: SymbolId,
    size: Option<i32>,
) -> bool {
    let kept = table_get::<SymbolName, i32>(c, name);
    match size {
        None => kept is None && forall|i: int| 0 <= i < n ==> !asks(#[trigger] syms[i], name),
        Some(v) => {
            &&& kept == Some(v) || exists|i: int|
                0 <= i < n && asks(#[trigger] syms[i], name) && syms[i].st_value == v
            &&& kept is Some ==> kept->0 <= v
            &&& forall|i: int| 0 <= i < n && asks(#[trigger] syms[i], name) ==> syms[i].st_value <= v
        },
    }
}

/// The size kept for a name after the first `n` symbols is the largest
/// that the table before or one of those symbols asks for.
pub proof fn lemma_commons_keep_largest(
    c: TableModel<SymbolId, i32>,
    syms: Seq<SymbolView>,
    n: int,
    name: SymbolId,
)
    requires
        table_wf::<SymbolName, i32>(c),
        0 <= n <= syms.len(),
    ensures
        table_wf::<SymbolName, i32>(note_commons(c, syms, n)),
        largest_asked(c, syms, n, name, table_get::<SymbolName, i32>(note_commons(c, syms, n), name)),
    decreases n,
{
    if n > 0 {
        lemma_commons_keep_largest(c, syms, n - 1, name);
        let b = note_commons(c, syms, n - 1);
        let sym = syms[n - 1];
        let before = table_get::<SymbolName, i32>(b, name);
        let after = table_get::<SymbolName, i32>(note_common(b, sym), name);
        lemma_put_wf::<SymbolName, i32>(b, sym.st_name, sym.st_value);
        lemma_get_put::<SymbolName, i32>(b, sym.st_name, sym.st_value, name);
        if asks(sym, name) {
            if before is Some && sym.st_value <= before->0 {
                assert(after == before);
            } else {
                assert(after == Some(sym.st_value));
            }
        } else {
            assert(after == before);
        }
        assert(largest_asked(c, syms, n, name, after)) by {
            match before {
                Some(v) => {
                    if !(table_get::<SymbolName, i32>(c, name) == Some(v)) {
                        let i = choose|i: int|
                            0 <= i < n - 1 && asks(#[trigger] syms[i], name) && syms[i].st_value == v;
                        assert(0 <= i < n && asks(syms[i], name));
                    }
                },
                None => {},
            }
            if asks(sym, name) {
                assert(0 <= n - 1 < n && asks(syms[n - 1], name));
            }
        }
    }
}

/// The size kept for a name is fixed by what is asked for: two sizes that
/// are both the largest asked for are one.
pub proof fn lemma_largest_is_one(
    c: TableModel<SymbolId, i32>,
    syms: Seq<SymbolView>,
    n: int,
    name: SymbolId,
    a: Option<i32>,
    b: Option<i32>,
)
    requires
        largest_asked(c, syms, n, name, a),
        largest_asked(c, syms, n, name, b),
    ensures
        a == b,
{
}

/// The order of the requests does not matter: symbols that are the symbols
/// `syms` in another order leave the same size for every name.
pub proof fn lemma_commons_in_any_order(
    c: TableModel<SymbolId, i32>,
    syms: Seq<SymbolView>,
    other: Seq<SymbolView>,
    name: SymbolId,
)
    requires
        table_wf::<SymbolName, i32>(c),
        syms.to_multiset() == other.to_multiset(),
    ensures
        table_get::<SymbolName, i32>(note_commons(c, syms, syms.len() as int), name) == table_get::<
            SymbolName,
            i32,
        >(note_commons(c, other, other.len() as int), name),
{
    let n = syms.len() as int;
    let m = other.len() as int;
    let a = table_get::<SymbolName, i32>(note_commons(c, syms, n), name);
    let b = table_get::<SymbolName, i32>(note_commons(c, other, m), name);
    lemma_commons_keep_largest(c, syms, n, name);
    lemma_commons_keep_largest(c, other, m, name);
    assert forall|x: SymbolView| syms.contains(x) <==> other.contains(x) by {
        to_multiset_contains(syms, x);
        to_multiset_contains(other, x);
    }
    assert(largest_asked(c, syms, n, name, b)) by {
        assert forall|i: int| 0 <= i < n && asks(#[trigger] syms[i], name) implies match b {
            Some(v) => syms[i].st_value <= v,
            None => false,
        } by {
            assert(syms.contains(syms[i]));
            let j = choose|j: int| 0 <= j < m && other[j] == syms[i];
            assert(asks(other[j], name));
        }
        match b {
            Some(v) => {
                if !(table_get::<SymbolName, i32>(c, name) == Some(v)) {
                    let j = choose|j: int|
                        0 <= j < m && asks(#[trigger] other[j], name) && other[j].st_value == v;
                    assert(other.contains(other[j]));
                    let i = choose|i: int| 0 <= i < n && syms[i] == other[j];
                    assert(asks(syms[i], name) && syms[i].st_value == v);
                }
            },
            None => {},
        }
    }
    lemma_largest_is_one(c, syms, n, name, a, b);
}

/// The symbols of two modules, one after the other, leave what the symbols
/// of the first and then those of the second leave.
pub proof fn lemma_commons_of_two(
    c: TableModel<SymbolId, i32>,
    first: Seq<SymbolView>,
    second: Seq<SymbolView>,
    n: int,
)
    requires
        0 <= n <= second.len(),
    ensures
        note_commons(c, first + second, first.len() + n) == note_commons(
            note_commons(c, first, first.len() as int),
            second,
            n,
        ),
    decreases n,
{
    if n > 0 {
        lemma_commons_of_two(c, first, second, n - 1);
        assert((first + second)[first.len() + n - 1] == second[n - 1]);
    } else {
        lemma_commons_prefix(c, first + second, first, first.len() as int);
    }
}

/// What the first `n` symbols leave depends on those symbols alone.
pub proof fn lemma_commons_prefix(
    c: TableModel<SymbolId, i32>,
    a: Seq<SymbolView>,
    b: Seq<SymbolView>,
    n: int,
)
    requires
        0 <= n <= a.len(),
        n <= b.len(),
        forall|i: int| 0 <= i < n ==> a[i] == b[i],
    ensures
        note_commons(c, a, n) == note_commons(c, b, n),
    decreases n,
{
    if n > 0 {
        lemma_commons_prefix(c, a, b, n - 1);
    }
}

/// A request for a common block makes no entry in the global symbol table:
/// a name that the first `n` symbols of a module only ask a block for is in
/// the table afterwards as it was before.
pub proof fn lemma_commons_stay_out(
    g: TableModel<SymbolId, GlobalEntryView>,
    id: Seq<char>,
    syms: Seq<SymbolView>,
    n: int,
    name: SymbolId,
)
    requires
        table_wf::<SymbolName, GlobalEntryView>(g),
        0 <= n <= syms.len(),
        register_symbols(g, id, syms, n) is Ok,
        forall|i: int| 0 <= i < n && (#[trigger] syms[i]).st_name == name ==> syms[i].is_common_block(),
    ensures
        table_wf::<SymbolName, GlobalEntryView>(register_symbols(g, id, syms, n)->Ok_0),
        table_get::<SymbolName, GlobalEntryView>(register_symbols(g, id, syms, n)->Ok_0, name)
            == table_get::<SymbolName, GlobalEntryView>(g, name),
    decreases n,
{
    if n > 0 {
        lemma_commons_stay_out(g, id, syms, n - 1, name);
        let h = register_symbols(g, id, syms, n - 1)->Ok_0;
        let sym = syms[n - 1];
        if !sym.is_common_block() {
            assert(sym.st_name != name);
            lemma_entry_put(h, id, (n - 1) as usize, sym, name);
        }
    }
}

/// Registering a symbol that is no request for a common block touches the
/// entry of its own name alone.
pub proof fn lemma_entry_put(
    h: TableModel<SymbolId, GlobalEntryView>,
    id: Seq<char>,
    i: usize,
    sym: SymbolView,
    name: SymbolId,
)
    requires
        table_wf::<SymbolName, GlobalEntryView>(h),
        !sym.is_common_block(),
        register_symbol(h, id, i, sym) is Ok,
        sym.st_name != name,
    ensures
        table_wf::<SymbolName, GlobalEntryView>(register_symbol(h, id, i, sym)->Ok_0),
        table_get::<SymbolName, GlobalEntryView>(register_symbol(h, id, i, sym)->Ok_0, name)
            == table_get::<SymbolName, GlobalEntryView>(h, name),
{
    let known = table_get::<SymbolName, GlobalEntryView>(h, sym.st_name);
    let (defn, refs) = match known {
        Some(e) => e,
        None => (None, crate::table::table_empty()),
    };
    if sym.is_defined() {
        let e: GlobalEntryView = (Some(crate::linker::ingest::object_defn(id, i)), refs);
        lemma_put_wf::<SymbolName, GlobalEntryView>(h, sym.st_name, e);
        lemma_get_put::<SymbolName, GlobalEntryView>(h, sym.st_name, e, name);
    } else {
        let e: GlobalEntryView = (defn, crate::table::table_put::<String, usize>(refs, id, i));
        lemma_put_wf::<SymbolName, GlobalEntryView>(h, sym.st_name, e);
        lemma_get_put::<SymbolName, GlobalEntryView>(h, sym.st_name, e, name);
    }
}

} // verus!
