//! Laws of the global symbol table: a definition that the table holds
//! stays as it is, whatever is registered after it and whether that
//! succeeds or fails.

use crate::common::DefnView;
use crate::linker::ingest::{object_defn, register_reached, register_symbol, register_symbols};
use crate::linker::state::GlobalEntryView;
use crate::table::{
    lemma_get_put, lemma_put_wf, table_empty, table_get, table_put, table_wf, TableModel,
};
use crate::types::symbol_table::{SymbolId, SymbolName, SymbolView};
use vstd::prelude::*;

verus! {

/// Whether the global symbol table holds a definition of a name.
pub open spec fn has_definition(g: TableModel<SymbolId, GlobalEntryView>, name: SymbolId) -> bool {
    match table_get::<SymbolName, GlobalEntryView>(g, name) {
        Some(e) => e.0 is Some,
        None => false,
    }
}

/// Symbols that are registered leave the global symbol table well formed.
pub proof fn lemma_register_wf(
    g: TableModel<SymbolId, GlobalEntryView>,
    id: Seq<char>,
    syms: Seq<SymbolView>,
    n: int,
)
    requires
        table_wf::<SymbolName, GlobalEntryView>(g),
        register_symbols(g, id, syms, n) is Ok,
    ensures
        table_wf::<SymbolName, GlobalEntryView>(register_symbols(g, id, syms, n)->Ok_0),
    decreases n,
{
    if n > 0 {
        lemma_register_wf(g, id, syms, n - 1);
        let h = register_symbols(g, id, syms, n - 1)->Ok_0;
        let sym = syms[n - 1];
        let known = table_get::<SymbolName, GlobalEntryView>(h, sym.st_name);
        let (defn, refs) = match known {
            Some(e) => e,
            None => (None, table_empty()),
        };
        if !sym.is_common_block() {
            if sym.is_defined() {
                let e: GlobalEntryView = (Some(object_defn(id, (n - 1) as usize)), refs);
                lemma_put_wf::<SymbolName, GlobalEntryView>(h, sym.st_name, e);
            } else {
                let e: GlobalEntryView = (
                    defn,
                    table_put::<String, usize>(refs, id, (n - 1) as usize),
                );
                lemma_put_wf::<SymbolName, GlobalEntryView>(h, sym.st_name, e);
            }
        }
    }
}

/// A name that has a definition keeps it, and a name that one of the
/// symbols defines has a definition when the symbols are registered.
pub proof fn lemma_register_defines(
    g: TableModel<SymbolId, GlobalEntryView>,
    id: Seq<char>,
    syms: Seq<SymbolView>,
    n: int,
    name: SymbolId,
)
    requires
        table_wf::<SymbolName, GlobalEntryView>(g),
        0 <= n <= syms.len(),
        register_symbols(g, id, syms, n) is Ok,
        has_definition(g, name) || exists|i: int|
            0 <= i < n && (#[trigger] syms[i]).is_defined() && syms[i].st_name == name,
    ensures
        has_definition(register_symbols(g, id, syms, n)->Ok_0, name),
    decreases n,
{
    if n > 0 {
        lemma_register_wf(g, id, syms, n - 1);
        let h = register_symbols(g, id, syms, n - 1)->Ok_0;
        let sym = syms[n - 1];
        let known = table_get::<SymbolName, GlobalEntryView>(h, sym.st_name);
        let (defn, refs) = match known {
            Some(e) => e,
            None => (None, table_empty()),
        };
        if has_definition(g, name) || exists|i: int|
            0 <= i < n - 1 && (#[trigger] syms[i]).is_defined() && syms[i].st_name == name {
            lemma_register_defines(g, id, syms, n - 1, name);
        } else {
            assert(sym.is_defined() && sym.st_name == name);
        }
        if !sym.is_common_block() {
            if sym.is_defined() {
                let e: GlobalEntryView = (Some(object_defn(id, (n - 1) as usize)), refs);
                lemma_get_put::<SymbolName, GlobalEntryView>(h, sym.st_name, e, name);
            } else {
                let e: GlobalEntryView = (
                    defn,
                    table_put::<String, usize>(refs, id, (n - 1) as usize),
                );
                lemma_get_put::<SymbolName, GlobalEntryView>(h, sym.st_name, e, name);
            }
        }
    }
}

/// Whether the global symbol table holds the definition `d` of a name.
pub open spec fn defined_as(
    g: TableModel<SymbolId, GlobalEntryView>,
    name: SymbolId,
    d: DefnView,
) -> bool {
    match table_get::<SymbolName, GlobalEntryView>(g, name) {
        Some(e) => e.0 == Some(d),
        None => false,
    }
}

/// A symbol that is registered leaves the definitions that the table holds.
pub proof fn lemma_symbol_keeps_definition(
    h: TableModel<SymbolId, GlobalEntryView>,
    id: Seq<char>,
    i: usize,
    sym: SymbolView,
    name: SymbolId,
    d: DefnView,
)
    requires
        table_wf::<SymbolName, GlobalEntryView>(h),
        register_symbol(h, id, i, sym) is Ok,
        defined_as(h, name, d),
    ensures
        defined_as(register_symbol(h, id, i, sym)->Ok_0, name, d),
{
    let known = table_get::<SymbolName, GlobalEntryView>(h, sym.st_name);
    let (defn, refs) = match known {
        Some(e) => e,
        None => (None, table_empty()),
    };
    if !sym.is_common_block() {
        if sym.is_defined() {
            let e: GlobalEntryView = (Some(object_defn(id, i)), refs);
            lemma_get_put::<SymbolName, GlobalEntryView>(h, sym.st_name, e, name);
        } else {
            let e: GlobalEntryView = (defn, table_put::<String, usize>(refs, id, i));
            lemma_get_put::<SymbolName, GlobalEntryView>(h, sym.st_name, e, name);
        }
    }
}

/// Symbols that are registered leave the definitions that the table holds.
pub proof fn lemma_definition_stays(
    g: TableModel<SymbolId, GlobalEntryView>,
    id: Seq<char>,
    syms: Seq<SymbolView>,
    n: int,
    name: SymbolId,
    d: DefnView,
)
    requires
        table_wf::<SymbolName, GlobalEntryView>(g),
        register_symbols(g, id, syms, n) is Ok,
        defined_as(g, name, d),
    ensures
        defined_as(register_symbols(g, id, syms, n)->Ok_0, name, d),
    decreases n,
{
    if n > 0 {
        lemma_definition_stays(g, id, syms, n - 1, name, d);
        lemma_register_wf(g, id, syms, n - 1);
        lemma_symbol_keeps_definition(
            register_symbols(g, id, syms, n - 1)->Ok_0,
            id,
            (n - 1) as usize,
            syms[n - 1],
            name,
            d,
        );
    }
}

/// Registering that fails leaves the definitions that the table held: a
/// name that a second module is refused to define still belongs to the
/// first.
pub proof fn lemma_refusal_keeps_definition(
    g: TableModel<SymbolId, GlobalEntryView>,
    id: Seq<char>,
    syms: Seq<SymbolView>,
    n: int,
    name: SymbolId,
    d: DefnView,
)
    requires
        table_wf::<SymbolName, GlobalEntryView>(g),
        defined_as(g, name, d),
    ensures
        defined_as(register_reached(g, id, syms, n), name, d),
    decreases n,
{
    if n > 0 {
        match register_symbols(g, id, syms, n - 1) {
            Err(_) => {
                lemma_refusal_keeps_definition(g, id, syms, n - 1, name, d);
            },
            Ok(h) => {
                lemma_definition_stays(g, id, syms, n - 1, name, d);
                lemma_register_wf(g, id, syms, n - 1);
                if register_symbol(h, id, (n - 1) as usize, syms[n - 1]) is Ok {
                    lemma_symbol_keeps_definition(h, id, (n - 1) as usize, syms[n - 1], name, d);
                }
            },
        }
    }
}

} // verus!
