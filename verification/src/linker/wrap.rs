//! Wrapping: renaming the symbols that a link is asked to interpose.

use crate::table::{deep, Key};
use crate::text::{chars_of, string_of};
use crate::types::errors::LinkError;
use crate::types::object::{printed_name, ObjectIn, ObjectView};
use crate::types::symbol_table::{SymbolId, SymbolName, SymbolTableEntry, SymbolView};
use vstd::prelude::*;

verus! {

/// Whether `s` begins with `p`.
pub open spec fn starts_with(s: Seq<char>, p: Seq<char>) -> bool {
    s.len() >= p.len() && s.take(p.len() as int) == p
}

/// Whether one of the names has the given text.
pub open spec fn names_spell(names: Seq<SymbolId>, text: Seq<char>) -> bool {
    exists|i: int| 0 <= i < names.len() && (#[trigger] names[i]).text == text
}

/// Whether a symbol stands in the way of wrapping `names`: its name is
/// `wrap_X` or `real_X` for an `X` among the names, or it is among the names
/// and wrapped already.
pub open spec fn clashes(names: Seq<SymbolId>, sym: SymbolView) -> bool {
    let text = sym.st_name.text;
    ||| starts_with(text, "wrap_"@) && names_spell(names, text.skip("wrap_"@.len() as int))
    ||| starts_with(text, "real_"@) && names_spell(names, text.skip("real_"@.len() as int))
    ||| sym.st_name.wrapped && names.contains(sym.st_name)
}

/// Whether a symbol of the module stands in the way of wrapping `names`.
pub open spec fn module_clashes(names: Seq<SymbolId>, o: ObjectView) -> bool {
    exists|i: int| 0 <= i < o.symbol_table.len() && clashes(names, #[trigger] o.symbol_table[i])
}

/// The symbol after wrapping: wrapped if its name is among `names`.
pub open spec fn wrap_symbol(names: Seq<SymbolId>, sym: SymbolView) -> SymbolView {
    if names.contains(sym.st_name) {
        SymbolView { st_name: SymbolId { wrapped: true, text: sym.st_name.text }, ..sym }
    } else {
        sym
    }
}

/// The module after wrapping: each symbol whose name is among `names` is wrapped.
pub open spec fn wrap_module(names: Seq<SymbolId>, o: ObjectView) -> ObjectView {
    ObjectView {
        symbol_table: o.symbol_table.map_values(|s: SymbolView| wrap_symbol(names, s)),
        ..o
    }
}

/// Wrapping keeps a module well formed.
pub proof fn lemma_wrap_wf(names: Seq<SymbolId>, o: ObjectView)
    requires
        o.wf(),
    ensures
        wrap_module(names, o).wf(),
{
    let w = wrap_module(names, o);
    assert forall|i: int| 0 <= i < w.relocations.len() implies w.fits(
        #[trigger] w.relocations[i],
    ) by {
        assert(o.fits(o.relocations[i]));
    }
    assert forall|i: int| 0 <= i < w.symbol_table.len() implies 0 <= (
    #[trigger] w.symbol_table[i]).st_seg <= w.nsegs by {
        assert(0 <= o.symbol_table[i].st_seg <= o.nsegs);
    }
}

/// Whether `name` is one of `names`.
pub fn among(names: &[SymbolName], name: &SymbolName) -> (b: bool)
    ensures
        b == deep(names@).contains(name@),
{
    let mut k: usize = 0;
    while k < names.len()
        invariant
            k <= names@.len(),
            forall|j: int| 0 <= j < k ==> deep(names@)[j] != name@,
        decreases names@.len() - k,
    {
        if names[k].same(name) {
            assert(deep(names@)[k as int] == name@);
            return true;
        }
        k += 1;
    }
    false
}

/// Whether one of `names` has the text `chars[from..]`.
fn spelled(names: &[SymbolName], chars: &[char], from: usize) -> (b: bool)
    requires
        from <= chars@.len(),
    ensures
        b == names_spell(deep(names@), chars@.skip(from as int)),
{
    let rest = string_of(chars, from, chars.len());
    let mut k: usize = 0;
    while k < names.len()
        invariant
            k <= names@.len(),
            rest@ == chars@.skip(from as int),
            forall|j: int| 0 <= j < k ==> (#[trigger] deep(names@)[j]).text != rest@,
        decreases names@.len() - k,
    {
        if *names[k].deref() == rest {
            assert(deep(names@)[k as int].text == rest@);
            return true;
        }
        k += 1;
    }
    false
}

/// Whether `chars` begins with the characters of `prefix`.
fn begins_with(chars: &[char], prefix: &str) -> (r: (bool, usize))
    ensures
        r.0 == starts_with(chars@, prefix@),
        r.1 == prefix@.len(),
{
    let p = chars_of(prefix);
    if chars.len() < p.len() {
        return (false, p.len());
    }
    let mut k: usize = 0;
    while k < p.len()
        invariant
            p@ == prefix@,
            p@.len() <= chars@.len(),
            k <= p@.len(),
            forall|j: int| 0 <= j < k ==> chars@[j] == p@[j],
        decreases p@.len() - k,
    {
        if chars[k] != p[k] {
            assert(chars@.take(p@.len() as int)[k as int] != p@[k as int]);
            return (false, p.len());
        }
        k += 1;
    }
    assert(chars@.take(p@.len() as int) =~= p@);
    (true, p.len())
}

/// Whether a symbol stands in the way of wrapping `names`.
pub fn symbol_clashes(names: &[SymbolName], sym: &SymbolTableEntry) -> (b: bool)
    ensures
        b == clashes(deep(names@), sym@),
{
    let text = chars_of(sym.st_name.as_str());
    let (w, wn) = begins_with(text.as_slice(), "wrap_");
    if w && spelled(names, text.as_slice(), wn) {
        return true;
    }
    let (r, rn) = begins_with(text.as_slice(), "real_");
    if r && spelled(names, text.as_slice(), rn) {
        return true;
    }
    sym.st_name.is_wrapped() && among(names, &sym.st_name)
}

/// A copy of the module in which each symbol whose name is among `names` is
/// wrapped, unless a symbol of the module stands in the way.
pub fn wrap_one(names: &[SymbolName], o: &ObjectIn) -> (r: Result<ObjectIn, LinkError>)
    ensures
        match r {
            Ok(w) => !module_clashes(deep(names@), o@) && w@ == wrap_module(deep(names@), o@),
            Err(e) => module_clashes(deep(names@), o@) && e
                == LinkError::WrappedSymbolNameAlreadyExists,
        },
{
    let ghost ns = deep(names@);
    let mut w = o.duplicate();
    let mut symbols: Vec<SymbolTableEntry> = Vec::new();
    let mut k: usize = 0;
    while k < o.symbol_table.len()
        invariant
            k <= o.symbol_table@.len(),
            ns == deep(names@),
            symbols@.len() == k,
            forall|j: int| 0 <= j < k ==> !clashes(ns, #[trigger] o@.symbol_table[j]),
            forall|j: int|
                0 <= j < k ==> (#[trigger] deep(symbols@)[j]) == wrap_symbol(
                    ns,
                    o@.symbol_table[j],
                ),
        decreases o.symbol_table@.len() - k,
    {
        let sym = &o.symbol_table[k];
        assert(sym@ == o@.symbol_table[k as int]);
        if symbol_clashes(names, sym) {
            return Err(LinkError::WrappedSymbolNameAlreadyExists);
        }
        let st_name = if among(names, &sym.st_name) {
            SymbolName::WrappedSName(sym.st_name.deref().clone())
        } else {
            sym.st_name.duplicate()
        };
        let ghost before = deep(symbols@);
        let entry = SymbolTableEntry {
            st_name,
            st_value: sym.st_value,
            st_seg: sym.st_seg,
            st_type: sym.st_type,
        };
        symbols.push(entry);
        assert(deep(symbols@) =~= before.push(entry@));
        k += 1;
    }
    w.symbol_table = symbols;
    assert(w@.symbol_table =~= wrap_module(ns, o@).symbol_table);
    Ok(w)
}


/// A symbol whose name is to be wrapped becomes a wrapped symbol of the same
/// text, which is printed as `real_` and the text where the symbol is
/// defined and as `wrap_` and the text where it is not. Every other symbol
/// stays as it is.
pub proof fn lemma_wrap_symbol(names: Seq<SymbolId>, sym: SymbolView)
    ensures
        names.contains(sym.st_name) ==> wrap_symbol(names, sym).st_name == (SymbolId {
            wrapped: true,
            text: sym.st_name.text,
        }),
        names.contains(sym.st_name) && sym.is_defined() ==> printed_name(wrap_symbol(names, sym))
            == "real_"@ + sym.st_name.text,
        names.contains(sym.st_name) && !sym.is_defined() ==> printed_name(wrap_symbol(names, sym))
            == "wrap_"@ + sym.st_name.text,
        !names.contains(sym.st_name) ==> wrap_symbol(names, sym) == sym,
{
}

/// In a module that was wrapped without a clash, a symbol is printed as
/// `wrap_X`, for an `X` among the names, exactly where it is a wrapped `X`
/// that is not defined, and as `real_X` exactly where it is a wrapped `X`
/// that is defined: a module that only defines `X` has no symbol that is
/// printed as `wrap_X`.
pub proof fn lemma_wrapped_lines(names: Seq<SymbolId>, o: ObjectView, i: int, x: SymbolId)
    requires
        !module_clashes(names, o),
        names.contains(x),
        0 <= i < o.symbol_table.len(),
    ensures
        ({
            let sym = wrap_module(names, o).symbol_table[i];
            let wrapped = SymbolId { wrapped: true, text: x.text };
            &&& printed_name(sym) == "wrap_"@ + x.text <==> sym.st_name == wrapped
                && !sym.is_defined()
            &&& printed_name(sym) == "real_"@ + x.text <==> sym.st_name == wrapped
                && sym.is_defined()
        }),
{
    let before = o.symbol_table[i];
    let sym = wrap_module(names, o).symbol_table[i];
    let text = sym.st_name.text;
    let pw = "wrap_"@;
    let pr = "real_"@;
    reveal_strlit("wrap_");
    reveal_strlit("real_");
    assert(sym == wrap_symbol(names, before));
    assert(!clashes(names, before));
    assert((pw + x.text).skip(5) =~= x.text);
    assert((pr + x.text).skip(5) =~= x.text);
    assert((pw + x.text).take(5) =~= pw);
    assert((pr + x.text).take(5) =~= pr);
    assert((pw + text).skip(5) =~= text);
    assert((pr + text).skip(5) =~= text);
    assert((pw + text)[0] == 'w' && (pr + text)[0] == 'r');
    assert((pw + x.text)[0] == 'w' && (pr + x.text)[0] == 'r');
    if !sym.st_name.wrapped {
        assert(sym == before);
        let k = choose|k: int| 0 <= k < names.len() && names[k] == x;
        assert(names[k].text == x.text);
        if text == pw + x.text {
            assert(starts_with(text, pw));
            assert(names_spell(names, text.skip(pw.len() as int)));
        }
        if text == pr + x.text {
            assert(starts_with(text, pr));
            assert(names_spell(names, text.skip(pr.len() as int)));
        }
    }
}

} // verus!
