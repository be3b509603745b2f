//! Symbol names and symbol table entries.

use crate::table::{
    lemma_lex_irreflexive, lemma_lex_transitive, lemma_text_total, str_before, text_lt, Key,
};
use crate::text::{
    chars_of, parse_signed_hex, push_str, signed_hex, spells, split_words, string_of,
    string_of_str, words_of,
};
use crate::types::errors::ParseError;
use vstd::prelude::*;
use vstd::utf8::encode_utf8;

verus! {

/// The name of a symbol: as written, or wrapped by the linker.
#[derive(Eq, Ord, PartialEq, PartialOrd, Clone, Hash, Debug)]
pub enum SymbolName {
    SName(String),
    WrappedSName(String),
}

/// What a symbol name holds: its text, and whether it is wrapped.
pub struct SymbolId {
    pub wrapped: bool,
    pub text: Seq<char>,
}

impl View for SymbolName {
    type V = SymbolId;

    open spec fn view(&self) -> SymbolId {
        match self {
            SymbolName::SName(s) => SymbolId { wrapped: false, text: s@ },
            SymbolName::WrappedSName(s) => SymbolId { wrapped: true, text: s@ },
        }
    }
}

impl DeepView for SymbolName {
    type V = SymbolId;

    open spec fn deep_view(&self) -> SymbolId {
        self@
    }
}

/// The plain name with the given text.
pub fn symbol(name: &str) -> (s: SymbolName)
    ensures
        s@ == (SymbolId { wrapped: false, text: name@ }),
{
    SymbolName::SName(string_of_str(name))
}

/// The wrapped name with the given text.
pub fn wrapped_symbol(name: &str) -> (s: SymbolName)
    ensures
        s@ == (SymbolId { wrapped: true, text: name@ }),
{
    SymbolName::WrappedSName(string_of_str(name))
}

/// How a name is written: a wrapped name of `N` as `wrap_N`.
pub open spec fn symbol_text(id: SymbolId) -> Seq<char> {
    if id.wrapped {
        "wrap_"@ + id.text
    } else {
        id.text
    }
}

impl SymbolName {
    /// The text of the name, whether wrapped or not.
    pub fn deref(&self) -> (s: &String)
        ensures
            s@ == self@.text,
    {
        match self {
            SymbolName::SName(s) => s,
            SymbolName::WrappedSName(s) => s,
        }
    }

    /// The text of the name, whether wrapped or not.
    pub fn as_str(&self) -> (s: &str)
        ensures
            s@ == self@.text,
    {
        self.deref().as_str()
    }

    /// Whether the name is wrapped.
    pub fn is_wrapped(&self) -> (b: bool)
        ensures
            b == self@.wrapped,
    {
        match self {
            SymbolName::SName(_) => false,
            SymbolName::WrappedSName(_) => true,
        }
    }

    /// How the name is written.
    pub fn to_string(&self) -> (s: String)
        ensures
            s@ == symbol_text(self@),
    {
        let mut out: Vec<char> = Vec::new();
        if self.is_wrapped() {
            push_str(&mut out, "wrap_");
        }
        push_str(&mut out, self.as_str());
        assert(Seq::<char>::empty() + self@.text =~= self@.text);
        assert(Seq::<char>::empty() + "wrap_"@ + self@.text =~= "wrap_"@ + self@.text);
        let s = string_of(out.as_slice(), 0, out.len());
        assert(out@.subrange(0, out@.len() as int) =~= out@);
        s
    }
}

/// Plain names come before wrapped ones; names of one kind are ordered by their text.
pub open spec fn symbol_lt(a: SymbolId, b: SymbolId) -> bool {
    if a.wrapped == b.wrapped {
        text_lt(a.text, b.text)
    } else {
        !a.wrapped
    }
}

impl Key for SymbolName {
    open spec fn key_lt(a: SymbolId, b: SymbolId) -> bool {
        symbol_lt(a, b)
    }

    proof fn irreflexive(a: SymbolId) {
        lemma_lex_irreflexive(encode_utf8(a.text));
    }

    proof fn transitive(a: SymbolId, b: SymbolId, c: SymbolId) {
        if a.wrapped == b.wrapped && b.wrapped == c.wrapped {
            lemma_lex_transitive(encode_utf8(a.text), encode_utf8(b.text), encode_utf8(c.text));
        }
    }

    proof fn total(a: SymbolId, b: SymbolId) {
        if a.wrapped == b.wrapped {
            lemma_text_total(a.text, b.text);
        }
    }

    fn before(&self, other: &Self) -> (r: bool) {
        if self.is_wrapped() == other.is_wrapped() {
            str_before(self.as_str(), other.as_str())
        } else {
            !self.is_wrapped()
        }
    }

    fn same(&self, other: &Self) -> (r: bool) {
        self.is_wrapped() == other.is_wrapped() && *self.deref() == *other.deref()
    }

    fn duplicate(&self) -> (r: Self) {
        match self {
            SymbolName::SName(s) => SymbolName::SName(s.clone()),
            SymbolName::WrappedSName(s) => SymbolName::WrappedSName(s.clone()),
        }
    }
}

/// Whether a symbol is defined or undefined.
#[derive(Debug, Eq, PartialEq, Clone, Copy, Structural)]
pub enum SymbolTableEntryType {
    D,
    U,
}

impl SymbolTableEntryType {
    /// The letter of the type.
    pub fn to_string(&self) -> (s: String)
        ensures
            s@ == symbol_type_text(*self),
    {
        match self {
            SymbolTableEntryType::D => string_of_str("D"),
            SymbolTableEntryType::U => string_of_str("U"),
        }
    }
}

/// The letter of a symbol type.
pub open spec fn symbol_type_text(t: SymbolTableEntryType) -> Seq<char> {
    match t {
        SymbolTableEntryType::D => "D"@,
        SymbolTableEntryType::U => "U"@,
    }
}

/// A symbol table entry: `name value seg type`. The segment is numbered from
/// 1 within the module, 0 for absolute and undefined symbols.
#[derive(Debug)]
pub struct SymbolTableEntry {
    pub st_name: SymbolName,
    pub st_value: i32,
    pub st_seg: i32,
    pub st_type: SymbolTableEntryType,
}

/// What a symbol table entry holds.
pub struct SymbolView {
    pub st_name: SymbolId,
    pub st_value: i32,
    pub st_seg: i32,
    pub st_type: SymbolTableEntryType,
}

impl View for SymbolTableEntry {
    type V = SymbolView;

    open spec fn view(&self) -> SymbolView {
        SymbolView {
            st_name: self.st_name@,
            st_value: self.st_value,
            st_seg: self.st_seg,
            st_type: self.st_type,
        }
    }
}

impl DeepView for SymbolTableEntry {
    type V = SymbolView;

    open spec fn deep_view(&self) -> SymbolView {
        self@
    }
}

impl SymbolView {
    /// An undefined symbol with a value asks for a common block of that size.
    pub open spec fn is_common_block(self) -> bool {
        self.st_type == SymbolTableEntryType::U && self.st_value != 0
    }

    /// Whether the symbol is defined.
    pub open spec fn is_defined(self) -> bool {
        self.st_type == SymbolTableEntryType::D
    }
}

impl SymbolTableEntry {
    /// Whether the entry asks for a common block.
    pub fn is_common_block(&self) -> (b: bool)
        ensures
            b == self@.is_common_block(),
    {
        self.st_type == SymbolTableEntryType::U && self.st_value != 0
    }

    /// Whether the entry defines its symbol.
    pub fn is_defined(&self) -> (b: bool)
        ensures
            b == self@.is_defined(),
    {
        self.st_type == SymbolTableEntryType::D
    }

    /// A copy of the entry.
    pub fn duplicate(&self) -> (e: SymbolTableEntry)
        ensures
            e@ == self@,
    {
        SymbolTableEntry {
            st_name: self.st_name.duplicate(),
            st_value: self.st_value,
            st_seg: self.st_seg,
            st_type: self.st_type,
        }
    }
}

/// The symbol type that a word stands for.
pub open spec fn symbol_type_of(w: Seq<char>) -> Option<SymbolTableEntryType> {
    if w == "D"@ {
        Some(SymbolTableEntryType::D)
    } else if w == "U"@ {
        Some(SymbolTableEntryType::U)
    } else {
        None
    }
}

/// What a symbol line says in a module of `nsegs` segments: `name value seg
/// type`. The segment is 0, or the number, from 1, of a segment of the module.
pub open spec fn symbol_of(nsegs: int, line: Seq<char>) -> Result<SymbolView, ParseError> {
    let w = words_of(line, true);
    if w.len() != 4 {
        Err(ParseError::InvalidSymbolTableEntry)
    } else {
        match signed_hex(w[1]) {
            None => Err(ParseError::InvalidSTEValue),
            Some(value) => match signed_hex(w[2]) {
                None => Err(ParseError::InvalidSTESegment),
                Some(seg) => if seg < 0 || seg > nsegs {
                    Err(ParseError::STESegmentRefOutOfRange)
                } else {
                    match symbol_type_of(w[3]) {
                        None => Err(ParseError::InvalidSTEType),
                        Some(st_type) => Ok(
                            SymbolView {
                                st_name: SymbolId { wrapped: false, text: w[0] },
                                st_value: value as i32,
                                st_seg: seg as i32,
                                st_type,
                            },
                        ),
                    }
                },
            },
        }
    }
}

/// Reads a symbol line.
pub fn symbol_from_chars(nsegs: i32, line: &[char]) -> (r: Result<SymbolTableEntry, ParseError>)
    ensures
        match r {
            Ok(e) => symbol_of(nsegs as int, line@) == Ok::<SymbolView, ParseError>(e@),
            Err(e) => symbol_of(nsegs as int, line@) == Err::<SymbolView, ParseError>(e),
        },
{
    let w = split_words(line, true);
    if w.len() != 4 {
        return Err(ParseError::InvalidSymbolTableEntry);
    }
    let ghost ws = words_of(line@, true);
    assert(ws[0] == w@[0]@ && ws[1] == w@[1]@ && ws[2] == w@[2]@ && ws[3] == w@[3]@);
    let st_name = SymbolName::SName(string_of(w[0].as_slice(), 0, w[0].len()));
    assert(w@[0]@.subrange(0, w@[0]@.len() as int) =~= w@[0]@);
    let st_value = match parse_signed_hex(w[1].as_slice()) {
        None => {
            return Err(ParseError::InvalidSTEValue);
        },
        Some(i) => i,
    };
    let st_seg = match parse_signed_hex(w[2].as_slice()) {
        None => {
            return Err(ParseError::InvalidSTESegment);
        },
        Some(i) => i,
    };
    if st_seg < 0 || st_seg > nsegs {
        return Err(ParseError::STESegmentRefOutOfRange);
    }
    let st_type = if spells(w[3].as_slice(), "D") {
        SymbolTableEntryType::D
    } else if spells(w[3].as_slice(), "U") {
        SymbolTableEntryType::U
    } else {
        return Err(ParseError::InvalidSTEType);
    };
    Ok(SymbolTableEntry { st_name, st_value, st_seg, st_type })
}

/// Reads a symbol line.
pub fn parse_symbol_table_entry(nsegs: i32, s: &str) -> (r: Result<SymbolTableEntry, ParseError>)
    ensures
        match r {
            Ok(e) => symbol_of(nsegs as int, s@) == Ok::<SymbolView, ParseError>(e@),
            Err(e) => symbol_of(nsegs as int, s@) == Err::<SymbolView, ParseError>(e),
        },
{
    let line = chars_of(s);
    symbol_from_chars(nsegs, line.as_slice())
}

} // verus!
