//! What a linking session knows: the modules taken in so far, the image
//! under construction and the tables about both.

use crate::common::{Defn, DefnView, ObjectID, Refs};
use crate::table::{deep, table_empty, table_wf, Table, TableModel};
use crate::types::object::{ObjectIn, ObjectView};
use crate::types::out::{out_empty, ObjectOut, OutView};
use crate::types::segment_map::SegMap;
use crate::types::symbol_table::{SymbolId, SymbolName, SymbolTableEntry, SymbolView};
use crate::text::{
    hex_i32, join_lines, join_with, lemma_views_push, push_hex_i32, push_str, string_of, views,
};
use crate::types::out::listing_order;
use crate::types::segment::{segment_name_text, SegmentName};
use vstd::prelude::*;

verus! {

/// The modules of a session, in the order in which they were taken in.
#[derive(Debug)]
pub struct Session {
    pub ids: Vec<ObjectID>,
    pub modules: Vec<ObjectIn>,
}

/// What a session holds.
pub struct SessionView {
    pub ids: Seq<Seq<char>>,
    pub modules: Seq<ObjectView>,
}

impl DeepView for Session {
    type V = SessionView;

    open spec fn deep_view(&self) -> SessionView {
        SessionView { ids: deep(self.ids@), modules: deep(self.modules@) }
    }
}

impl View for Session {
    type V = SessionView;

    open spec fn view(&self) -> SessionView {
        self.deep_view()
    }
}

/// The position of the first of `ids` that is `id`, or the number of ids.
pub open spec fn position_of(ids: Seq<Seq<char>>, id: Seq<char>) -> int
    decreases ids.len(),
{
    if ids.len() == 0 || ids[0] == id {
        0
    } else {
        1 + position_of(ids.drop_first(), id)
    }
}

/// A place is the position of an id if it holds the id and no place before it does.
pub proof fn lemma_position_is(ids: Seq<Seq<char>>, id: Seq<char>, k: int)
    requires
        0 <= k <= ids.len(),
        forall|j: int| 0 <= j < k ==> ids[j] != id,
        k < ids.len() ==> ids[k] == id,
    ensures
        position_of(ids, id) == k,
    decreases ids.len(),
{
    if ids.len() == 0 || ids[0] == id {
        if k > 0 {
            assert(ids[0] != id);
        }
    } else {
        let t = ids.drop_first();
        assert forall|j: int| 0 <= j < k - 1 implies t[j] != id by {
            assert(t[j] == ids[j + 1]);
        }
        if k < ids.len() {
            assert(t[k - 1] == ids[k]);
        }
        lemma_position_is(t, id, k - 1);
    }
}

/// The position of an id holds the id if it is a place at all, and no place before it does.
pub proof fn lemma_position(ids: Seq<Seq<char>>, id: Seq<char>)
    ensures
        0 <= position_of(ids, id) <= ids.len(),
        position_of(ids, id) < ids.len() ==> ids[position_of(ids, id)] == id,
        forall|j: int| 0 <= j < position_of(ids, id) ==> ids[j] != id,
    decreases ids.len(),
{
    if ids.len() == 0 || ids[0] == id {
    } else {
        let t = ids.drop_first();
        lemma_position(t, id);
        assert forall|j: int| 0 <= j < position_of(ids, id) implies ids[j] != id by {
            if j > 0 {
                assert(ids[j] == t[j - 1]);
            }
        }
        if position_of(ids, id) < ids.len() {
            assert(t[position_of(t, id)] == ids[position_of(ids, id)]);
        }
    }
}

impl SessionView {
    /// The session without modules.
    pub open spec fn empty() -> SessionView {
        SessionView { ids: Seq::empty(), modules: Seq::empty() }
    }

    /// Whether the session holds a module under `id`.
    pub open spec fn knows(self, id: Seq<char>) -> bool {
        position_of(self.ids, id) < self.ids.len()
    }

    /// The session with one more module.
    pub open spec fn with(self, id: Seq<char>, module: ObjectView) -> SessionView {
        SessionView { ids: self.ids.push(id), modules: self.modules.push(module) }
    }

    /// Each module has an id, and each module is well formed.
    pub open spec fn wf(self) -> bool {
        &&& self.ids.len() == self.modules.len()
        &&& forall|i: int| 0 <= i < self.modules.len() ==> (#[trigger] self.modules[i]).wf()
    }
}

impl Session {
    /// The session without modules.
    pub fn new() -> (s: Session)
        ensures
            s@ == SessionView::empty(),
    {
        let s = Session { ids: Vec::new(), modules: Vec::new() };
        assert(s@.ids =~= Seq::empty());
        assert(s@.modules =~= Seq::empty());
        s
    }

    /// The number of modules.
    pub fn len(&self) -> (n: usize)
        ensures
            n == self@.ids.len(),
    {
        self.ids.len()
    }

    /// The position of the module `id`.
    pub fn position(&self, id: &str) -> (r: Option<usize>)
        ensures
            match r {
                Some(i) => i == position_of(self@.ids, id@) && i < self.ids@.len(),
                None => !self@.knows(id@),
            },
    {
        let mut k: usize = 0;
        while k < self.ids.len()
            invariant
                k <= self.ids@.len(),
                forall|j: int| 0 <= j < k ==> self@.ids[j] != id@,
            decreases self.ids@.len() - k,
        {
            if crate::table::str_same(self.ids[k].as_str(), id) {
                proof {
                    lemma_position_is(self@.ids, id@, k as int);
                }
                return Some(k);
            }
            k += 1;
        }
        proof {
            lemma_position_is(self@.ids, id@, k as int);
        }
        None
    }

    /// The module `id`, if the session holds it.
    pub fn get(&self, id: &str) -> (r: Option<&ObjectIn>)
        ensures
            match r {
                Some(o) => self@.knows(id@) && position_of(self@.ids, id@) < self.modules@.len()
                    && *o == self.modules@[position_of(self@.ids, id@)] && o@
                    == self@.modules[position_of(self@.ids, id@)],
                None => !self@.knows(id@) || position_of(self@.ids, id@) >= self.modules@.len(),
            },
    {
        match self.position(id) {
            Some(i) => if i < self.modules.len() {
                Some(&self.modules[i])
            } else {
                None
            },
            None => None,
        }
    }

    /// Adds a module at the end.
    pub fn push(&mut self, id: ObjectID, module: ObjectIn)
        ensures
            final(self)@ == old(self)@.with(id@, module@),
            final(self).ids@ == old(self).ids@.push(id),
            final(self).modules@ == old(self).modules@.push(module),
    {
        self.ids.push(id);
        self.modules.push(module);
        assert(self@.ids =~= old(self)@.ids.push(id@));
        assert(self@.modules =~= old(self)@.modules.push(module@));
    }
}

/// An entry of the global symbol table: the definition, if one is known,
/// and the modules that refer to the symbol.
pub type GlobalEntry = (Option<Defn>, Refs);

/// What an entry of the global symbol table holds.
pub type GlobalEntryView = (Option<DefnView>, TableModel<Seq<char>, usize>);

/// What a session has found out: for each module the address of each of its
/// segments, the size of each common block, a copy of each module's symbol
/// table, and the global symbol table.
#[derive(Debug)]
pub struct LinkerInfo {
    pub segment_mapping: Table<ObjectID, SegMap<i32>>,
    pub common_block_mapping: Table<SymbolName, i32>,
    pub symbol_tables: Table<ObjectID, Vec<SymbolTableEntry>>,
    pub global_symtable: Table<SymbolName, GlobalEntry>,
}

/// What the tables of a session hold.
pub struct InfoView {
    pub segment_mapping: TableModel<Seq<char>, SegMap<i32>>,
    pub common_block_mapping: TableModel<SymbolId, i32>,
    pub symbol_tables: TableModel<Seq<char>, Seq<SymbolView>>,
    pub global_symtable: TableModel<SymbolId, GlobalEntryView>,
}

impl DeepView for LinkerInfo {
    type V = InfoView;

    open spec fn deep_view(&self) -> InfoView {
        InfoView {
            segment_mapping: self.segment_mapping.deep_view(),
            common_block_mapping: self.common_block_mapping.deep_view(),
            symbol_tables: self.symbol_tables.deep_view(),
            global_symtable: self.global_symtable.deep_view(),
        }
    }
}

impl View for LinkerInfo {
    type V = InfoView;

    open spec fn view(&self) -> InfoView {
        self.deep_view()
    }
}

/// The tables of a session that has taken in nothing.
pub open spec fn info_empty() -> InfoView {
    InfoView {
        segment_mapping: table_empty(),
        common_block_mapping: table_empty(),
        symbol_tables: table_empty(),
        global_symtable: table_empty(),
    }
}

impl InfoView {
    /// Each table is well formed: it has a value for each of its keys, and
    /// its keys ascend, so that no key occurs twice. So are the tables of
    /// the references to each global symbol.
    pub open spec fn wf(self) -> bool {
        &&& table_wf::<String, SegMap<i32>>(self.segment_mapping)
        &&& table_wf::<SymbolName, i32>(self.common_block_mapping)
        &&& table_wf::<String, Seq<SymbolView>>(self.symbol_tables)
        &&& table_wf::<SymbolName, GlobalEntryView>(self.global_symtable)
        &&& forall|i: int|
            0 <= i < self.global_symtable.values.len() ==> table_wf::<String, usize>(
                (#[trigger] self.global_symtable.values[i]).1,
            )
    }
}

impl LinkerInfo {
    /// The tables of a session that has taken in nothing.
    pub fn new() -> (info: LinkerInfo)
        ensures
            info@ == info_empty(),
            info@.wf(),
    {
        LinkerInfo {
            segment_mapping: Table::new(),
            common_block_mapping: Table::new(),
            symbol_tables: Table::new(),
            global_symtable: Table::new(),
        }
    }
}

impl Default for LinkerInfo {
    fn default() -> (info: Self)
        ensures
            info@ == info_empty(),
    {
        Self::new()
    }
}

/// The state of a linking session.
pub struct LinkState {
    pub session: SessionView,
    pub out: OutView,
    pub info: InfoView,
    pub got_size: int,
}

/// The state before anything is taken in.
pub open spec fn initial_state() -> LinkState {
    LinkState { session: SessionView::empty(), out: out_empty(), info: info_empty(), got_size: 0 }
}

impl LinkState {
    /// The invariant of a session.
    pub open spec fn wf(self) -> bool {
        &&& self.session.wf()
        &&& self.out.wf()
        &&& self.info.wf()
        &&& 0 <= self.got_size <= i32::MAX
    }
}

/// The working state of a linking session.
pub struct Work {
    pub session: Session,
    pub out: ObjectOut,
    pub info: LinkerInfo,
    pub got_size: i32,
}

impl View for Work {
    type V = LinkState;

    open spec fn view(&self) -> LinkState {
        LinkState {
            session: self.session@,
            out: self.out@,
            info: self.info@,
            got_size: self.got_size as int,
        }
    }
}

impl Work {
    /// The state before anything is taken in.
    pub fn new() -> (w: Work)
        ensures
            w@ == initial_state(),
            w@.wf(),
    {
        Work { session: Session::new(), out: ObjectOut::new(), info: LinkerInfo::new(), got_size: 0 }
    }
}


/// The addresses of the first `n` segments that a module has, each as
/// ` name: address`, in the order of the names.
pub open spec fn offsets_text(m: SegMap<i32>, n: int) -> Seq<char>
    decreases n,
{
    if n <= 0 {
        Seq::empty()
    } else {
        match m.at(listing_order()[n - 1]) {
            Some(addr) => offsets_text(m, n - 1) + " "@ + segment_name_text(listing_order()[n - 1])
                + ": "@ + hex_i32(addr as int),
            None => offsets_text(m, n - 1),
        }
    }
}

/// The line of a module: its name, then the addresses of its segments.
pub open spec fn mapping_line(id: Seq<char>, m: SegMap<i32>) -> Seq<char> {
    "  "@ + id + " =>"@ + offsets_text(m, 4)
}

/// The text of what a session has found out about the segments of its modules.
pub open spec fn info_text(info: InfoView) -> Seq<char> {
    "Link Info:\n"@ + join_lines(
        Seq::new(
            info.segment_mapping.keys.len(),
            |i: int| mapping_line(info.segment_mapping.keys[i], info.segment_mapping.values[i]),
        ),
    )
}

impl LinkerInfo {
    /// The text of the addresses of the segments of the modules.
    pub fn ppr(&self) -> (s: String)
        requires
            self.segment_mapping.keys@.len() == self.segment_mapping.values@.len(),
        ensures
            s@ == info_text(self@),
    {
        let ghost t = self@.segment_mapping;
        let ghost all = Seq::new(t.keys.len(), |i: int| mapping_line(t.keys[i], t.values[i]));
        let order = SegmentName::order();
        let mut lines: Vec<Vec<char>> = Vec::new();
        let mut k: usize = 0;
        while k < self.segment_mapping.keys.len()
            invariant
                k <= self.segment_mapping.keys@.len(),
                self.segment_mapping.keys@.len() == self.segment_mapping.values@.len(),
                t == self@.segment_mapping,
                all == Seq::new(t.keys.len(), |i: int| mapping_line(t.keys[i], t.values[i])),
                order@ == listing_order(),
                views(lines@) =~= all.take(k as int),
            decreases self.segment_mapping.keys@.len() - k,
        {
            let id = &self.segment_mapping.keys[k];
            let m = &self.segment_mapping.values[k];
            assert(t.keys[k as int] == id@);
            assert(t.values[k as int] == *m);
            let mut line: Vec<char> = Vec::new();
            push_str(&mut line, "  ");
            push_str(&mut line, id.as_str());
            push_str(&mut line, " =>");
            let ghost head = line@;
            assert(head =~= "  "@ + id@ + " =>"@);
            let mut j: usize = 0;
            assert(head + offsets_text(*m, 0) =~= head);
            while j < 4
                invariant
                    j <= 4,
                    order@ == listing_order(),
                    line@ == head + offsets_text(*m, j as int),
                decreases 4 - j,
            {
                match m.get(&order[j]) {
                    None => {},
                    Some(addr) => {
                        let ghost before = line@;
                        push_str(&mut line, " ");
                        push_str(&mut line, order[j].as_str());
                        push_str(&mut line, ": ");
                        push_hex_i32(&mut line, *addr);
                        assert(line@ =~= head + offsets_text(*m, j + 1));
                    },
                }
                j += 1;
            }
            assert(line@ =~= mapping_line(id@, *m));
            proof {
                lemma_views_push(lines@, line);
                assert(all.take(k + 1) =~= all.take(k as int).push(all[k as int]));
            }
            lines.push(line);
            k += 1;
        }
        assert(all.take(all.len() as int) =~= all);
        let body = join_with(&lines, '\n');
        let mut text: Vec<char> = Vec::new();
        push_str(&mut text, "Link Info:\n");
        crate::text::push_chars(&mut text, body.as_slice());
        assert(text@ =~= info_text(self@));
        assert(text@.subrange(0, text@.len() as int) =~= text@);
        string_of(text.as_slice(), 0, text.len())
    }
}

} // verus!
