//! The linked output.

use crate::table::deep;
use crate::text::{join_lines, join_with, lemma_views_push, push_str, string_of, views};
use crate::types::object::{
    data_chars, data_line, header_chars, header_line, segment_chars, segment_line, symbol_chars,
    symbol_line, MAGIC_NUMBER,
};
use crate::types::relocation::Relocation;
use crate::types::segment::{Segment, SegmentData, SegmentName, SegmentView};
use crate::types::segment_map::SegMap;
use crate::types::symbol_table::{SymbolTableEntry, SymbolView};
use vstd::prelude::*;

verus! {

/// A linked image: the counts, the segments and their data by name, the
/// global symbols where a shared library is built, and the relocations that
/// are left for the loader.
#[derive(Debug)]
pub struct ObjectOut {
    pub nsegs: i32,
    pub nsyms: i32,
    pub nrels: i32,
    pub segments: SegMap<Segment>,
    pub symbol_table: Vec<SymbolTableEntry>,
    pub relocations: Vec<Relocation>,
    pub object_data: SegMap<SegmentData>,
}

/// What a linked image holds.
pub struct OutView {
    pub nsegs: i32,
    pub nsyms: i32,
    pub nrels: i32,
    pub segments: SegMap<SegmentView>,
    pub symbol_table: Seq<SymbolView>,
    pub relocations: Seq<Relocation>,
    pub object_data: SegMap<Seq<u8>>,
}

impl DeepView for ObjectOut {
    type V = OutView;

    open spec fn deep_view(&self) -> OutView {
        OutView {
            nsegs: self.nsegs,
            nsyms: self.nsyms,
            nrels: self.nrels,
            segments: self.segments.deep_view(),
            symbol_table: deep(self.symbol_table@),
            relocations: self.relocations@,
            object_data: self.object_data.deep_view(),
        }
    }
}

impl View for ObjectOut {
    type V = OutView;

    open spec fn view(&self) -> OutView {
        self.deep_view()
    }
}

/// The image without segments.
pub open spec fn out_empty() -> OutView {
    OutView {
        nsegs: 0,
        nsyms: 0,
        nrels: 0,
        segments: SegMap::empty(),
        symbol_table: Seq::empty(),
        relocations: Seq::empty(),
        object_data: SegMap::empty(),
    }
}

impl OutView {
    /// Whether the segment of a name, if there is one, bears that name and
    /// has data of its length.
    pub open spec fn segment_ok(self, name: SegmentName) -> bool {
        match self.segments.at(name) {
            Some(seg) => seg.segment_name == name && self.object_data.at(name) is Some
                && self.object_data.at(name)->0.len() == seg.segment_len,
            None => self.object_data.at(name) is None,
        }
    }

    /// The segments are counted, and each has data of its length.
    pub open spec fn segments_wf(self) -> bool {
        &&& self.nsegs == self.segments.count()
        &&& self.segment_ok(SegmentName::TEXT)
        &&& self.segment_ok(SegmentName::GOT)
        &&& self.segment_ok(SegmentName::DATA)
        &&& self.segment_ok(SegmentName::BSS)
    }

    /// The invariant of an image: each count is the size of its collection,
    /// and each segment has data of its length.
    pub open spec fn wf(self) -> bool {
        &&& self.segments_wf()
        &&& self.nsyms == self.symbol_table.len()
        &&& self.nrels == self.relocations.len()
    }
}

impl ObjectOut {
    /// The image without segments.
    pub fn new() -> (out: ObjectOut)
        ensures
            out@ == out_empty(),
            out@.wf(),
    {
        let out = ObjectOut {
            nsegs: 0,
            nsyms: 0,
            nrels: 0,
            segments: SegMap::new(),
            symbol_table: Vec::new(),
            object_data: SegMap::new(),
            relocations: Vec::new(),
        };
        assert(deep(out.symbol_table@) =~= Seq::<SymbolView>::empty());
        assert(out.relocations@ =~= Seq::<Relocation>::empty());
        out
    }
}

impl Default for ObjectOut {
    fn default() -> (out: Self)
        ensures
            out@ == out_empty(),
    {
        Self::new()
    }
}


/// The segment names in the order in which an image lists them.
pub open spec fn listing_order() -> Seq<SegmentName> {
    seq![SegmentName::TEXT, SegmentName::GOT, SegmentName::DATA, SegmentName::BSS]
}

/// The lines of the first `n` segments that the image has, in the order of the names.
pub open spec fn segment_lines(out: OutView, n: int) -> Seq<Seq<char>>
    decreases n,
{
    if n <= 0 {
        Seq::empty()
    } else {
        match out.segments.at(listing_order()[n - 1]) {
            Some(seg) => segment_lines(out, n - 1).push(segment_line(seg)),
            None => segment_lines(out, n - 1),
        }
    }
}

/// The lines of the data of the first `n` segments that the image has, in
/// the order of the names.
pub open spec fn data_lines(out: OutView, n: int) -> Seq<Seq<char>>
    decreases n,
{
    if n <= 0 {
        Seq::empty()
    } else {
        match (out.segments.at(listing_order()[n - 1]), out.object_data.at(listing_order()[n - 1])) {
            (Some(seg), Some(d)) => data_lines(out, n - 1).push(data_line(d)),
            _ => data_lines(out, n - 1),
        }
    }
}

/// The lines of an image: the magic line, the header, the symbols, the
/// segments, and the data of each segment.
pub open spec fn out_lines(out: OutView) -> Seq<Seq<char>> {
    seq![MAGIC_NUMBER@, header_line(out.nsegs, out.nsyms, out.nrels)] + out.symbol_table.map_values(
        |s: SymbolView| symbol_line(s),
    ) + segment_lines(out, 4) + data_lines(out, 4)
}

/// The text of an image.
pub open spec fn out_text(out: OutView) -> Seq<char> {
    join_lines(out_lines(out))
}

impl ObjectOut {
    /// The text of the image.
    pub fn ppr(&self) -> (s: String)
        ensures
            s@ == out_text(self@),
    {
        let ghost o = self@;
        let mut lines: Vec<Vec<char>> = Vec::new();
        let mut magic: Vec<char> = Vec::new();
        push_str(&mut magic, MAGIC_NUMBER);
        assert(magic@ =~= MAGIC_NUMBER@);
        lines.push(magic);
        let header = header_chars(self.nsegs, self.nsyms, self.nrels);
        lines.push(header);
        let ghost l0 = seq![MAGIC_NUMBER@, header_line(o.nsegs, o.nsyms, o.nrels)];
        assert(views(lines@) =~= l0);
        let mut k: usize = 0;
        while k < self.symbol_table.len()
            invariant
                k <= self.symbol_table@.len(),
                o == self@,
                views(lines@) =~= l0 + o.symbol_table.take(k as int).map_values(
                    |s: SymbolView| symbol_line(s),
                ),
            decreases self.symbol_table@.len() - k,
        {
            let line = symbol_chars(&self.symbol_table[k]);
            proof {
                lemma_views_push(lines@, line);
                assert(o.symbol_table.take(k + 1).map_values(|s: SymbolView| symbol_line(s))
                    =~= o.symbol_table.take(k as int).map_values(
                    |s: SymbolView| symbol_line(s),
                ).push(symbol_line(o.symbol_table[k as int])));
            }
            lines.push(line);
            k += 1;
        }
        assert(o.symbol_table.take(o.symbol_table.len() as int) =~= o.symbol_table);
        let ghost l1 = l0 + o.symbol_table.map_values(|s: SymbolView| symbol_line(s));
        let order = SegmentName::order();
        assert(order@ =~= listing_order());
        let mut k: usize = 0;
        assert(l1 + segment_lines(o, 0) =~= l1);
        while k < 4
            invariant
                k <= 4,
                o == self@,
                order@ == listing_order(),
                views(lines@) == l1 + segment_lines(o, k as int),
            decreases 4 - k,
        {
            proof {
                crate::types::segment_map::lemma_segmap_at_view(self.segments, order@[k as int]);
            }
            match self.segments.get(&order[k]) {
                None => {},
                Some(seg) => {
                    let line = segment_chars(seg);
                    proof {
                        lemma_views_push(lines@, line);
                        assert(l1 + segment_lines(o, k + 1) =~= (l1 + segment_lines(
                            o,
                            k as int,
                        )).push(segment_line(seg@)));
                    }
                    lines.push(line);
                },
            }
            k += 1;
        }
        let ghost l2 = l1 + segment_lines(o, 4);
        let mut k: usize = 0;
        assert(l2 + data_lines(o, 0) =~= l2);
        while k < 4
            invariant
                k <= 4,
                o == self@,
                order@ == listing_order(),
                views(lines@) == l2 + data_lines(o, k as int),
            decreases 4 - k,
        {
            proof {
                crate::types::segment_map::lemma_segmap_at_view(self.segments, order@[k as int]);
                crate::types::segment_map::lemma_segmap_at_view(self.object_data, order@[k as int]);
            }
            if self.segments.contains_key(&order[k]) {
                match self.object_data.get(&order[k]) {
                    None => {},
                    Some(d) => {
                        let line = data_chars(d);
                        proof {
                            lemma_views_push(lines@, line);
                            assert(l2 + data_lines(o, k + 1) =~= (l2 + data_lines(
                                o,
                                k as int,
                            )).push(data_line(d@)));
                        }
                        lines.push(line);
                    },
                }
            }
            k += 1;
        }
        let text = join_with(&lines, '\n');
        assert(text@.subrange(0, text@.len() as int) =~= text@);
        string_of(text.as_slice(), 0, text.len())
    }
}

} // verus!
