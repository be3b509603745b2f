//! Segment layout: where the segments of the image start, the global offset
//! table, and the common blocks.

use crate::linker::state::{LinkState, Work};
use crate::table::{Table, TableModel};
use crate::types::errors::LinkError;
use crate::types::out::{ObjectOut, OutView};
use crate::types::segment::{Segment, SegmentData, SegmentName, SegmentView};
use crate::types::segment_map::SegMap;
use crate::utils::{align_up, align_wide, lemma_align_up};
use vstd::prelude::*;

verus! {

/// The options of a link that the layout depends on.
pub struct Config {
    pub text_start: i32,
    pub data_start_boundary: i32,
    pub bss_start_boundary: i32,
}

impl Config {
    /// The boundaries are not negative.
    pub open spec fn wf(self) -> bool {
        self.data_start_boundary >= 0 && self.bss_start_boundary >= 0
    }
}

/// Whether a number fits a signed 32-bit integer.
pub open spec fn fits_i32(x: int) -> bool {
    i32::MIN <= x <= i32::MAX
}

/// The length of a segment of the image; 0 where there is none.
pub open spec fn len_of(out: OutView, name: SegmentName) -> int {
    match out.segments.at(name) {
        Some(s) => s.segment_len as int,
        None => 0,
    }
}

/// Where the segments start.
pub struct Starts {
    pub text: int,
    pub got: int,
    pub data: int,
    pub bss: int,
    pub end: int,
}

/// Where the segments of an image start: `.text` at the configured address,
/// the global offset table right after it, `.data` at the next multiple of
/// its boundary, `.bss` at the next multiple of its boundary after `.data`.
pub open spec fn starts_of(out: OutView, cfg: Config, got_size: int) -> Starts {
    let text = cfg.text_start as int;
    let got = text + len_of(out, SegmentName::TEXT);
    let data = align_up(got + got_size, cfg.data_start_boundary as int);
    let bss = align_up(data + len_of(out, SegmentName::DATA), cfg.bss_start_boundary as int);
    Starts { text, got, data, bss, end: bss + len_of(out, SegmentName::BSS) }
}

/// Whether every address of a layout fits 32 bits.
pub open spec fn starts_fit(st: Starts, got_size: int) -> bool {
    fits_i32(st.text) && fits_i32(st.got) && fits_i32(st.got + got_size) && fits_i32(st.data)
        && fits_i32(st.bss) && fits_i32(st.end)
}

/// The offsets of a module with that of one segment moved by `by`.
pub open spec fn shift_one(m: SegMap<i32>, name: SegmentName, by: int) -> SegMap<i32> {
    match m.at(name) {
        Some(off) => m.put(name, (off + by) as i32),
        None => m,
    }
}

/// Whether the offset of a segment still fits 32 bits when moved by `by`.
pub open spec fn shift_fits(m: SegMap<i32>, name: SegmentName, by: int) -> bool {
    match m.at(name) {
        Some(off) => fits_i32(off + by),
        None => true,
    }
}

/// Whether every module's offset of a segment fits 32 bits when moved by `by`.
pub open spec fn shifts_fit(values: Seq<SegMap<i32>>, name: SegmentName, by: int) -> bool {
    forall|i: int| 0 <= i < values.len() ==> shift_fits(#[trigger] values[i], name, by)
}

/// Every module's offset of a segment moved by `by`.
pub open spec fn shift_all(values: Seq<SegMap<i32>>, name: SegmentName, by: int) -> Seq<
    SegMap<i32>,
> {
    values.map_values(|m: SegMap<i32>| shift_one(m, name, by))
}

/// A segment with its start set.
pub open spec fn started(s: Option<SegmentView>, start: int) -> Option<SegmentView> {
    match s {
        Some(seg) => Some(SegmentView { segment_start: start as i32, ..seg }),
        None => None,
    }
}

/// `n` zero bytes.
pub open spec fn zeros(n: int) -> Seq<u8> {
    Seq::new(n as nat, |i: int| 0u8)
}

/// The segment of the global offset table.
pub open spec fn got_segment(start: int, size: int) -> SegmentView {
    SegmentView {
        segment_name: SegmentName::GOT,
        segment_start: start as i32,
        segment_len: size as i32,
        segment_descr: Seq::empty(),
    }
}

/// The image with its segments placed, and with a global offset table of
/// `got_size` zero bytes if that is not 0.
pub open spec fn placed_out(out: OutView, st: Starts, got_size: int) -> OutView {
    let segments = SegMap {
        text: started(out.segments.text, st.text),
        got: if got_size != 0 {
            Some(got_segment(st.got, got_size))
        } else {
            out.segments.got
        },
        data: started(out.segments.data, st.data),
        bss: started(out.segments.bss, st.bss),
    };
    OutView {
        nsegs: if got_size != 0 && out.segments.got is None {
            (out.nsegs + 1) as i32
        } else {
            out.nsegs
        },
        segments,
        object_data: if got_size != 0 {
            out.object_data.put(SegmentName::GOT, zeros(got_size))
        } else {
            out.object_data
        },
        ..out
    }
}

/// The offsets of the modules turned into addresses.
pub open spec fn placed_offsets(values: Seq<SegMap<i32>>, st: Starts) -> Seq<SegMap<i32>> {
    shift_all(
        shift_all(shift_all(values, SegmentName::TEXT, st.text), SegmentName::DATA, st.data),
        SegmentName::BSS,
        st.bss,
    )
}

/// Whether the offsets of the modules fit 32 bits as addresses.
pub open spec fn offsets_fit(values: Seq<SegMap<i32>>, st: Starts) -> bool {
    shifts_fit(values, SegmentName::TEXT, st.text) && shifts_fit(
        values,
        SegmentName::DATA,
        st.data,
    ) && shifts_fit(values, SegmentName::BSS, st.bss)
}

/// The session after layout: the segments are placed and the offsets of the
/// modules are addresses. An address beyond 32 bits is an error, and so is a
/// global offset table that a module brought along.
pub open spec fn place(s: LinkState, cfg: Config) -> Result<LinkState, LinkError> {
    let st = starts_of(s.out, cfg, s.got_size);
    if s.out.segments.got is Some {
        Err(LinkError::UnexpectedLinkError)
    } else if !starts_fit(st, s.got_size) || !offsets_fit(s.info.segment_mapping.values, st) {
        Err(LinkError::IntOverflowError)
    } else {
        Ok(
            LinkState {
                out: placed_out(s.out, st, s.got_size),
                info: crate::linker::state::InfoView {
                    segment_mapping: TableModel {
                        keys: s.info.segment_mapping.keys,
                        values: placed_offsets(s.info.segment_mapping.values, st),
                    },
                    ..s.info
                },
                ..s
            },
        )
    }
}

fn seg_len(out: &ObjectOut, name: SegmentName) -> (n: i32)
    ensures
        n == len_of(out@, name),
{
    match out.segments.get(&name) {
        Some(s) => s.segment_len,
        None => 0,
    }
}

fn in_i32(x: i64) -> (b: bool)
    ensures
        b == fits_i32(x as int),
{
    -0x8000_0000 <= x && x <= 0x7FFF_FFFF
}

/// Whether every module's offset of a segment fits 32 bits when moved by `by`.
fn shifts_ok(t: &Table<String, SegMap<i32>>, name: SegmentName, by: i32) -> (b: bool)
    ensures
        b == shifts_fit(t.deep_view().values, name, by as int),
{
    let ghost v = t.deep_view().values;
    let mut k: usize = 0;
    while k < t.values.len()
        invariant
            k <= t.values@.len(),
            v == t.deep_view().values,
            forall|j: int| 0 <= j < k ==> shift_fits(#[trigger] v[j], name, by as int),
        decreases t.values@.len() - k,
    {
        assert(t.values@[k as int].deep_view() == v[k as int]);
        match t.values[k].get(&name) {
            None => {},
            Some(off) => {
                if !in_i32(*off as i64 + by as i64) {
                    assert(!shift_fits(v[k as int], name, by as int));
                    return false;
                }
            },
        }
        k += 1;
    }
    true
}

/// Moves every module's offset of a segment by `by`.
fn shift(t: &mut Table<String, SegMap<i32>>, name: SegmentName, by: i32)
    requires
        shifts_fit(old(t).deep_view().values, name, by as int),
    ensures
        final(t).deep_view().values == shift_all(old(t).deep_view().values, name, by as int),
        final(t).deep_view().keys == old(t).deep_view().keys,
{
    let ghost v0 = t.deep_view().values;
    let ghost k0 = t.deep_view().keys;
    let mut k: usize = 0;
    while k < t.values.len()
        invariant
            k <= t.values@.len(),
            t.values@.len() == v0.len(),
            v0 == old(t).deep_view().values,
            shifts_fit(v0, name, by as int),
            t.deep_view().keys == k0,
            k0 == old(t).deep_view().keys,
            forall|j: int|
                0 <= j < k ==> (#[trigger] t.deep_view().values[j]) == shift_one(
                    v0[j],
                    name,
                    by as int,
                ),
            forall|j: int| k <= j < v0.len() ==> (#[trigger] t.deep_view().values[j]) == v0[j],
        decreases t.values@.len() - k,
    {
        let ghost before = t.deep_view().values;
        assert(before[k as int] == v0[k as int]);
        assert(t.values@[k as int].deep_view() == before[k as int]);
        assert(shift_fits(v0[k as int], name, by as int));
        let m = &t.values[k];
        let moved: Option<SegMap<i32>> = match m.get(&name) {
            None => None,
            Some(off) => {
                let sum: i64 = *off as i64 + by as i64;
                let mut copy = SegMap { text: m.text, got: m.got, data: m.data, bss: m.bss };
                copy.insert(name, sum as i32);
                Some(copy)
            },
        };
        match moved {
            None => {},
            Some(copy) => {
                t.values.set(k, copy);
            },
        }
        proof {
            assert(t.deep_view().values[k as int] == shift_one(v0[k as int], name, by as int));
            assert forall|j: int| 0 <= j < k implies (#[trigger] t.deep_view().values[j])
                == shift_one(v0[j], name, by as int) by {
                assert(t.deep_view().values[j] == before[j]);
            }
            assert forall|j: int| k + 1 <= j < v0.len() implies (
            #[trigger] t.deep_view().values[j]) == v0[j] by {
                assert(t.deep_view().values[j] == before[j]);
            }
            assert(t.deep_view().keys =~= k0);
        }
        k += 1;
    }
    assert(t.deep_view().values =~= shift_all(v0, name, by as int));
}

/// Sets the start of a segment of the image, if the image has it.
fn set_start(out: &mut ObjectOut, name: SegmentName, start: i32)
    ensures
        final(out)@ == (OutView {
            segments: match name {
                SegmentName::TEXT => SegMap {
                    text: started(old(out)@.segments.text, start as int),
                    ..old(out)@.segments
                },
                SegmentName::GOT => SegMap {
                    got: started(old(out)@.segments.got, start as int),
                    ..old(out)@.segments
                },
                SegmentName::DATA => SegMap {
                    data: started(old(out)@.segments.data, start as int),
                    ..old(out)@.segments
                },
                SegmentName::BSS => SegMap {
                    bss: started(old(out)@.segments.bss, start as int),
                    ..old(out)@.segments
                },
            },
            ..old(out)@
        }),
{
    match out.segments.take(name) {
        None => {},
        Some(seg) => {
            let moved = Segment {
                segment_name: seg.segment_name,
                segment_start: start,
                segment_len: seg.segment_len,
                segment_descr: seg.segment_descr,
            };
            out.segments.insert(name, moved);
        },
    }
}

/// Places the segments of the image and turns the offsets of the modules into addresses.
pub fn patch_segment_offsets(w: &mut Work, cfg: &Config) -> (r: Result<i32, LinkError>)
    requires
        old(w)@.wf(),
        cfg.wf(),
    ensures
        match r {
            Ok(bss_start) => place(old(w)@, *cfg) == Ok::<LinkState, LinkError>(final(w)@)
                && bss_start == starts_of(old(w)@.out, *cfg, old(w)@.got_size).bss,
            Err(e) => place(old(w)@, *cfg) == Err::<LinkState, LinkError>(e) && final(w)@
                == old(w)@,
        },
{
    let ghost s = w@;
    let ghost st = starts_of(s.out, *cfg, s.got_size);
    if w.out.segments.contains_key(&SegmentName::GOT) {
        proof {
            crate::types::segment_map::lemma_segmap_at_view(w.out.segments, SegmentName::GOT);
        }
        return Err(LinkError::UnexpectedLinkError);
    }
    proof {
        crate::types::segment_map::lemma_segmap_at_view(w.out.segments, SegmentName::GOT);
    }
    let text: i64 = cfg.text_start as i64;
    let got: i64 = text + seg_len(&w.out, SegmentName::TEXT) as i64;
    let got_end: i64 = got + w.got_size as i64;
    let data: i64 = align_wide(got_end, cfg.data_start_boundary as i64);
    proof {
        lemma_align_up(got_end as int, cfg.data_start_boundary as int);
    }
    let data_end: i64 = data + seg_len(&w.out, SegmentName::DATA) as i64;
    let bss: i64 = align_wide(data_end, cfg.bss_start_boundary as i64);
    proof {
        lemma_align_up(data_end as int, cfg.bss_start_boundary as int);
    }
    let end: i64 = bss + seg_len(&w.out, SegmentName::BSS) as i64;
    if !in_i32(got) || !in_i32(got_end) || !in_i32(data) || !in_i32(bss) || !in_i32(end) {
        return Err(LinkError::IntOverflowError);
    }
    // nothing is changed unless every address fits
    if !shifts_ok(&w.info.segment_mapping, SegmentName::TEXT, text as i32) || !shifts_ok(
        &w.info.segment_mapping,
        SegmentName::DATA,
        data as i32,
    ) || !shifts_ok(&w.info.segment_mapping, SegmentName::BSS, bss as i32) {
        return Err(LinkError::IntOverflowError);
    }
    proof {
        lemma_shift_other(
            s.info.segment_mapping.values,
            SegmentName::TEXT,
            st.text,
            SegmentName::DATA,
            st.data,
        );
        lemma_shift_other(
            s.info.segment_mapping.values,
            SegmentName::TEXT,
            st.text,
            SegmentName::BSS,
            st.bss,
        );
        lemma_shift_other(
            shift_all(s.info.segment_mapping.values, SegmentName::TEXT, st.text),
            SegmentName::DATA,
            st.data,
            SegmentName::BSS,
            st.bss,
        );
    }
    shift(&mut w.info.segment_mapping, SegmentName::TEXT, text as i32);
    shift(&mut w.info.segment_mapping, SegmentName::DATA, data as i32);
    shift(&mut w.info.segment_mapping, SegmentName::BSS, bss as i32);
    set_start(&mut w.out, SegmentName::TEXT, text as i32);
    set_start(&mut w.out, SegmentName::DATA, data as i32);
    set_start(&mut w.out, SegmentName::BSS, bss as i32);
    if w.got_size != 0 {
        let had = w.out.segments.contains_key(&SegmentName::GOT);
        let mut table = Segment::new(SegmentName::GOT);
        table.segment_start = got as i32;
        table.segment_len = w.got_size;
        w.out.segments.insert(SegmentName::GOT, table);
        w.out.object_data.insert(SegmentName::GOT, SegmentData::new(w.got_size as usize));
        if !had {
            assert(s.out.nsegs == s.out.segments.count());
            w.out.nsegs = w.out.nsegs + 1;
        }
    }
    assert(w@.out.segments == placed_out(s.out, st, s.got_size).segments);
    Ok(bss as i32)
}

/// Moving the offsets of one segment leaves alone whether those of another fit.
pub proof fn lemma_shift_other(
    values: Seq<SegMap<i32>>,
    a: SegmentName,
    by: int,
    b: SegmentName,
    by2: int,
)
    requires
        a != b,
    ensures
        shifts_fit(shift_all(values, a, by), b, by2) == shifts_fit(values, b, by2),
{
    let moved = shift_all(values, a, by);
    if shifts_fit(values, b, by2) {
        assert forall|i: int| 0 <= i < moved.len() implies shift_fits(
            #[trigger] moved[i],
            b,
            by2,
        ) by {
            assert(shift_fits(values[i], b, by2));
        }
    }
    if shifts_fit(moved, b, by2) {
        assert forall|i: int| 0 <= i < values.len() implies shift_fits(
            #[trigger] values[i],
            b,
            by2,
        ) by {
            assert(shift_fits(moved[i], b, by2));
        }
    }
}


/// The sum of the first `n` sizes.
pub open spec fn total(sizes: Seq<i32>, n: int) -> int
    decreases n,
{
    if n <= 0 {
        0
    } else {
        total(sizes, n - 1) + sizes[n - 1]
    }
}

/// The image with `.bss` made longer by `c` zero bytes; without `.bss` it
/// gets one of that length at `bss_start`.
pub open spec fn extended_out(out: OutView, c: int, bss_start: i32) -> OutView {
    match out.segments.bss {
        Some(seg) => OutView {
            segments: SegMap {
                bss: Some(SegmentView { segment_len: (seg.segment_len + c) as i32, ..seg }),
                ..out.segments
            },
            object_data: SegMap {
                bss: Some(
                    (match out.object_data.bss {
                        Some(d) => d,
                        None => Seq::empty(),
                    }) + zeros(c),
                ),
                ..out.object_data
            },
            ..out
        },
        None => OutView {
            nsegs: (out.nsegs + 1) as i32,
            segments: SegMap {
                bss: Some(
                    SegmentView {
                        segment_name: SegmentName::BSS,
                        segment_start: bss_start,
                        segment_len: c as i32,
                        segment_descr: Seq::empty(),
                    },
                ),
                ..out.segments
            },
            object_data: SegMap {
                bss: Some(
                    (match out.object_data.bss {
                        Some(d) => d,
                        None => Seq::empty(),
                    }) + zeros(c),
                ),
                ..out.object_data
            },
            ..out
        },
    }
}

/// The session after the common blocks got their room: where the sizes of
/// the common blocks add up to more than 0, `.bss` grows by that sum.
pub open spec fn allocate_commons(s: LinkState, bss_start: i32) -> Result<LinkState, LinkError> {
    let sizes = s.info.common_block_mapping.values;
    let c = total(sizes, sizes.len() as int);
    if c <= 0 {
        Ok(s)
    } else if !fits_i32(len_of(s.out, SegmentName::BSS) + c) || s.out.nsegs >= i32::MAX {
        Err(LinkError::IntOverflowError)
    } else {
        Ok(LinkState { out: extended_out(s.out, c, bss_start), ..s })
    }
}

/// The sum of `n` sizes lies within `n` times the range of a size.
pub proof fn lemma_total_bounds(sizes: Seq<i32>, n: int)
    requires
        0 <= n,
    ensures
        -0x8000_0000 * n <= total(sizes, n) <= 0x7FFF_FFFF * n,
    decreases n,
{
    if n > 0 {
        lemma_total_bounds(sizes, n - 1);
    }
}

/// Gives the common blocks their room at the end of `.bss`.
pub fn common_block_allocation(w: &mut Work, bss_start: i32) -> (r: Result<(), LinkError>)
    requires
        old(w)@.wf(),
    ensures
        match r {
            Ok(()) => allocate_commons(old(w)@, bss_start) == Ok::<LinkState, LinkError>(
                final(w)@,
            ),
            Err(e) => allocate_commons(old(w)@, bss_start) == Err::<LinkState, LinkError>(e)
                && final(w)@ == old(w)@,
        },
{
    let ghost s = w@;
    let ghost sizes = s.info.common_block_mapping.values;
    let mut sum: i128 = 0;
    let mut k: usize = 0;
    while k < w.info.common_block_mapping.values.len()
        invariant
            k <= w.info.common_block_mapping.values@.len(),
            sizes == w.info.common_block_mapping.deep_view().values,
            sum == total(sizes, k as int),
            -0x8000_0000 * k <= sum <= 0x7FFF_FFFF * k,
        decreases w.info.common_block_mapping.values@.len() - k,
    {
        assert(sizes[k as int] == w.info.common_block_mapping.values@[k as int]);
        sum = sum + w.info.common_block_mapping.values[k] as i128;
        k += 1;
    }
    if sum <= 0 {
        return Ok(());
    }
    let len = seg_len(&w.out, SegmentName::BSS);
    if sum + len as i128 > 0x7FFF_FFFF || w.out.nsegs >= i32::MAX {
        return Err(LinkError::IntOverflowError);
    }
    let c: i32 = sum as i32;
    let room = SegmentData::new(c as usize);
    let data = match w.out.object_data.take(SegmentName::BSS) {
        Some(d) => d.concat(&room),
        None => room,
    };
    assert(data@ =~= (match s.out.object_data.bss {
        Some(d) => d,
        None => Seq::empty(),
    }) + zeros(c as int));
    w.out.object_data.insert(SegmentName::BSS, data);
    match w.out.segments.take(SegmentName::BSS) {
        Some(seg) => {
            let grown = Segment {
                segment_name: seg.segment_name,
                segment_start: seg.segment_start,
                segment_len: seg.segment_len + c,
                segment_descr: seg.segment_descr,
            };
            w.out.segments.insert(SegmentName::BSS, grown);
        },
        None => {
            let mut seg = Segment::new(SegmentName::BSS);
            seg.segment_start = bss_start;
            seg.segment_len = c;
            w.out.segments.insert(SegmentName::BSS, seg);
            w.out.nsegs = w.out.nsegs + 1;
        },
    }
    assert(w@.out.segments == extended_out(s.out, c as int, bss_start).segments);
    assert(w@.out.object_data == extended_out(s.out, c as int, bss_start).object_data);
    Ok(())
}


/// Whether the segments of an image stand where the layout puts them.
pub open spec fn laid_out(out: OutView, cfg: Config) -> bool {
    let st = starts_of(out, cfg, len_of(out, SegmentName::GOT));
    &&& out.segments.text is Some ==> out.segments.text->0.segment_start == st.text
    &&& out.segments.got is Some ==> out.segments.got->0.segment_start == st.got
    &&& out.segments.data is Some ==> out.segments.data->0.segment_start == st.data
    &&& out.segments.bss is Some ==> out.segments.bss->0.segment_start == st.bss
}

/// Layout keeps the session well formed and puts the segments in their places.
pub proof fn lemma_place(s: LinkState, cfg: Config)
    requires
        s.wf(),
        cfg.wf(),
        place(s, cfg) is Ok,
    ensures
        place(s, cfg)->Ok_0.wf(),
        laid_out(place(s, cfg)->Ok_0.out, cfg),
        starts_of(place(s, cfg)->Ok_0.out, cfg, len_of(place(s, cfg)->Ok_0.out, SegmentName::GOT))
            == starts_of(s.out, cfg, s.got_size),
{
    let t = place(s, cfg)->Ok_0;
    let st = starts_of(s.out, cfg, s.got_size);
    assert(s.out.segment_ok(SegmentName::TEXT));
    assert(s.out.segment_ok(SegmentName::GOT));
    assert(s.out.segment_ok(SegmentName::DATA));
    assert(s.out.segment_ok(SegmentName::BSS));
    assert(t.out.segment_ok(SegmentName::TEXT));
    assert(t.out.segment_ok(SegmentName::GOT));
    assert(t.out.segment_ok(SegmentName::DATA));
    assert(t.out.segment_ok(SegmentName::BSS));
    assert(len_of(t.out, SegmentName::TEXT) == len_of(s.out, SegmentName::TEXT));
    assert(len_of(t.out, SegmentName::DATA) == len_of(s.out, SegmentName::DATA));
    assert(len_of(t.out, SegmentName::BSS) == len_of(s.out, SegmentName::BSS));
    assert(len_of(t.out, SegmentName::GOT) == s.got_size);
}

/// Room for the common blocks keeps the session well formed and the segments in their places.
pub proof fn lemma_commons(s: LinkState, cfg: Config, bss_start: i32)
    requires
        s.wf(),
        laid_out(s.out, cfg),
        bss_start == starts_of(s.out, cfg, len_of(s.out, SegmentName::GOT)).bss,
        allocate_commons(s, bss_start) is Ok,
    ensures
        allocate_commons(s, bss_start)->Ok_0.wf(),
        laid_out(allocate_commons(s, bss_start)->Ok_0.out, cfg),
{
    let t = allocate_commons(s, bss_start)->Ok_0;
    assert(s.out.segment_ok(SegmentName::TEXT));
    assert(s.out.segment_ok(SegmentName::GOT));
    assert(s.out.segment_ok(SegmentName::DATA));
    assert(s.out.segment_ok(SegmentName::BSS));
    assert(t.out.segment_ok(SegmentName::TEXT));
    assert(t.out.segment_ok(SegmentName::GOT));
    assert(t.out.segment_ok(SegmentName::DATA));
    assert(t.out.segment_ok(SegmentName::BSS));
    assert(len_of(t.out, SegmentName::TEXT) == len_of(s.out, SegmentName::TEXT));
    assert(len_of(t.out, SegmentName::DATA) == len_of(s.out, SegmentName::DATA));
    assert(len_of(t.out, SegmentName::GOT) == len_of(s.out, SegmentName::GOT));
}

/// The end of a segment of the image; `at` where there is no such segment.
pub open spec fn end_of(out: OutView, name: SegmentName, at: int) -> int {
    match out.segments.at(name) {
        Some(s) => s.segment_start + s.segment_len,
        None => at,
    }
}

/// In an image that is laid out, the text starts at the configured address
/// and the global offset table at the end of the text; the data starts at
/// or after the end of what comes before it, and the segment of
/// uninitialised data at or after the end of the data; each of the two
/// starts on a multiple of its boundary and less than one boundary after
/// what comes before it. So the segments start in the order `.text`,
/// `.got`, `.data`, `.bss`, and a segment that is not empty starts before
/// the next.
pub proof fn lemma_layout_order(out: OutView, cfg: Config)
    requires
        out.segments_wf(),
        cfg.wf(),
        laid_out(out, cfg),
    ensures
        out.segments.text is Some ==> out.segments.text->0.segment_start == cfg.text_start,
        out.segments.got is Some ==> out.segments.got->0.segment_start == end_of(
            out,
            SegmentName::TEXT,
            cfg.text_start as int,
        ),
        out.segments.data is Some ==> {
            let before = end_of(
                out,
                SegmentName::GOT,
                end_of(out, SegmentName::TEXT, cfg.text_start as int),
            );
            let start = out.segments.data->0.segment_start as int;
            &&& start >= before
            &&& cfg.data_start_boundary > 0 ==> start % (cfg.data_start_boundary as int) == 0
                && start - before < cfg.data_start_boundary
            &&& cfg.data_start_boundary == 0 ==> start == before
        },
        out.segments.bss is Some && out.segments.data is Some ==> {
            let before = end_of(out, SegmentName::DATA, 0);
            let start = out.segments.bss->0.segment_start as int;
            &&& start >= before
            &&& cfg.bss_start_boundary > 0 ==> start % (cfg.bss_start_boundary as int) == 0
                && start - before < cfg.bss_start_boundary
            &&& cfg.bss_start_boundary == 0 ==> start == before
        },
        out.segments.text is Some && out.segments.got is Some ==> out.segments.text->0.segment_start
            <= out.segments.got->0.segment_start,
        out.segments.text is Some && out.segments.data is Some ==> out.segments.text->0.segment_start
            <= out.segments.data->0.segment_start,
        out.segments.got is Some && out.segments.data is Some ==> out.segments.got->0.segment_start
            <= out.segments.data->0.segment_start,
        out.segments.data is Some && out.segments.bss is Some ==> out.segments.data->0.segment_start
            <= out.segments.bss->0.segment_start,
        out.segments.text is Some && out.segments.bss is Some ==> out.segments.text->0.segment_start
            <= out.segments.bss->0.segment_start,
        out.segments.text is Some && out.segments.got is Some
            && out.segments.text->0.segment_len > 0 ==> out.segments.text->0.segment_start
            < out.segments.got->0.segment_start,
        out.segments.got is Some && out.segments.data is Some
            && out.segments.got->0.segment_len > 0 ==> out.segments.got->0.segment_start
            < out.segments.data->0.segment_start,
        out.segments.text is Some && out.segments.data is Some
            && out.segments.text->0.segment_len > 0 ==> out.segments.text->0.segment_start
            < out.segments.data->0.segment_start,
        out.segments.data is Some && out.segments.bss is Some
            && out.segments.data->0.segment_len > 0 ==> out.segments.data->0.segment_start
            < out.segments.bss->0.segment_start,
{
    let st = starts_of(out, cfg, len_of(out, SegmentName::GOT));
    assert(out.segment_ok(SegmentName::TEXT));
    assert(out.segment_ok(SegmentName::GOT));
    assert(out.segment_ok(SegmentName::DATA));
    assert(out.segment_ok(SegmentName::BSS));
    lemma_align_up(st.got + len_of(out, SegmentName::GOT), cfg.data_start_boundary as int);
    lemma_align_up(st.data + len_of(out, SegmentName::DATA), cfg.bss_start_boundary as int);
}

} // verus!
