//! Relocation: patching the data of the image.

use crate::linker::layout::fits_i32;
use crate::linker::state::{GlobalEntryView, LinkState, SessionView, Work};
use crate::table::{table_get, TableModel};
use crate::types::errors::LinkError;
use crate::types::out::{ObjectOut, OutView};
use crate::types::relocation::{RelRef, RelType, Relocation};
use crate::types::segment::{patched, SegmentName, SegmentView};
use crate::types::segment_map::{lemma_segmap_at_view, lemma_segmap_put_view, SegMap};
use crate::types::symbol_table::{SymbolId, SymbolName};
use crate::utils::{addr4, decode4, int4, lemma_be_bytes4, mk_addr_4, mk_i_4, x_to_i4};
use vstd::prelude::*;

verus! {

/// What relocation changes: the data of the segments, the relocations left
/// for the loader, and the next free place of the global offset table.
pub struct Patch {
    pub data: SegMap<Seq<u8>>,
    pub relocs: Seq<Relocation>,
    pub got_cursor: int,
}

/// What relocation reads and leaves alone: the modules, the segments of the
/// image, the addresses of the segments of each module, the global symbol
/// table, and the start of the text.
pub struct Frame {
    pub session: SessionView,
    pub segments: SegMap<SegmentView>,
    pub mapping: TableModel<Seq<char>, SegMap<i32>>,
    pub global: TableModel<SymbolId, GlobalEntryView>,
    pub text_start: i32,
}

/// The frame of a session.
pub open spec fn frame_of(s: LinkState, text_start: i32) -> Frame {
    Frame {
        session: s.session,
        segments: s.out.segments,
        mapping: s.info.segment_mapping,
        global: s.info.global_symtable,
        text_start,
    }
}

/// The address of a segment of a module.
pub open spec fn modoff(s: Frame, id: Seq<char>, name: SegmentName) -> Option<i32> {
    match table_get::<String, SegMap<i32>>(s.mapping, id) {
        Some(m) => m.at(name),
        None => None,
    }
}

/// The address at which a segment of the image starts.
pub open spec fn start_of(s: Frame, name: SegmentName) -> Option<i32> {
    match s.segments.at(name) {
        Some(seg) => Some(seg.segment_start),
        None => None,
    }
}

/// The address of a global symbol.
pub open spec fn address_of(s: Frame, sym: SymbolId) -> Option<i32> {
    match table_get::<SymbolName, GlobalEntryView>(s.global, sym) {
        Some(e) => match e.0 {
            Some(d) => d.defn_addr,
            None => None,
        },
        None => None,
    }
}

/// The signed number in the four bytes at `off` of a segment.
pub open spec fn read4(data: SegMap<Seq<u8>>, name: SegmentName, off: int) -> Option<int> {
    match data.at(name) {
        Some(d) => if 0 <= off && off + 4 <= d.len() {
            decode4(d.subrange(off, off + 4))
        } else {
            None
        },
        None => None,
    }
}

/// The data with `bytes` written at `off` of a segment, if they fit there.
pub open spec fn write(data: SegMap<Seq<u8>>, name: SegmentName, off: int, bytes: Seq<u8>)
    -> Option<SegMap<Seq<u8>>> {
    match data.at(name) {
        Some(d) => if 0 <= off && off + bytes.len() <= d.len() {
            Some(data.put(name, patched(d, off, bytes)))
        } else {
            None
        },
        None => None,
    }
}

/// Stores `bytes` at `off` of a segment.
pub open spec fn store(p: Patch, name: SegmentName, off: int, bytes: Seq<u8>) -> Result<
    Patch,
    LinkError,
> {
    match write(p.data, name, off, bytes) {
        None => Err(LinkError::UnexpectedLinkError),
        Some(data) => Ok(Patch { data, ..p }),
    }
}

/// Stores the absolute address `v` at `off` of a segment.
pub open spec fn absolute(p: Patch, name: SegmentName, off: int, v: int) -> Result<
    Patch,
    LinkError,
> {
    match addr4(v) {
        None => Err(LinkError::AddressOverflowError),
        Some(bytes) => store(p, name, off, bytes),
    }
}

/// Stores the signed number `v` at `off` of a segment.
pub open spec fn relative(p: Patch, name: SegmentName, off: int, v: int) -> Result<
    Patch,
    LinkError,
> {
    if !fits_i32(v) {
        Err(LinkError::IntOverflowError)
    } else {
        store(p, name, off, int4(v))
    }
}

/// Leaves a relocation for the loader at `off` of a segment.
pub open spec fn with_er4(p: Patch, name: SegmentName, off: int) -> Patch {
    Patch {
        relocs: p.relocs.push(
            Relocation {
                rel_loc: off as i32,
                rel_seg: name,
                rel_ref: RelRef::NoRef,
                rel_type: RelType::ER4,
            },
        ),
        ..p
    }
}

/// The address of the segment that a relocation of the module at `m` refers to.
pub open spec fn target_segment(s: Frame, m: int, r: Relocation) -> Option<i32> {
    match r.rel_ref {
        RelRef::SegmentRef(i) => if i < s.session.modules[m].segments.len() {
            modoff(s, s.session.ids[m], s.session.modules[m].segments[i as int].segment_name)
        } else {
            None
        },
        _ => None,
    }
}

/// The address of the symbol that a relocation of the module at `m` refers to.
pub open spec fn target_symbol(s: Frame, m: int, r: Relocation) -> Option<i32> {
    match r.rel_ref {
        RelRef::SymbolRef(i) => if i < s.session.modules[m].symbol_table.len() {
            address_of(s, s.session.modules[m].symbol_table[i as int].st_name)
        } else {
            None
        },
        _ => None,
    }
}

/// The effect of a relocation with a segment as its target.
pub open spec fn relocate_segment_ref(
    s: Frame,
    p: Patch,
    m: int,
    r: Relocation,
    loc_addr: int,
    off: int,
) -> Result<Patch, LinkError> {
    match target_segment(s, m, r) {
        None => Err(LinkError::UnexpectedLinkError),
        Some(target) => if r.rel_type == RelType::A4 {
            match absolute(p, r.rel_seg, off, target as int) {
                Err(e) => Err(e),
                Ok(q) => Ok(with_er4(q, r.rel_seg, off)),
            }
        } else {
            match read4(p.data, r.rel_seg, off) {
                None => Err(LinkError::UnexpectedLinkError),
                Some(addend) => if r.rel_type == RelType::R4 {
                    relative(p, r.rel_seg, off, loc_addr + 4 - target + addend)
                } else {
                    match start_of(s, SegmentName::GOT) {
                        None => Err(LinkError::UnexpectedLinkError),
                        Some(got) => relative(p, r.rel_seg, off, target + addend - got),
                    }
                },
            }
        },
    }
}

/// The effect of a relocation with a symbol as its target.
pub open spec fn relocate_symbol_ref(
    s: Frame,
    p: Patch,
    m: int,
    r: Relocation,
    loc_addr: int,
    off: int,
) -> Result<Patch, LinkError> {
    match target_symbol(s, m, r) {
        None => Err(LinkError::UnexpectedLinkError),
        Some(a) => match r.rel_type {
            RelType::AS4 => match read4(p.data, r.rel_seg, off) {
                None => Err(LinkError::UnexpectedLinkError),
                Some(addend) => match absolute(p, r.rel_seg, off, a + addend) {
                    Err(e) => Err(e),
                    Ok(q) => Ok(with_er4(q, r.rel_seg, off)),
                },
            },
            RelType::RS4 => match read4(p.data, r.rel_seg, off) {
                None => Err(LinkError::UnexpectedLinkError),
                Some(addend) => relative(p, r.rel_seg, off, loc_addr + 4 - a + addend),
            },
            RelType::U2 => match addr4(a as int) {
                None => Err(LinkError::AddressOverflowError),
                Some(v) => store(p, r.rel_seg, off, v.subrange(0, 2)),
            },
            RelType::L2 => match addr4(a as int) {
                None => Err(LinkError::AddressOverflowError),
                Some(v) => store(p, r.rel_seg, off, v.subrange(2, 4)),
            },
            _ => match absolute(p, SegmentName::GOT, p.got_cursor, a as int) {
                Err(e) => Err(e),
                Ok(q) => match absolute(q, r.rel_seg, off, p.got_cursor) {
                    Err(e) => Err(e),
                    Ok(t) => Ok(Patch { got_cursor: p.got_cursor + 4, ..t }),
                },
            },
        },
    }
}

/// The effect of a relocation without a target.
pub open spec fn relocate_no_ref(
    s: Frame,
    p: Patch,
    r: Relocation,
    loc_addr: int,
    off: int,
) -> Result<Patch, LinkError> {
    if r.rel_type == RelType::GA4 {
        match start_of(s, SegmentName::GOT) {
            None => Err(LinkError::UnexpectedLinkError),
            Some(got) => absolute(p, r.rel_seg, off, got - loc_addr),
        }
    } else {
        match read4(p.data, r.rel_seg, off) {
            None => Err(LinkError::UnexpectedLinkError),
            Some(addr) => absolute(p, r.rel_seg, off, addr + s.text_start),
        }
    }
}

/// The effect of one relocation of the module at `m`. The location is
/// `rel_loc` bytes into the module's part of the segment `rel_seg`.
///
/// * `A4` stores the address of the target segment and leaves an `ER4` there.
/// * `R4` stores the address after the location, less the address of the
///   target segment, plus the addend found at the location.
/// * `AS4` stores the address of the symbol plus the addend and leaves an `ER4`.
/// * `RS4` stores the address after the location, less the address of the
///   symbol, plus the addend.
/// * `U2` and `L2` store the upper and the lower half of the address of the symbol.
/// * `GA4` stores the distance from the location to the global offset table.
/// * `GP4` stores the address of the symbol in the next free place of the
///   global offset table, and the offset of that place at the location.
/// * `GR4` stores the address of the target segment plus the addend, less
///   the address of the global offset table.
/// * `ER4` stores the address found at the location plus the start of the text.
///
/// An absolute address beyond 32 unsigned bits is an address overflow, a
/// relative one beyond 32 signed bits an integer overflow; a target of the
/// wrong form, a missing address or a location outside the segment is an
/// unexpected error.
pub open spec fn relocate(s: Frame, p: Patch, m: int, r: Relocation) -> Result<Patch, LinkError> {
    match (modoff(s, s.session.ids[m], r.rel_seg), start_of(s, r.rel_seg)) {
        (Some(base), Some(start)) => {
            let loc_addr = base + r.rel_loc;
            let off = loc_addr - start;
            if !r.well_typed() {
                Err(LinkError::UnexpectedLinkError)
            } else if r.rel_type.segment_rel() {
                relocate_segment_ref(s, p, m, r, loc_addr, off)
            } else if r.rel_type.no_rel() {
                relocate_no_ref(s, p, r, loc_addr, off)
            } else {
                relocate_symbol_ref(s, p, m, r, loc_addr, off)
            }
        },
        _ => Err(LinkError::UnexpectedLinkError),
    }
}

/// The effect of the first `n` relocations of the module at `m`, in their order.
pub open spec fn relocate_module(s: Frame, p: Patch, m: int, n: int) -> Result<Patch, LinkError>
    decreases n,
{
    if n <= 0 {
        Ok(p)
    } else {
        match relocate_module(s, p, m, n - 1) {
            Err(e) => Err(e),
            Ok(q) => relocate(s, q, m, s.session.modules[m].relocations[n - 1]),
        }
    }
}

/// The effect of the relocations of the first `m` modules, in the order in
/// which the session took the modules in.
pub open spec fn relocate_modules(s: Frame, p: Patch, m: int) -> Result<Patch, LinkError>
    decreases m,
{
    if m <= 0 {
        Ok(p)
    } else {
        match relocate_modules(s, p, m - 1) {
            Err(e) => Err(e),
            Ok(q) => relocate_module(
                s,
                q,
                m - 1,
                s.session.modules[m - 1].relocations.len() as int,
            ),
        }
    }
}

/// The effect of the first `n` relocations of the module at `m` as far as
/// it goes: what the relocations before the first that fails leave.
pub open spec fn relocate_module_reached(s: Frame, p: Patch, m: int, n: int) -> Patch
    decreases n,
{
    if n <= 0 {
        p
    } else {
        match relocate_module(s, p, m, n - 1) {
            Err(_) => relocate_module_reached(s, p, m, n - 1),
            Ok(q) => match relocate(s, q, m, s.session.modules[m].relocations[n - 1]) {
                Ok(t) => t,
                Err(_) => q,
            },
        }
    }
}

/// The effect of the relocations of the first `m` modules as far as it
/// goes: what the relocations before the first that fails leave.
pub open spec fn relocate_modules_reached(s: Frame, p: Patch, m: int) -> Patch
    decreases m,
{
    if m <= 0 {
        p
    } else {
        match relocate_modules(s, p, m - 1) {
            Err(_) => relocate_modules_reached(s, p, m - 1),
            Ok(q) => relocate_module_reached(
                s,
                q,
                m - 1,
                s.session.modules[m - 1].relocations.len() as int,
            ),
        }
    }
}

/// Relocation of a module that succeeds goes all the way.
pub proof fn lemma_relocate_module_reached_ok(s: Frame, p: Patch, m: int, n: int)
    requires
        relocate_module(s, p, m, n) is Ok,
    ensures
        relocate_module_reached(s, p, m, n) == relocate_module(s, p, m, n)->Ok_0,
{
}

/// Relocation of a module that fails on the first `k` relocations goes no further on more.
pub proof fn lemma_relocate_module_reached_err(s: Frame, p: Patch, m: int, k: int, n: int)
    requires
        k <= n,
        relocate_module(s, p, m, k) is Err,
    ensures
        relocate_module_reached(s, p, m, n) == relocate_module_reached(s, p, m, k),
    decreases n - k,
{
    if k < n {
        lemma_relocate_module_err(s, p, m, k, n - 1);
        lemma_relocate_module_reached_err(s, p, m, k, n - 1);
    }
}

/// Relocation of modules that succeeds goes all the way.
pub proof fn lemma_relocate_modules_reached_ok(s: Frame, p: Patch, m: int)
    requires
        relocate_modules(s, p, m) is Ok,
    ensures
        relocate_modules_reached(s, p, m) == relocate_modules(s, p, m)->Ok_0,
{
    if m > 0 {
        let q = relocate_modules(s, p, m - 1)->Ok_0;
        lemma_relocate_module_reached_ok(
            s,
            q,
            m - 1,
            s.session.modules[m - 1].relocations.len() as int,
        );
    }
}

/// Relocation that fails on the first `k` modules goes no further on more.
pub proof fn lemma_relocate_modules_reached_err(s: Frame, p: Patch, k: int, n: int)
    requires
        k <= n,
        relocate_modules(s, p, k) is Err,
    ensures
        relocate_modules_reached(s, p, n) == relocate_modules_reached(s, p, k),
    decreases n - k,
{
    if k < n {
        lemma_relocate_modules_err(s, p, k, n - 1);
        lemma_relocate_modules_reached_err(s, p, k, n - 1);
    }
}

/// What the session starts relocation with.
pub open spec fn patch_of(s: LinkState, got_cursor: int) -> Patch {
    Patch { data: s.out.object_data, relocs: s.out.relocations, got_cursor }
}

/// The session with the patched data in place.
pub open spec fn with_patch(s: LinkState, p: Patch) -> LinkState {
    LinkState {
        out: OutView { object_data: p.data, relocations: p.relocs, ..s.out },
        ..s
    }
}

/// The session after every relocation of every module was applied.
pub open spec fn relocated(s: LinkState, text_start: i32) -> Result<LinkState, LinkError> {
    match relocate_modules(
        frame_of(s, text_start),
        patch_of(s, 0),
        s.session.modules.len() as int,
    ) {
        Err(e) => Err(e),
        Ok(p) => if p.relocs.len() > i32::MAX {
            Err(LinkError::IntOverflowError)
        } else {
            Ok(
                LinkState {
                    out: OutView {
                        object_data: p.data,
                        relocations: p.relocs,
                        nrels: p.relocs.len() as i32,
                        ..s.out
                    },
                    ..s
                },
            )
        },
    }
}

/// Relocation that fails on the first `k` relocations of a module fails in the same way on more.
pub proof fn lemma_relocate_module_err(s: Frame, p: Patch, m: int, k: int, n: int)
    requires
        k <= n,
        relocate_module(s, p, m, k) is Err,
    ensures
        relocate_module(s, p, m, n) == relocate_module(s, p, m, k),
    decreases n - k,
{
    if k < n {
        lemma_relocate_module_err(s, p, m, k, n - 1);
    }
}

/// Relocation that fails on the first `k` modules fails in the same way on more.
pub proof fn lemma_relocate_modules_err(s: Frame, p: Patch, k: int, n: int)
    requires
        k <= n,
        relocate_modules(s, p, k) is Err,
    ensures
        relocate_modules(s, p, n) == relocate_modules(s, p, k),
    decreases n - k,
{
    if k < n {
        lemma_relocate_modules_err(s, p, k, n - 1);
    }
}


/// Reads the signed number in the four bytes at `off` of a segment.
fn read_addend(out: &ObjectOut, name: SegmentName, off: i64) -> (r: Option<i32>)
    ensures
        match r {
            Some(v) => read4(out@.object_data, name, off as int) == Some(v as int),
            None => read4(out@.object_data, name, off as int) is None,
        },
{
    proof {
        lemma_segmap_at_view(out.object_data, name);
    }
    match out.object_data.get(&name) {
        None => None,
        Some(d) => {
            if off < 0 || d.len() < 4 || off as u64 > (d.len() - 4) as u64 {
                return None;
            }
            match d.get_at(off as usize, 4) {
                None => None,
                Some(bytes) => x_to_i4(bytes),
            }
        },
    }
}

/// Writes `bytes` at `off` of a segment, if they fit there.
fn store_bytes(out: &mut ObjectOut, name: SegmentName, off: i64, bytes: Vec<u8>) -> (ok: bool)
    ensures
        match write(old(out)@.object_data, name, off as int, bytes@) {
            Some(d) => ok && final(out)@ == (OutView { object_data: d, ..old(out)@ }),
            None => !ok && final(out)@ == old(out)@,
        },
{
    proof {
        lemma_segmap_at_view(out.object_data, name);
    }
    let fits = match out.object_data.get(&name) {
        None => false,
        Some(d) => off >= 0 && bytes.len() <= d.len() && off as u64 <= (d.len() - bytes.len())
            as u64,
    };
    if !fits {
        return false;
    }
    match out.object_data.take(name) {
        None => false,
        Some(mut d) => {
            let n = bytes.len();
            d.update(off as usize, n, bytes);
            proof {
                lemma_segmap_put_view(out.object_data, name, d);
            }
            out.object_data.insert(name, d);
            assert(out@.object_data == old(out)@.object_data.put(name, d@));
            true
        },
    }
}

/// Whether `len` bytes fit at `off` of a segment.
pub open spec fn room(data: SegMap<Seq<u8>>, name: SegmentName, off: int, len: int) -> bool {
    match data.at(name) {
        Some(d) => 0 <= off && off + len <= d.len(),
        None => false,
    }
}

/// Whether `len` bytes fit at `off` of a segment.
fn has_room(out: &ObjectOut, name: SegmentName, off: i64, len: usize) -> (b: bool)
    ensures
        b == room(out@.object_data, name, off as int, len as int),
{
    proof {
        lemma_segmap_at_view(out.object_data, name);
    }
    match out.object_data.get(&name) {
        None => false,
        Some(d) => off >= 0 && len <= d.len() && off as u64 <= (d.len() - len) as u64,
    }
}

/// Writing keeps the room of every segment.
pub proof fn lemma_write_room(
    data: SegMap<Seq<u8>>,
    name: SegmentName,
    off: int,
    bytes: Seq<u8>,
    other: SegmentName,
    at: int,
    len: int,
)
    requires
        write(data, name, off, bytes) is Some,
    ensures
        room(write(data, name, off, bytes)->0, other, at, len) == room(data, other, at, len),
{
    let d = data.at(name)->0;
    assert(patched(d, off, bytes).len() == d.len());
}

/// Stores the absolute address `v` at `off` of a segment.
fn store_absolute(out: &mut ObjectOut, name: SegmentName, off: i64, v: i64) -> (r: Result<
    (),
    LinkError,
>)
    ensures
        match addr4(v as int) {
            None => r == Err::<(), LinkError>(LinkError::AddressOverflowError),
            Some(bytes) => match write(old(out)@.object_data, name, off as int, bytes) {
                None => r == Err::<(), LinkError>(LinkError::UnexpectedLinkError),
                Some(d) => r is Ok && final(out)@ == (OutView { object_data: d, ..old(out)@ }),
            },
        },
        r is Err ==> final(out)@ == old(out)@,
{
    if v < 0 || v > 0xFFFF_FFFF {
        return Err(LinkError::AddressOverflowError);
    }
    match mk_addr_4(v as usize) {
        None => Err(LinkError::AddressOverflowError),
        Some(bytes) => {
            if store_bytes(out, name, off, bytes) {
                Ok(())
            } else {
                Err(LinkError::UnexpectedLinkError)
            }
        },
    }
}

/// Stores the signed number `v` at `off` of a segment.
fn store_relative(out: &mut ObjectOut, name: SegmentName, off: i64, v: i64) -> (r: Result<
    (),
    LinkError,
>)
    ensures
        if !fits_i32(v as int) {
            r == Err::<(), LinkError>(LinkError::IntOverflowError)
        } else {
            match write(old(out)@.object_data, name, off as int, int4(v as int)) {
                None => r == Err::<(), LinkError>(LinkError::UnexpectedLinkError),
                Some(d) => r is Ok && final(out)@ == (OutView { object_data: d, ..old(out)@ }),
            }
        },
        r is Err ==> final(out)@ == old(out)@,
{
    if v < -0x8000_0000 || v > 0x7FFF_FFFF {
        return Err(LinkError::IntOverflowError);
    }
    let bytes = mk_i_4(v as i32);
    if store_bytes(out, name, off, bytes) {
        Ok(())
    } else {
        Err(LinkError::UnexpectedLinkError)
    }
}

/// Leaves a relocation for the loader at `off` of a segment.
fn push_er4(out: &mut ObjectOut, name: SegmentName, off: i64)
    requires
        -0x8000_0000 <= off <= 0x7FFF_FFFF,
    ensures
        final(out)@ == (OutView {
            relocations: old(out)@.relocations.push(
                Relocation {
                    rel_loc: off as i32,
                    rel_seg: name,
                    rel_ref: RelRef::NoRef,
                    rel_type: RelType::ER4,
                },
            ),
            ..old(out)@
        }),
{
    out.relocations.push(
        Relocation {
            rel_loc: off as i32,
            rel_seg: name,
            rel_ref: RelRef::NoRef,
            rel_type: RelType::ER4,
        },
    );
}


/// Writing into a segment keeps the segments and their data in step.
pub proof fn lemma_write_wf(out: OutView, name: SegmentName, off: int, bytes: Seq<u8>)
    requires
        out.segments_wf(),
        write(out.object_data, name, off, bytes) is Some,
    ensures
        (OutView { object_data: write(out.object_data, name, off, bytes)->0, ..out }).segments_wf(),
        off + bytes.len() <= i32::MAX,
{
    let d = out.object_data.at(name)->0;
    assert(patched(d, off, bytes).len() == d.len());
    assert(out.segment_ok(name));
    assert(out.segment_ok(SegmentName::TEXT));
    assert(out.segment_ok(SegmentName::GOT));
    assert(out.segment_ok(SegmentName::DATA));
    assert(out.segment_ok(SegmentName::BSS));
    let out2 = OutView { object_data: write(out.object_data, name, off, bytes)->0, ..out };
    assert(out2.segment_ok(SegmentName::TEXT));
    assert(out2.segment_ok(SegmentName::GOT));
    assert(out2.segment_ok(SegmentName::DATA));
    assert(out2.segment_ok(SegmentName::BSS));
}

/// What a relocation pass may rely on.
pub open spec fn ready(s: LinkState) -> bool {
    s.session.wf() && s.info.wf() && s.out.segments_wf()
}

/// The address of a segment of the module at `m`.
fn module_offset(w: &Work, m: usize, name: SegmentName) -> (r: Option<i32>)
    requires
        ready(w@),
        m < w.session.ids@.len(),
    ensures
        r == modoff(frame_of(w@, 0), w@.session.ids[m as int], name),
{
    match w.info.segment_mapping.get(&w.session.ids[m]) {
        None => None,
        Some(map) => match map.get(&name) {
            None => None,
            Some(off) => Some(*off),
        },
    }
}

/// The address at which a segment of the image starts.
fn segment_start(w: &Work, name: SegmentName) -> (r: Option<i32>)
    ensures
        r == start_of(frame_of(w@, 0), name),
{
    proof {
        lemma_segmap_at_view(w.out.segments, name);
    }
    match w.out.segments.get(&name) {
        None => None,
        Some(seg) => Some(seg.segment_start),
    }
}

/// The address of the segment that a relocation of the module at `m` refers to.
fn segment_target(w: &Work, m: usize, r: &Relocation) -> (t: Option<i32>)
    requires
        ready(w@),
        m < w.session.ids@.len(),
    ensures
        t == target_segment(frame_of(w@, 0), m as int, *r),
{
    match r.rel_ref {
        RelRef::SegmentRef(i) => {
            let o = &w.session.modules[m];
            assert(o@ == w@.session.modules[m as int]);
            if i < o.segments.len() {
                let name = o.segments[i].segment_name;
                assert(name == o@.segments[i as int].segment_name);
                module_offset(w, m, name)
            } else {
                None
            }
        },
        _ => None,
    }
}

/// The address of the symbol that a relocation of the module at `m` refers to.
fn symbol_target(w: &Work, m: usize, r: &Relocation) -> (t: Option<i32>)
    requires
        ready(w@),
        m < w.session.ids@.len(),
    ensures
        t == target_symbol(frame_of(w@, 0), m as int, *r),
{
    match r.rel_ref {
        RelRef::SymbolRef(i) => {
            let o = &w.session.modules[m];
            assert(o@ == w@.session.modules[m as int]);
            if i < o.symbol_table.len() {
                let sym = &o.symbol_table[i];
                assert(sym@ == o@.symbol_table[i as int]);
                match w.info.global_symtable.get(&sym.st_name) {
                    None => None,
                    Some(e) => match &e.0 {
                        None => None,
                        Some(d) => d.defn_addr,
                    },
                }
            } else {
                None
            }
        },
        _ => None,
    }
}

/// Applies a relocation that refers to a segment.
fn apply_segment_ref(
    w: &mut Work,
    text_start: i32,
    cursor: i64,
    m: usize,
    r: &Relocation,
    loc_addr: i64,
    off: i64,
) -> (res: Result<(), LinkError>)
    requires
        ready(old(w)@),
        m < old(w).session.ids@.len(),
        r.rel_type.segment_rel(),
        -0x1_0000_0000 <= loc_addr <= 0x1_0000_0000,
    ensures
        match res {
            Ok(()) => relocate_segment_ref(
                frame_of(old(w)@, text_start),
                patch_of(old(w)@, cursor as int),
                m as int,
                *r,
                loc_addr as int,
                off as int,
            ) == Ok::<Patch, LinkError>(patch_of(final(w)@, cursor as int)) && final(w)@
                == with_patch(old(w)@, patch_of(final(w)@, 0)) && ready(final(w)@),
            Err(e) => relocate_segment_ref(
                frame_of(old(w)@, text_start),
                patch_of(old(w)@, cursor as int),
                m as int,
                *r,
                loc_addr as int,
                off as int,
            ) == Err::<Patch, LinkError>(e) && final(w)@ == old(w)@,
        },
{
    let ghost s = w@;
    let target = match segment_target(w, m, r) {
        None => {
            return Err(LinkError::UnexpectedLinkError);
        },
        Some(t) => t,
    };
    match r.rel_type {
        RelType::A4 => {
            match store_absolute(&mut w.out, r.rel_seg, off, target as i64) {
                Err(e) => {
                    return Err(e);
                },
                Ok(()) => {},
            }
            proof {
                lemma_be_bytes4(target as int);
                lemma_write_wf(s.out, r.rel_seg, off as int, addr4(target as int)->0);
            }
            push_er4(&mut w.out, r.rel_seg, off);
            Ok(())
        },
        _ => {
            let addend = match read_addend(&w.out, r.rel_seg, off) {
                None => {
                    return Err(LinkError::UnexpectedLinkError);
                },
                Some(a) => a,
            };
            let v: i64 = match r.rel_type {
                RelType::R4 => loc_addr + 4 - target as i64 + addend as i64,
                _ => {
                    let got = match segment_start(w, SegmentName::GOT) {
                        None => {
                            return Err(LinkError::UnexpectedLinkError);
                        },
                        Some(g) => g,
                    };
                    target as i64 + addend as i64 - got as i64
                },
            };
            match store_relative(&mut w.out, r.rel_seg, off, v) {
                Err(e) => Err(e),
                Ok(()) => {
                    proof {
                        lemma_write_wf(s.out, r.rel_seg, off as int, int4(v as int));
                    }
                    Ok(())
                },
            }
        },
    }
}

/// Applies a relocation that refers to nothing.
fn apply_no_ref(
    w: &mut Work,
    text_start: i32,
    cursor: i64,
    r: &Relocation,
    loc_addr: i64,
    off: i64,
) -> (res: Result<(), LinkError>)
    requires
        ready(old(w)@),
        r.rel_type.no_rel(),
        -0x1_0000_0000 <= loc_addr <= 0x1_0000_0000,
    ensures
        match res {
            Ok(()) => relocate_no_ref(
                frame_of(old(w)@, text_start),
                patch_of(old(w)@, cursor as int),
                *r,
                loc_addr as int,
                off as int,
            ) == Ok::<Patch, LinkError>(patch_of(final(w)@, cursor as int)) && final(w)@
                == with_patch(old(w)@, patch_of(final(w)@, 0)) && ready(final(w)@),
            Err(e) => relocate_no_ref(
                frame_of(old(w)@, text_start),
                patch_of(old(w)@, cursor as int),
                *r,
                loc_addr as int,
                off as int,
            ) == Err::<Patch, LinkError>(e) && final(w)@ == old(w)@,
        },
{
    let ghost s = w@;
    let v: i64 = match r.rel_type {
        RelType::GA4 => {
            let got = match segment_start(w, SegmentName::GOT) {
                None => {
                    return Err(LinkError::UnexpectedLinkError);
                },
                Some(g) => g,
            };
            got as i64 - loc_addr
        },
        _ => {
            let addr = match read_addend(&w.out, r.rel_seg, off) {
                None => {
                    return Err(LinkError::UnexpectedLinkError);
                },
                Some(a) => a,
            };
            addr as i64 + text_start as i64
        },
    };
    match store_absolute(&mut w.out, r.rel_seg, off, v) {
        Err(e) => Err(e),
        Ok(()) => {
            proof {
                lemma_write_wf(s.out, r.rel_seg, off as int, addr4(v as int)->0);
            }
            Ok(())
        },
    }
}

/// Applies a relocation that refers to a symbol.
fn apply_symbol_ref(
    w: &mut Work,
    text_start: i32,
    cursor: &mut i64,
    m: usize,
    r: &Relocation,
    loc_addr: i64,
    off: i64,
) -> (res: Result<(), LinkError>)
    requires
        ready(old(w)@),
        m < old(w).session.ids@.len(),
        !r.rel_type.segment_rel(),
        !r.rel_type.no_rel(),
        -0x1_0000_0000 <= loc_addr <= 0x1_0000_0000,
        0 <= *old(cursor) <= 0x1_0000_0003,
    ensures
        match res {
            Ok(()) => relocate_symbol_ref(
                frame_of(old(w)@, text_start),
                patch_of(old(w)@, *old(cursor) as int),
                m as int,
                *r,
                loc_addr as int,
                off as int,
            ) == Ok::<Patch, LinkError>(patch_of(final(w)@, *final(cursor) as int)) && final(w)@
                == with_patch(old(w)@, patch_of(final(w)@, 0)) && ready(final(w)@) && 0
                <= *final(cursor) <= 0x1_0000_0003,
            Err(e) => relocate_symbol_ref(
                frame_of(old(w)@, text_start),
                patch_of(old(w)@, *old(cursor) as int),
                m as int,
                *r,
                loc_addr as int,
                off as int,
            ) == Err::<Patch, LinkError>(e) && final(w)@ == old(w)@ && *final(cursor) == *old(
                cursor,
            ),
        },
{
    let ghost s = w@;
    let a = match symbol_target(w, m, r) {
        None => {
            return Err(LinkError::UnexpectedLinkError);
        },
        Some(a) => a,
    };
    match r.rel_type {
        RelType::AS4 => {
            let addend = match read_addend(&w.out, r.rel_seg, off) {
                None => {
                    return Err(LinkError::UnexpectedLinkError);
                },
                Some(x) => x,
            };
            let v: i64 = a as i64 + addend as i64;
            match store_absolute(&mut w.out, r.rel_seg, off, v) {
                Err(e) => {
                    return Err(e);
                },
                Ok(()) => {},
            }
            proof {
                lemma_be_bytes4(v as int);
                lemma_write_wf(s.out, r.rel_seg, off as int, addr4(v as int)->0);
            }
            push_er4(&mut w.out, r.rel_seg, off);
            Ok(())
        },
        RelType::RS4 => {
            let addend = match read_addend(&w.out, r.rel_seg, off) {
                None => {
                    return Err(LinkError::UnexpectedLinkError);
                },
                Some(x) => x,
            };
            let v: i64 = loc_addr + 4 - a as i64 + addend as i64;
            match store_relative(&mut w.out, r.rel_seg, off, v) {
                Err(e) => Err(e),
                Ok(()) => {
                    proof {
                        lemma_write_wf(s.out, r.rel_seg, off as int, int4(v as int));
                    }
                    Ok(())
                },
            }
        },
        RelType::U2 | RelType::L2 => {
            if a < 0 {
                return Err(LinkError::AddressOverflowError);
            }
            let v = match mk_addr_4(a as usize) {
                None => {
                    return Err(LinkError::AddressOverflowError);
                },
                Some(v) => v,
            };
            proof {
                lemma_be_bytes4(a as int);
            }
            let mut half: Vec<u8> = Vec::new();
            match r.rel_type {
                RelType::U2 => {
                    half.push(v[0]);
                    half.push(v[1]);
                    assert(half@ =~= v@.subrange(0, 2));
                },
                _ => {
                    half.push(v[2]);
                    half.push(v[3]);
                    assert(half@ =~= v@.subrange(2, 4));
                },
            }
            if store_bytes(&mut w.out, r.rel_seg, off, half) {
                proof {
                    lemma_write_wf(s.out, r.rel_seg, off as int, half@);
                }
                Ok(())
            } else {
                Err(LinkError::UnexpectedLinkError)
            }
        },
        _ => {
            let at: i64 = *cursor;
            // nothing is written unless both writes can be made
            if a < 0 {
                return Err(LinkError::AddressOverflowError);
            }
            if !has_room(&w.out, SegmentName::GOT, at, 4) {
                proof {
                    lemma_be_bytes4(a as int);
                }
                return Err(LinkError::UnexpectedLinkError);
            }
            if at > 0xFFFF_FFFF {
                return Err(LinkError::AddressOverflowError);
            }
            proof {
                lemma_be_bytes4(a as int);
                lemma_be_bytes4(at as int);
                lemma_write_room(
                    s.out.object_data,
                    SegmentName::GOT,
                    at as int,
                    addr4(a as int)->0,
                    r.rel_seg,
                    off as int,
                    4,
                );
            }
            if !has_room(&w.out, r.rel_seg, off, 4) {
                return Err(LinkError::UnexpectedLinkError);
            }
            match store_absolute(&mut w.out, SegmentName::GOT, at, a as i64) {
                Err(e) => {
                    return Err(e);
                },
                Ok(()) => {},
            }
            let ghost mid = w@.out;
            proof {
                lemma_write_wf(s.out, SegmentName::GOT, at as int, addr4(a as int)->0);
            }
            match store_absolute(&mut w.out, r.rel_seg, off, at) {
                Err(e) => {
                    return Err(e);
                },
                Ok(()) => {},
            }
            proof {
                lemma_write_wf(mid, r.rel_seg, off as int, addr4(at as int)->0);
            }
            *cursor = at + 4;
            Ok(())
        },
    }
}

/// Whether the reference of a relocation is of the form that its kind asks for.
fn well_typed(r: &Relocation) -> (b: bool)
    ensures
        b == r.well_typed(),
{
    if r.rel_type.is_segment_rel() {
        match r.rel_ref {
            RelRef::SegmentRef(_) => true,
            _ => false,
        }
    } else if r.rel_type.is_no_rel() {
        match r.rel_ref {
            RelRef::NoRef => true,
            _ => false,
        }
    } else {
        match r.rel_ref {
            RelRef::SymbolRef(_) => true,
            _ => false,
        }
    }
}

/// Applies one relocation of the module at `m`.
fn apply_relocation(w: &mut Work, text_start: i32, cursor: &mut i64, m: usize, r: &Relocation)
    -> (res: Result<(), LinkError>)
    requires
        ready(old(w)@),
        m < old(w).session.ids@.len(),
        0 <= *old(cursor) <= 0x1_0000_0003,
    ensures
        match res {
            Ok(()) => relocate(
                frame_of(old(w)@, text_start),
                patch_of(old(w)@, *old(cursor) as int),
                m as int,
                *r,
            ) == Ok::<Patch, LinkError>(patch_of(final(w)@, *final(cursor) as int)) && final(w)@
                == with_patch(old(w)@, patch_of(final(w)@, 0)) && ready(final(w)@) && 0
                <= *final(cursor) <= 0x1_0000_0003,
            Err(e) => relocate(
                frame_of(old(w)@, text_start),
                patch_of(old(w)@, *old(cursor) as int),
                m as int,
                *r,
            ) == Err::<Patch, LinkError>(e) && final(w)@ == old(w)@ && *final(cursor) == *old(
                cursor,
            ),
        },
{
    let base = match module_offset(w, m, r.rel_seg) {
        None => {
            return Err(LinkError::UnexpectedLinkError);
        },
        Some(b) => b,
    };
    let start = match segment_start(w, r.rel_seg) {
        None => {
            return Err(LinkError::UnexpectedLinkError);
        },
        Some(s) => s,
    };
    let loc_addr: i64 = base as i64 + r.rel_loc as i64;
    let off: i64 = loc_addr - start as i64;
    if !well_typed(r) {
        return Err(LinkError::UnexpectedLinkError);
    }
    if r.rel_type.is_segment_rel() {
        apply_segment_ref(w, text_start, *cursor, m, r, loc_addr, off)
    } else if r.rel_type.is_no_rel() {
        apply_no_ref(w, text_start, *cursor, r, loc_addr, off)
    } else {
        apply_symbol_ref(w, text_start, cursor, m, r, loc_addr, off)
    }
}


/// Applies the relocations of the module at `m`.
fn relocate_one_module(w: &mut Work, text_start: i32, cursor: &mut i64, m: usize) -> (res: Result<
    (),
    LinkError,
>)
    requires
        ready(old(w)@),
        m < old(w).session.ids@.len(),
        0 <= *old(cursor) <= 0x1_0000_0003,
    ensures
        match res {
            Ok(()) => relocate_module(
                frame_of(old(w)@, text_start),
                patch_of(old(w)@, *old(cursor) as int),
                m as int,
                old(w)@.session.modules[m as int].relocations.len() as int,
            ) == Ok::<Patch, LinkError>(patch_of(final(w)@, *final(cursor) as int)) && final(w)@
                == with_patch(old(w)@, patch_of(final(w)@, 0)) && ready(final(w)@) && 0
                <= *final(cursor) <= 0x1_0000_0003,
            Err(e) => relocate_module(
                frame_of(old(w)@, text_start),
                patch_of(old(w)@, *old(cursor) as int),
                m as int,
                old(w)@.session.modules[m as int].relocations.len() as int,
            ) == Err::<Patch, LinkError>(e) && final(w)@ == with_patch(
                old(w)@,
                relocate_module_reached(
                    frame_of(old(w)@, text_start),
                    patch_of(old(w)@, *old(cursor) as int),
                    m as int,
                    old(w)@.session.modules[m as int].relocations.len() as int,
                ),
            ),
        },
{
    let ghost s = w@;
    let ghost f = frame_of(s, text_start);
    let ghost first = patch_of(s, *cursor as int);
    let n = w.session.modules[m].relocations.len();
    assert(n == s.session.modules[m as int].relocations.len());
    let mut k: usize = 0;
    while k < n
        invariant
            k <= n,
            m < w.session.ids@.len(),
            n == s.session.modules[m as int].relocations.len(),
            s == old(w)@,
            f == frame_of(s, text_start),
            first == patch_of(s, *old(cursor) as int),
            ready(w@),
            w@ == with_patch(s, patch_of(w@, 0)),
            0 <= *cursor <= 0x1_0000_0003,
            relocate_module(f, first, m as int, k as int) == Ok::<Patch, LinkError>(
                patch_of(w@, *cursor as int),
            ),
        decreases n - k,
    {
        let r: Relocation = w.session.modules[m].relocations[k];
        assert(r == s.session.modules[m as int].relocations[k as int]);
        assert(frame_of(w@, text_start) == f);
        match apply_relocation(w, text_start, cursor, m, &r) {
            Err(e) => {
                proof {
                    assert(relocate_module(f, first, m as int, k + 1) == Err::<Patch, LinkError>(e));
                    assert(relocate_module_reached(f, first, m as int, k + 1) == patch_of(
                        w@,
                        *cursor as int,
                    ));
                    lemma_relocate_module_err(f, first, m as int, k + 1, n as int);
                    lemma_relocate_module_reached_err(f, first, m as int, k + 1, n as int);
                }
                return Err(e);
            },
            Ok(()) => {},
        }
        k += 1;
    }
    Ok(())
}

/// Applies the relocations of every module, in the order in which the
/// session took the modules in.
pub fn run_relocations(w: &mut Work, text_start: i32) -> (res: Result<(), LinkError>)
    requires
        ready(old(w)@),
    ensures
        match res {
            Ok(()) => relocated(old(w)@, text_start) == Ok::<LinkState, LinkError>(final(w)@)
                && ready(final(w)@),
            Err(e) => relocated(old(w)@, text_start) == Err::<LinkState, LinkError>(e)
                && final(w)@ == with_patch(
                old(w)@,
                relocate_modules_reached(
                    frame_of(old(w)@, text_start),
                    patch_of(old(w)@, 0),
                    old(w)@.session.modules.len() as int,
                ),
            ),
        },
{
    let ghost s = w@;
    let ghost f = frame_of(s, text_start);
    let ghost first = patch_of(s, 0);
    let mut cursor: i64 = 0;
    let n = w.session.modules.len();
    let mut m: usize = 0;
    while m < n
        invariant
            m <= n,
            n == s.session.modules.len(),
            n == w.session.ids@.len(),
            s == old(w)@,
            f == frame_of(s, text_start),
            first == patch_of(s, 0),
            ready(w@),
            w@ == with_patch(s, patch_of(w@, 0)),
            0 <= cursor <= 0x1_0000_0003,
            relocate_modules(f, first, m as int) == Ok::<Patch, LinkError>(
                patch_of(w@, cursor as int),
            ),
        decreases n - m,
    {
        assert(frame_of(w@, text_start) == f);
        match relocate_one_module(w, text_start, &mut cursor, m) {
            Err(e) => {
                proof {
                    assert(relocate_modules(f, first, m + 1) == Err::<Patch, LinkError>(e));
                    lemma_relocate_modules_err(f, first, m + 1, n as int);
                    lemma_relocate_modules_reached_err(f, first, m + 1, n as int);
                }
                return Err(e);
            },
            Ok(()) => {},
        }
        m += 1;
    }
    proof {
        lemma_relocate_modules_reached_ok(f, first, n as int);
    }
    if w.out.relocations.len() > 0x7FFF_FFFF {
        return Err(LinkError::IntOverflowError);
    }
    w.out.nrels = w.out.relocations.len() as i32;
    Ok(())
}

} // verus!
