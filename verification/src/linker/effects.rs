//! What single relocations do to the image: the bytes that an `A4`, an `R4`
//! and a `GP4` relocation leave at their location, what else they change,
//! and the place of the global offset table that each `GP4` fills.

use crate::linker::ingest::gp4_count;
use crate::linker::layout::fits_i32;
use crate::linker::relocate::{
    lemma_write_room, modoff, read4, relocate, relocate_module, relocate_modules, room,
    start_of, target_segment, target_symbol, Frame, Patch,
};
use crate::types::object::ObjectView;
use crate::types::relocation::{RelRef, RelType, Relocation};
use crate::types::segment::SegmentName;
use crate::types::segment_map::SegMap;
use crate::utils::{addr4, be_bytes4, int4, lemma_be_bytes4, lemma_int4_round_trip};
use vstd::prelude::*;

verus! {

/// Whether the bytes at `off` of a segment are `bytes`.
pub open spec fn holds_at(data: SegMap<Seq<u8>>, name: SegmentName, off: int, bytes: Seq<u8>)
    -> bool {
    match data.at(name) {
        Some(d) => 0 <= off && off + bytes.len() <= d.len() && d.subrange(
            off,
            off + bytes.len(),
        ) == bytes,
        None => false,
    }
}

/// Whether a segment is after what it was before but for the `len` bytes
/// at `off`: it keeps its length and its other bytes.
pub open spec fn rest_kept(
    before: SegMap<Seq<u8>>,
    after: SegMap<Seq<u8>>,
    name: SegmentName,
    off: int,
    len: int,
) -> bool {
    &&& before.at(name) is Some
    &&& after.at(name) is Some
    &&& after.at(name)->0.len() == before.at(name)->0.len()
    &&& forall|i: int|
        0 <= i < before.at(name)->0.len() && !(off <= i < off + len) ==> after.at(name)->0[i]
            == before.at(name)->0[i]
}

/// Whether `after` is `before` but for the `len` bytes at `off` of a
/// segment: the segment keeps its length and its other bytes, and the other
/// segments stay as they are.
pub open spec fn same_but(
    before: SegMap<Seq<u8>>,
    after: SegMap<Seq<u8>>,
    name: SegmentName,
    off: int,
    len: int,
) -> bool {
    &&& forall|n: SegmentName| n != name ==> after.at(n) == before.at(n)
    &&& rest_kept(before, after, name, off, len)
}

/// The address of the location of a relocation of the module at `m`.
pub open spec fn location(s: Frame, m: int, r: Relocation) -> int {
    modoff(s, s.session.ids[m], r.rel_seg)->0 + r.rel_loc
}

/// The place of that location in its segment of the image.
pub open spec fn place(s: Frame, m: int, r: Relocation) -> int {
    location(s, m, r) - start_of(s, r.rel_seg)->0
}

/// The relocation that is left for the loader at `off` of a segment.
pub open spec fn er4_at(name: SegmentName, off: int) -> Relocation {
    Relocation {
        rel_loc: off as i32,
        rel_seg: name,
        rel_ref: RelRef::NoRef,
        rel_type: RelType::ER4,
    }
}

/// Bytes that are written are there afterwards, and nothing else changes.
pub proof fn lemma_write(data: SegMap<Seq<u8>>, name: SegmentName, off: int, bytes: Seq<u8>)
    requires
        crate::linker::relocate::write(data, name, off, bytes) is Some,
    ensures
        holds_at(crate::linker::relocate::write(data, name, off, bytes)->0, name, off, bytes),
        same_but(
            data,
            crate::linker::relocate::write(data, name, off, bytes)->0,
            name,
            off,
            bytes.len() as int,
        ),
{
    let d = data.at(name)->0;
    let after = crate::linker::relocate::write(data, name, off, bytes)->0;
    let e = after.at(name)->0;
    assert(e == d.take(off) + bytes + d.skip(off + bytes.len()));
    assert(e.subrange(off, off + bytes.len()) =~= bytes);
}

/// An `A4` relocation that is applied leaves the address of its target
/// segment at its location, and a relocation for the loader at the same
/// place; nothing else changes.
pub proof fn lemma_a4(s: Frame, p: Patch, m: int, r: Relocation)
    requires
        r.rel_type == RelType::A4,
        relocate(s, p, m, r) is Ok,
    ensures
        ({
            let q = relocate(s, p, m, r)->Ok_0;
            let at = place(s, m, r);
            let target = target_segment(s, m, r);
            &&& target is Some
            &&& holds_at(q.data, r.rel_seg, at, be_bytes4(target->0 as int))
            &&& read4(q.data, r.rel_seg, at) == Some(target->0 as int)
            &&& same_but(p.data, q.data, r.rel_seg, at, 4)
            &&& q.relocs == p.relocs.push(er4_at(r.rel_seg, at))
            &&& q.got_cursor == p.got_cursor
        }),
{
    let at = place(s, m, r);
    let target = target_segment(s, m, r)->0;
    lemma_be_bytes4(target as int);
    lemma_write(p.data, r.rel_seg, at, be_bytes4(target as int));
}

/// An `R4` relocation that is applied leaves at its location the address
/// after the location, less the address of its target segment, plus the
/// number that stood there; it leaves nothing for the loader, and nothing
/// else changes.
pub proof fn lemma_r4(s: Frame, p: Patch, m: int, r: Relocation)
    requires
        r.rel_type == RelType::R4,
        relocate(s, p, m, r) is Ok,
    ensures
        ({
            let q = relocate(s, p, m, r)->Ok_0;
            let at = place(s, m, r);
            let target = target_segment(s, m, r);
            let addend = read4(p.data, r.rel_seg, at);
            let v = location(s, m, r) + 4 - target->0 + addend->0;
            &&& target is Some
            &&& addend is Some
            &&& fits_i32(v)
            &&& holds_at(q.data, r.rel_seg, at, int4(v))
            &&& read4(q.data, r.rel_seg, at) == Some(v)
            &&& same_but(p.data, q.data, r.rel_seg, at, 4)
            &&& q.relocs == p.relocs
            &&& q.got_cursor == p.got_cursor
        }),
{
    let at = place(s, m, r);
    let target = target_segment(s, m, r)->0;
    let addend = read4(p.data, r.rel_seg, at)->0;
    let v = location(s, m, r) + 4 - target + addend;
    lemma_int4_round_trip(v as i32);
    lemma_write(p.data, r.rel_seg, at, int4(v));
}

/// A `GP4` relocation that is applied takes the next free place of the
/// global offset table: it leaves the offset of that place at its location,
/// and the address of its symbol in that place, unless the location lies in
/// the table itself. The next free place is then four bytes on. The two
/// segments keep their lengths, the other segments stay as they are, and
/// nothing is left for the loader.
pub proof fn lemma_gp4(s: Frame, p: Patch, m: int, r: Relocation)
    requires
        r.rel_type == RelType::GP4,
        relocate(s, p, m, r) is Ok,
    ensures
        ({
            let q = relocate(s, p, m, r)->Ok_0;
            let at = place(s, m, r);
            let a = target_symbol(s, m, r);
            &&& a is Some
            &&& 0 <= a->0
            &&& 0 <= p.got_cursor <= 0xFFFF_FFFF
            &&& holds_at(q.data, r.rel_seg, at, be_bytes4(p.got_cursor))
            &&& r.rel_seg != SegmentName::GOT ==> {
                &&& holds_at(q.data, SegmentName::GOT, p.got_cursor, be_bytes4(a->0 as int))
                &&& rest_kept(p.data, q.data, SegmentName::GOT, p.got_cursor, 4)
                &&& rest_kept(p.data, q.data, r.rel_seg, at, 4)
            }
            &&& q.data.at(SegmentName::GOT) is Some && p.data.at(SegmentName::GOT) is Some
            &&& q.data.at(SegmentName::GOT)->0.len() == p.data.at(SegmentName::GOT)->0.len()
            &&& q.data.at(r.rel_seg)->0.len() == p.data.at(r.rel_seg)->0.len()
            &&& forall|n: SegmentName|
                n != SegmentName::GOT && n != r.rel_seg ==> q.data.at(n) == p.data.at(n)
            &&& q.got_cursor == p.got_cursor + 4
            &&& q.relocs == p.relocs
        }),
{
    let at = place(s, m, r);
    let a = target_symbol(s, m, r)->0;
    let slot = be_bytes4(a as int);
    let mid = crate::linker::relocate::write(p.data, SegmentName::GOT, p.got_cursor, slot)->0;
    lemma_be_bytes4(a as int);
    lemma_be_bytes4(p.got_cursor);
    lemma_write(p.data, SegmentName::GOT, p.got_cursor, slot);
    lemma_write(mid, r.rel_seg, at, be_bytes4(p.got_cursor));
    let q = relocate(s, p, m, r)->Ok_0;
    if r.rel_seg != SegmentName::GOT {
        assert(q.data.at(SegmentName::GOT) == mid.at(SegmentName::GOT));
        assert(mid.at(r.rel_seg) == p.data.at(r.rel_seg));
    }
}

/// What one relocation that is applied does to the next free place of the
/// global offset table: a `GP4` moves it four bytes on, any other leaves it.
pub proof fn lemma_cursor_step(s: Frame, p: Patch, m: int, r: Relocation)
    requires
        relocate(s, p, m, r) is Ok,
    ensures
        relocate(s, p, m, r)->Ok_0.got_cursor == p.got_cursor + if r.rel_type == RelType::GP4 {
            4int
        } else {
            0
        },
{
}

/// After the first `n` relocations of a module the next free place of the
/// global offset table is four bytes on for each `GP4` among them: counted
/// from none, the `GP4` after `k` others fills the place at `4 * k`.
pub proof fn lemma_cursor(s: Frame, p: Patch, m: int, n: int)
    requires
        relocate_module(s, p, m, n) is Ok,
    ensures
        relocate_module(s, p, m, n)->Ok_0.got_cursor == p.got_cursor + 4 * gp4_count(
            s.session.modules[m].relocations,
            n,
        ),
    decreases n,
{
    if n > 0 {
        lemma_cursor(s, p, m, n - 1);
        lemma_cursor_step(
            s,
            relocate_module(s, p, m, n - 1)->Ok_0,
            m,
            s.session.modules[m].relocations[n - 1],
        );
    }
}

/// The number of `GP4` relocations of the first `m` modules.
pub open spec fn gp4_before(modules: Seq<ObjectView>, m: int) -> int
    decreases m,
{
    if m <= 0 {
        0
    } else {
        gp4_before(modules, m - 1) + gp4_count(
            modules[m - 1].relocations,
            modules[m - 1].relocations.len() as int,
        )
    }
}

/// After the relocations of the first `m` modules the next free place of
/// the global offset table is four bytes on for each `GP4` among them.
pub proof fn lemma_cursor_of_modules(s: Frame, p: Patch, m: int)
    requires
        relocate_modules(s, p, m) is Ok,
    ensures
        relocate_modules(s, p, m)->Ok_0.got_cursor == p.got_cursor + 4 * gp4_before(
            s.session.modules,
            m,
        ),
    decreases m,
{
    if m > 0 {
        lemma_cursor_of_modules(s, p, m - 1);
        lemma_cursor(
            s,
            relocate_modules(s, p, m - 1)->Ok_0,
            m - 1,
            s.session.modules[m - 1].relocations.len() as int,
        );
    }
}

/// What one relocation that is applied leaves for the loader: an `A4` and
/// an `AS4` leave one `ER4` at their place, any other leaves nothing.
pub proof fn lemma_loader_step(s: Frame, p: Patch, m: int, r: Relocation)
    requires
        relocate(s, p, m, r) is Ok,
    ensures
        relocate(s, p, m, r)->Ok_0.relocs == if r.rel_type == RelType::A4 || r.rel_type
            == RelType::AS4 {
            p.relocs.push(er4_at(r.rel_seg, place(s, m, r)))
        } else {
            p.relocs
        },
{
}

/// The number of `A4` and `AS4` relocations among the first `n`.
pub open spec fn absolute_count(rels: Seq<Relocation>, n: int) -> int
    decreases n,
{
    if n <= 0 {
        0
    } else {
        absolute_count(rels, n - 1) + if rels[n - 1].rel_type == RelType::A4 || rels[n
            - 1].rel_type == RelType::AS4 {
            1int
        } else {
            0
        }
    }
}

/// After the first `n` relocations of a module one relocation more is left
/// for the loader for each `A4` and each `AS4` among them, behind those that
/// were left before.
pub proof fn lemma_loader(s: Frame, p: Patch, m: int, n: int)
    requires
        relocate_module(s, p, m, n) is Ok,
    ensures
        relocate_module(s, p, m, n)->Ok_0.relocs.len() == p.relocs.len() + absolute_count(
            s.session.modules[m].relocations,
            n,
        ),
        p.relocs.len() <= relocate_module(s, p, m, n)->Ok_0.relocs.len(),
        relocate_module(s, p, m, n)->Ok_0.relocs.take(p.relocs.len() as int) == p.relocs,
    decreases n,
{
    if n > 0 {
        lemma_loader(s, p, m, n - 1);
        let q = relocate_module(s, p, m, n - 1)->Ok_0;
        let r = s.session.modules[m].relocations[n - 1];
        lemma_loader_step(s, q, m, r);
        let t = relocate(s, q, m, r)->Ok_0;
        assert(t.relocs.take(p.relocs.len() as int) =~= q.relocs.take(p.relocs.len() as int));
    } else {
        assert(p.relocs.take(p.relocs.len() as int) =~= p.relocs);
    }
}

/// The number of bytes that a relocation of a kind writes at its location.
pub open spec fn width(t: RelType) -> int {
    if t == RelType::U2 || t == RelType::L2 {
        2
    } else {
        4
    }
}

/// A relocation whose location does not lie in its segment of the image
/// with all its bytes is not applied: a location below zero, or beyond the
/// end of the segment, fails.
pub proof fn lemma_outside_fails(s: Frame, p: Patch, m: int, r: Relocation)
    requires
        !room(p.data, r.rel_seg, place(s, m, r), width(r.rel_type)),
    ensures
        relocate(s, p, m, r) is Err,
{
    if r.rel_type == RelType::GP4 && r.well_typed() {
        let at = place(s, m, r);
        match target_symbol(s, m, r) {
            Some(a) => {
                match addr4(a as int) {
                    Some(bytes) => {
                        if crate::linker::relocate::write(
                            p.data,
                            SegmentName::GOT,
                            p.got_cursor,
                            bytes,
                        ) is Some {
                            lemma_write_room(
                                p.data,
                                SegmentName::GOT,
                                p.got_cursor,
                                bytes,
                                r.rel_seg,
                                at,
                                4,
                            );
                        }
                    },
                    None => {},
                }
            },
            None => {},
        }
    }
}

} // verus!
