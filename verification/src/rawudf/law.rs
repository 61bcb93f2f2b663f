//! What holds of reading a volume, whatever the reads and however they were cut.

use vstd::prelude::*;

use super::descriptor::{Icb, PartMap, Partition};
use super::log;
use super::log::{clip, clipped, extends, honest, Known, Step};
use super::space;
use super::space::SpaceView;
use super::volume;
use super::volume::{
    pull_end, ranged, read_end, scanned, served, serves, AheadView, FileMetaView, RawUdfView,
    SequenceView,
};
use crate::text;

verus! {

// ───────────────────────── answers are final ─────────────────────────

proof fn lemma_spaces_extends(
    a: Known,
    b: Known,
    pds: Seq<Partition>,
    maps: Seq<PartMap>,
    done: Seq<Option<SpaceView>>,
)
    requires
        extends(a, b),
        !(space::spaces_from(a, pds, maps, done) is Need),
    ensures
        space::spaces_from(b, pds, maps, done) == space::spaces_from(a, pds, maps, done),
    decreases maps.len() - done.len(),
{
    if done.len() < maps.len() {
        let map = maps[done.len() as int];
        assert(space::map_space(b, pds, map) == space::map_space(a, pds, map));
        if let Step::Done(s) = space::map_space(a, pds, map) {
            lemma_spaces_extends(a, b, pds, maps, done.push(s));
        }
    }
}

proof fn lemma_scanned_extends(a: Known, b: Known, first: int, i: int, max: int, s: SequenceView)
    requires
        extends(a, b),
        !(scanned(a, first, i, max, s) is Need),
    ensures
        scanned(b, first, i, max, s) == scanned(a, first, i, max, s),
    decreases max - i,
{
    if i < max {
        let x = log::sector(a, first + i);
        assert(log::sector(b, first + i) == x);
        if let Step::Done(buf) = x {
            let id = super::descriptor::le16(buf, 0);
            if id == super::descriptor::PRIMARY_VOLUME {
                if let Some(p) = super::descriptor::primary_of(buf) {
                    let t = SequenceView { primary: Some(p), ..s };
                    lemma_scanned_extends(a, b, first, i + 1, max, t);
                }
            } else if id == super::descriptor::PARTITION {
                if let Some(p) = super::descriptor::partition_of(buf) {
                    let t = SequenceView { partitions: s.partitions.push(p), ..s };
                    lemma_scanned_extends(a, b, first, i + 1, max, t);
                }
            } else if id == super::descriptor::LOGICAL_VOLUME {
                if super::descriptor::logical_of(buf) is Some {
                    let t = SequenceView { logical: Some(buf), ..s };
                    lemma_scanned_extends(a, b, first, i + 1, max, t);
                }
            } else if id != super::descriptor::TERMINATING {
                lemma_scanned_extends(a, b, first, i + 1, max, s);
            }
        }
    }
}

/// A volume that was opened, or refused, is the same whatever else is read.
pub proof fn lemma_opened_extends(a: Known, b: Known, device: Seq<char>)
    requires
        extends(a, b),
        !(volume::opened(a, device) is Need),
    ensures
        volume::opened(b, device) == volume::opened(a, device),
{
    let x = log::sector(a, 256);
    assert(log::sector(b, 256) == x);
    if let Step::Done(buf) = x {
        if let Some((length, location)) = super::descriptor::anchor_of(buf) {
            let max = if length < 4096 {
                1
            } else {
                length as int / 2048
            };
            let none = volume::no_descriptors();
            lemma_scanned_extends(a, b, location as int, 0, max, none);
            if let Step::Done(s) = scanned(a, location as int, 0, max, none) {
                if s.primary is Some && s.logical is Some {
                    let lv = super::descriptor::logical_of(s.logical->0)->0;
                    if let Ok(maps) = super::descriptor::maps_of(s.logical->0) {
                        let r = lv.file_set.partition_ref;
                        if s.partitions.len() > 0 && lv.block_size == 2048 {
                            if maps.len() > 0 && space::unmatched(s.partitions, maps, 0) is None {
                                lemma_spaces_extends(a, b, s.partitions, maps, Seq::empty());
                            }
                            assert(space::spaces_of(b, s.partitions, maps, r) == space::spaces_of(
                                a,
                                s.partitions,
                                maps,
                                r,
                            ));
                        }
                    }
                }
            }
        }
    }
}

proof fn lemma_gathered_extends(
    a: Known,
    b: Known,
    runs: Seq<(u64, u32)>,
    i: int,
    got: Seq<u8>,
    want: int,
)
    requires
        extends(a, b),
        !(space::gathered(a, runs, i, got, want) is Need),
    ensures
        space::gathered(b, runs, i, got, want) == space::gathered(a, runs, i, got, want),
    decreases runs.len() - i,
{
    if 0 <= i < runs.len() {
        log::lemma_bytes_extends(a, b, runs[i].0 as int, runs[i].1 as int);
        if let Step::Done(s) = log::bytes_at(a, runs[i].0 as int, runs[i].1 as int) {
            if (got + s).len() < want {
                lemma_gathered_extends(a, b, runs, i + 1, got + s, want);
            }
        }
    }
}

/// A directory that was read stays the same, whatever else is read.
pub proof fn lemma_directory_extends(
    a: Known,
    b: Known,
    spaces: Seq<Option<SpaceView>>,
    icb: Icb,
)
    requires
        extends(a, b),
        !(space::directory(a, spaces, icb) is Need),
    ensures
        space::directory(b, spaces, icb) == space::directory(a, spaces, icb),
{
    assert(space::entry_of(b, spaces, icb) == space::entry_of(a, spaces, icb));
    if let Step::Done(fe) = space::entry_of(a, spaces, icb) {
        if !fe.embedded {
            if let Ok(runs) = space::placed(spaces, fe.extents, icb.partition_ref, 0) {
                lemma_gathered_extends(
                    a,
                    b,
                    runs,
                    0,
                    Seq::empty(),
                    fe.information_length as int,
                );
            }
        }
    }
}

proof fn lemma_descended_extends(
    a: Known,
    b: Known,
    spaces: Seq<Option<SpaceView>>,
    cur: Icb,
    is_dir: bool,
    names: Seq<Seq<char>>,
    depth: int,
)
    requires
        extends(a, b),
        !(space::descended(a, spaces, cur, is_dir, names, depth) is Need),
    ensures
        space::descended(b, spaces, cur, is_dir, names, depth) == space::descended(
            a,
            spaces,
            cur,
            is_dir,
            names,
            depth,
        ),
    decreases names.len() - depth,
{
    if 0 <= depth < names.len() && is_dir {
        lemma_directory_extends(a, b, spaces, cur);
        if let Step::Done(entries) = space::directory(a, spaces, cur) {
            if let Some(e) = space::entry_named(entries, names[depth]) {
                lemma_descended_extends(a, b, spaces, e.icb, e.is_directory, names, depth + 1);
            }
        }
    }
}

/// A path that was followed leads to the same place, whatever else is read.
pub proof fn lemma_lookup_extends(a: Known, b: Known, v: RawUdfView, rel: Seq<char>)
    requires
        extends(a, b),
        !(v.lookup(a, rel) is Need),
    ensures
        v.lookup(b, rel) == v.lookup(a, rel),
{
    lemma_descended_extends(
        a,
        b,
        v.spaces,
        v.root_icb,
        true,
        text::words(rel, text::Separator::Slash),
        0,
    );
}

/// What a file was found to be, it is, whatever else is read.
pub proof fn lemma_meta_extends(a: Known, b: Known, v: RawUdfView, rel: Seq<char>)
    requires
        extends(a, b),
        !(v.meta(a, rel) is Need),
    ensures
        v.meta(b, rel) == v.meta(a, rel),
        v.remembering(b, rel) == v.remembering(a, rel),
{
    if !v.files.dom().contains(rel) {
        lemma_lookup_extends(a, b, v, rel);
        if let Step::Done(icb) = v.lookup(a, rel) {
            assert(space::entry_of(b, v.spaces, icb) == space::entry_of(a, v.spaces, icb));
        }
    }
}

proof fn lemma_ranged_extends(
    a: Known,
    b: Known,
    extents: Seq<(u64, u32)>,
    i: int,
    pos: int,
    offset: int,
    end: int,
    got: Seq<u8>,
)
    requires
        extends(a, b),
        !(ranged(a, extents, i, pos, offset, end, got) is Need),
    ensures
        ranged(b, extents, i, pos, offset, end, got) == ranged(
            a,
            extents,
            i,
            pos,
            offset,
            end,
            got,
        ),
    decreases extents.len() - i,
{
    if 0 <= i < extents.len() && pos < end {
        let (abs, len) = extents[i];
        if offset >= pos + len {
            lemma_ranged_extends(a, b, extents, i + 1, pos + len, offset, end, got);
        } else {
            let from = if offset > pos {
                offset - pos
            } else {
                0
            };
            let to = if end < pos + len {
                end - pos
            } else {
                len as int
            };
            log::lemma_bytes_extends(a, b, abs + from, to - from);
            if let Step::Done(s) = log::bytes_at(a, abs + from, to - from) {
                lemma_ranged_extends(a, b, extents, i + 1, pos + len, offset, end, got + s);
            }
        }
    }
}

/// An answered read is answered alike, and leaves the same state, whatever else
/// was read of the device.
pub proof fn lemma_read_extends(
    a: Known,
    b: Known,
    v: RawUdfView,
    rel: Seq<char>,
    offset: u64,
    count: int,
)
    requires
        extends(a, b),
        !(v.read(a, rel, offset, count).0 is Need),
    ensures
        v.read(b, rel, offset, count) == v.read(a, rel, offset, count),
{
    lemma_meta_extends(a, b, v, rel);
    if let Step::Done(meta) = v.meta(a, rel) {
        if offset < meta.size && count != 0 && meta.embedded is None {
            let end = read_end(meta.size, offset, count);
            let w = v.remembering(a, rel);
            if !serves(w.ahead, rel, offset as int, end) && !serves(
                w.next,
                rel,
                offset as int,
                end,
            ) {
                lemma_ranged_extends(
                    a,
                    b,
                    meta.extents,
                    0,
                    0,
                    offset as int,
                    pull_end(meta.size, offset, end),
                    Seq::empty(),
                );
            }
        }
    }
}

/// A read that had to wait for the device is taken up again without loss: asked
/// once more, with more read, it gives what it gives a volume that was never
/// asked before.
pub proof fn lemma_read_resumes(
    a: Known,
    b: Known,
    v: RawUdfView,
    rel: Seq<char>,
    offset: u64,
    count: int,
)
    requires
        extends(a, b),
        v.read(a, rel, offset, count).0 is Need,
    ensures
        v.read(a, rel, offset, count).1.read(b, rel, offset, count) == v.read(
            b,
            rel,
            offset,
            count,
        ),
{
    let w = v.remembering(a, rel);
    if let Step::Done(meta) = v.meta(a, rel) {
        lemma_meta_extends(a, b, v, rel);
        assert(w.files.insert(rel, meta) =~= w.files);
        assert(w.remembering(b, rel) == v.remembering(b, rel));
    }
}

/// An answered prefetch is answered alike, and leaves the same state, whatever
/// else was read of the device.
pub proof fn lemma_prefetch_extends(
    a: Known,
    b: Known,
    v: RawUdfView,
    rel: Seq<char>,
    offset: u64,
    count: int,
)
    requires
        extends(a, b),
        !(v.prefetched(a, rel, offset, count).0 is Need),
    ensures
        v.prefetched(b, rel, offset, count) == v.prefetched(a, rel, offset, count),
{
    if !v.has_ahead(rel, offset, count) {
        lemma_meta_extends(a, b, v, rel);
        if let Step::Done(meta) = v.meta(a, rel) {
            if offset < meta.size {
                lemma_ranged_extends(
                    a,
                    b,
                    meta.extents,
                    0,
                    0,
                    offset as int,
                    read_end(meta.size, offset, count),
                    Seq::empty(),
                );
            }
        }
    }
}

// ───────────────────────── questions are new ─────────────────────────

pub open spec fn asks_anew<T>(s: Step<T>, m: Known) -> bool {
    match s {
        Step::Need(q) => !m.dom().contains(q),
        _ => true,
    }
}

proof fn lemma_bytes_asks(m: Known, at: int, count: int)
    ensures
        asks_anew(log::bytes_at(m, at, count), m),
{
    if count != 0 {
        log::lemma_filled_asks(m, log::aligned(at), Seq::empty(), log::covering(at, count));
    }
}

proof fn lemma_spaces_asks(
    m: Known,
    pds: Seq<Partition>,
    maps: Seq<PartMap>,
    done: Seq<Option<SpaceView>>,
)
    ensures
        asks_anew(space::spaces_from(m, pds, maps, done), m),
    decreases maps.len() - done.len(),
{
    if done.len() < maps.len() {
        if let Step::Done(s) = space::map_space(m, pds, maps[done.len() as int]) {
            lemma_spaces_asks(m, pds, maps, done.push(s));
        }
    }
}

proof fn lemma_scanned_asks(m: Known, first: int, i: int, max: int, s: SequenceView)
    ensures
        asks_anew(scanned(m, first, i, max, s), m),
    decreases max - i,
{
    if i < max {
        if let Step::Done(buf) = log::sector(m, first + i) {
            if let Some(p) = super::descriptor::primary_of(buf) {
                let t = SequenceView { primary: Some(p), ..s };
                lemma_scanned_asks(m, first, i + 1, max, t);
            }
            if let Some(p) = super::descriptor::partition_of(buf) {
                let t = SequenceView { partitions: s.partitions.push(p), ..s };
                lemma_scanned_asks(m, first, i + 1, max, t);
            }
            let t = SequenceView { logical: Some(buf), ..s };
            lemma_scanned_asks(m, first, i + 1, max, t);
            lemma_scanned_asks(m, first, i + 1, max, s);
        }
    }
}

/// Opening a volume never asks for a read that was made.
pub proof fn lemma_opened_asks(m: Known, device: Seq<char>)
    ensures
        asks_anew(volume::opened(m, device), m),
{
    if let Step::Done(buf) = log::sector(m, 256) {
        if let Some((length, location)) = super::descriptor::anchor_of(buf) {
            let max = if length < 4096 {
                1
            } else {
                length as int / 2048
            };
            let none = volume::no_descriptors();
            lemma_scanned_asks(m, location as int, 0, max, none);
            if let Step::Done(s) = scanned(m, location as int, 0, max, none) {
                if let Ok(maps) = super::descriptor::maps_of(s.logical->0) {
                    lemma_spaces_asks(m, s.partitions, maps, Seq::empty());
                }
            }
        }
    }
}

proof fn lemma_gathered_asks(
    m: Known,
    runs: Seq<(u64, u32)>,
    i: int,
    got: Seq<u8>,
    want: int,
)
    ensures
        asks_anew(space::gathered(m, runs, i, got, want), m),
    decreases runs.len() - i,
{
    if 0 <= i < runs.len() {
        lemma_bytes_asks(m, runs[i].0 as int, runs[i].1 as int);
        if let Step::Done(s) = log::bytes_at(m, runs[i].0 as int, runs[i].1 as int) {
            lemma_gathered_asks(m, runs, i + 1, got + s, want);
        }
    }
}

/// Reading a directory never asks for a read that was made.
pub proof fn lemma_directory_asks(m: Known, spaces: Seq<Option<SpaceView>>, icb: Icb)
    ensures
        asks_anew(space::directory(m, spaces, icb), m),
{
    if let Step::Done(fe) = space::entry_of(m, spaces, icb) {
        if let Ok(runs) = space::placed(spaces, fe.extents, icb.partition_ref, 0) {
            lemma_gathered_asks(m, runs, 0, Seq::empty(), fe.information_length as int);
        }
    }
}

proof fn lemma_descended_asks(
    m: Known,
    spaces: Seq<Option<SpaceView>>,
    cur: Icb,
    is_dir: bool,
    names: Seq<Seq<char>>,
    depth: int,
)
    ensures
        asks_anew(space::descended(m, spaces, cur, is_dir, names, depth), m),
    decreases names.len() - depth,
{
    if 0 <= depth < names.len() && is_dir {
        lemma_directory_asks(m, spaces, cur);
        if let Step::Done(entries) = space::directory(m, spaces, cur) {
            if let Some(e) = space::entry_named(entries, names[depth]) {
                lemma_descended_asks(m, spaces, e.icb, e.is_directory, names, depth + 1);
            }
        }
    }
}

proof fn lemma_ranged_asks(
    m: Known,
    extents: Seq<(u64, u32)>,
    i: int,
    pos: int,
    offset: int,
    end: int,
    got: Seq<u8>,
)
    ensures
        asks_anew(ranged(m, extents, i, pos, offset, end, got), m),
    decreases extents.len() - i,
{
    if 0 <= i < extents.len() && pos < end {
        let (abs, len) = extents[i];
        if offset >= pos + len {
            lemma_ranged_asks(m, extents, i + 1, pos + len, offset, end, got);
        } else {
            let from = if offset > pos {
                offset - pos
            } else {
                0
            };
            let to = if end < pos + len {
                end - pos
            } else {
                len as int
            };
            lemma_bytes_asks(m, abs + from, to - from);
            if let Step::Done(s) = log::bytes_at(m, abs + from, to - from) {
                lemma_ranged_asks(m, extents, i + 1, pos + len, offset, end, got + s);
            }
        }
    }
}

/// A read of a file never asks the device for what it was asked before.
pub proof fn lemma_read_asks(m: Known, v: RawUdfView, rel: Seq<char>, offset: u64, count: int)
    ensures
        asks_anew(v.read(m, rel, offset, count).0, m),
{
    lemma_descended_asks(
        m,
        v.spaces,
        v.root_icb,
        true,
        text::words(rel, text::Separator::Slash),
        0,
    );
    if let Step::Done(meta) = v.meta(m, rel) {
        let end = read_end(meta.size, offset, count);
        let upto = pull_end(meta.size, offset, end);
        lemma_ranged_asks(m, meta.extents, 0, 0, offset as int, upto, Seq::empty());
    }
}

// ───────────────────────── a read gives the file's bytes ─────────────────────────

/// The bytes of a device under `extents`, one extent after the other.
pub open spec fn content(image: Seq<u8>, extents: Seq<(u64, u32)>) -> Seq<u8>
    decreases extents.len(),
{
    if extents.len() == 0 {
        Seq::empty()
    } else {
        let (abs, len) = extents.last();
        content(image, extents.drop_last()) + clip(image, abs as int, abs + len)
    }
}

/// The extents lie on the device.
pub open spec fn covered(image: Seq<u8>, extents: Seq<(u64, u32)>) -> bool {
    forall|i: int|
        0 <= i < extents.len() ==> (#[trigger] extents[i]).0 + extents[i].1 <= image.len()
}

/// The bytes of a file.
pub open spec fn file_content(image: Seq<u8>, meta: FileMetaView) -> Seq<u8> {
    match meta.embedded {
        Some(data) => data,
        None => content(image, meta.extents),
    }
}

/// The window `w`, if it is one of the file `rel`, holds what the file holds at
/// that place.
pub open spec fn window_faithful(
    v: RawUdfView,
    image: Seq<u8>,
    w: Option<AheadView>,
    rel: Seq<char>,
) -> bool {
    match w {
        None => true,
        Some(a) => a.rel == rel ==> {
            &&& v.files.dom().contains(rel)
            &&& a.buf == clip(
                content(image, v.files[rel].extents),
                a.off as int,
                a.off + a.buf.len(),
            )
        },
    }
}

/// The windows of the file `rel` hold what the device holds.
pub open spec fn windows_faithful(v: RawUdfView, image: Seq<u8>, rel: Seq<char>) -> bool {
    window_faithful(v, image, v.ahead, rel) && window_faithful(v, image, v.next, rel)
}

proof fn lemma_content_prefix(image: Seq<u8>, extents: Seq<(u64, u32)>, i: int)
    requires
        0 <= i <= extents.len(),
    ensures
        content(image, extents.take(i)).is_prefix_of(content(image, extents)),
    decreases extents.len(),
{
    if i < extents.len() {
        lemma_content_prefix(image, extents.drop_last(), i);
        assert(extents.drop_last().take(i) =~= extents.take(i));
    } else {
        assert(extents.take(i) =~= extents);
    }
}

proof fn lemma_ranged_honest(
    m: Known,
    image: Seq<u8>,
    extents: Seq<(u64, u32)>,
    i: int,
    pos: int,
    offset: int,
    end: int,
    got: Seq<u8>,
)
    requires
        honest(m, image),
        clipped(m),
        covered(image, extents),
        space::runs_ok(extents),
        0 <= i <= extents.len(),
        pos == content(image, extents.take(i)).len(),
        0 <= offset <= end,
        got == clip(content(image, extents.take(i)), offset, end),
    ensures
        match ranged(m, extents, i, pos, offset, end, got) {
            Step::Done(b) => b == clip(content(image, extents), offset, end),
            _ => true,
        },
    decreases extents.len() - i,
{
    let so_far = content(image, extents.take(i));
    lemma_content_prefix(image, extents, i);
    if i >= extents.len() {
        assert(extents.take(i) =~= extents);
    } else if end <= pos {
        assert(clip(content(image, extents), offset, end) =~= got);
    } else {
        let (abs, len) = extents[i];
        let part = clip(image, abs as int, abs + len);
        assert(part.len() == len);
        assert(extents.take(i + 1).drop_last() =~= extents.take(i));
        assert(extents.take(i + 1).last() == extents[i]);
        assert(content(image, extents.take(i + 1)) == so_far + part);
        if offset >= pos + len {
            assert(got =~= clip(so_far + part, offset, end));
            lemma_ranged_honest(m, image, extents, i + 1, pos + len, offset, end, got);
        } else {
            let from = if offset > pos {
                offset - pos
            } else {
                0
            };
            let to = if end < pos + len {
                end - pos
            } else {
                len as int
            };
            log::lemma_bytes_honest(m, image, abs + from, to - from);
            if let Step::Done(s) = log::bytes_at(m, abs + from, to - from) {
                assert(s =~= part.subrange(from, to));
                assert(got + s =~= clip(so_far + part, offset, end));
                lemma_ranged_honest(m, image, extents, i + 1, pos + len, offset, end, got + s);
            }
        }
    }
}

/// A read yields the bytes of the file from `offset` on, `count` of them or up
/// to its end, whatever the windows held; and the windows of the file keep
/// holding what the device holds.
pub proof fn lemma_read_honest(
    m: Known,
    image: Seq<u8>,
    v: RawUdfView,
    rel: Seq<char>,
    offset: u64,
    count: int,
)
    requires
        v.wf(),
        honest(m, image),
        clipped(m),
        count >= 0,
        windows_faithful(v, image, rel),
        match v.meta(m, rel) {
            Step::Done(meta) => covered(image, meta.extents) && space::runs_ok(meta.extents),
            _ => true,
        },
    ensures
        windows_faithful(v.read(m, rel, offset, count).1, image, rel),
        match (v.read(m, rel, offset, count).0, v.meta(m, rel)) {
            (Step::Done(b), Step::Done(meta)) => b == clip(
                file_content(image, meta),
                offset as int,
                read_end(meta.size, offset, count),
            ),
            (Step::Done(b), _) => false,
            _ => true,
        },
{
    let w = v.remembering(m, rel);
    if let Step::Done(meta) = v.meta(m, rel) {
        let whole = file_content(image, meta);
        let end = read_end(meta.size, offset, count);
        assert(w.files[rel] == meta);
        if offset >= meta.size || count == 0 {
            assert(clip(whole, offset as int, end) =~= Seq::<u8>::empty());
        } else if meta.embedded is Some {
        } else if serves(w.ahead, rel, offset as int, end) {
            assert(served(w.ahead, offset as int, end) =~= clip(whole, offset as int, end));
        } else if serves(w.next, rel, offset as int, end) {
            assert(served(w.next, offset as int, end) =~= clip(whole, offset as int, end));
        } else {
            let upto = pull_end(meta.size, offset, end);
            assert(meta.extents.take(0) =~= Seq::<(u64, u32)>::empty());
            assert(clip(Seq::<u8>::empty(), offset as int, upto) =~= Seq::<u8>::empty());
            lemma_ranged_honest(
                m,
                image,
                meta.extents,
                0,
                0,
                offset as int,
                upto,
                Seq::empty(),
            );
            if let Step::Done(buf) = ranged(
                m,
                meta.extents,
                0,
                0,
                offset as int,
                upto,
                Seq::empty(),
            ) {
                assert(buf =~= clip(whole, offset as int, offset + buf.len()));
                assert(clip(buf, 0, end - offset) =~= clip(whole, offset as int, end));
            }
        }
    }
}

/// A volume that was just opened has no windows, so they are true.
pub proof fn lemma_opened_honest(
    m: Known,
    image: Seq<u8>,
    device: Seq<char>,
    rel: Seq<char>,
)
    ensures
        match volume::opened(m, device) {
            Step::Done(v) => windows_faithful(v, image, rel),
            _ => true,
        },
{
}

/// A read or a prefetch of another file, whatever became of it, keeps the windows
/// of a file true.
pub proof fn lemma_others_keep_windows(
    m: Known,
    image: Seq<u8>,
    v: RawUdfView,
    rel: Seq<char>,
    other: Seq<char>,
    offset: u64,
    count: int,
)
    requires
        windows_faithful(v, image, rel),
        other != rel,
    ensures
        windows_faithful(v.read(m, other, offset, count).1, image, rel),
        windows_faithful(v.prefetched(m, other, offset, count).1, image, rel),
{
}

/// Fetching ahead keeps the windows of the file true to the device.
pub proof fn lemma_prefetch_honest(
    m: Known,
    image: Seq<u8>,
    v: RawUdfView,
    rel: Seq<char>,
    offset: u64,
    count: int,
)
    requires
        v.wf(),
        honest(m, image),
        clipped(m),
        count >= 0,
        windows_faithful(v, image, rel),
        match v.meta(m, rel) {
            Step::Done(meta) => covered(image, meta.extents) && space::runs_ok(meta.extents),
            _ => true,
        },
    ensures
        windows_faithful(v.prefetched(m, rel, offset, count).1, image, rel),
{
    if !v.has_ahead(rel, offset, count) {
        if let Step::Done(meta) = v.meta(m, rel) {
            if offset < meta.size {
                let upto = read_end(meta.size, offset, count);
                assert(meta.extents.take(0) =~= Seq::<(u64, u32)>::empty());
                assert(clip(Seq::<u8>::empty(), offset as int, upto) =~= Seq::<u8>::empty());
                lemma_ranged_honest(
                    m,
                    image,
                    meta.extents,
                    0,
                    0,
                    offset as int,
                    upto,
                    Seq::empty(),
                );
                if let Step::Done(buf) = ranged(
                    m,
                    meta.extents,
                    0,
                    0,
                    offset as int,
                    upto,
                    Seq::empty(),
                ) {
                    let whole = content(image, meta.extents);
                    assert(buf =~= clip(whole, offset as int, offset + buf.len()));
                }
            }
        }
    }
}

/// A read inside the window that was fetched ahead is answered without the
/// device, and makes that window the current one.
pub proof fn lemma_prefetch_promoted(
    a: Known,
    b: Known,
    v: RawUdfView,
    rel: Seq<char>,
    offset: u64,
    count: int,
    at: u64,
    n: int,
)
    requires
        !v.has_ahead(rel, offset, count),
        v.meta(a, rel) matches Step::Done(meta) && meta.embedded is None && offset < meta.size && at
            < meta.size && n > 0 && serves(
            v.prefetched(a, rel, offset, count).1.next,
            rel,
            at as int,
            read_end(meta.size, at, n),
        ) && !serves(v.ahead, rel, at as int, read_end(meta.size, at, n)),
        v.prefetched(a, rel, offset, count).0 is Done,
    ensures
        ({
            let w = v.prefetched(a, rel, offset, count).1;
            let end = read_end(v.meta(a, rel)->Done_0.size, at, n);
            w.read(b, rel, at, n) == (
                Step::Done(served(w.next, at as int, end)),
                (RawUdfView { ahead: w.next, next: None, ..w }),
            )
        }),
{
    let w = v.prefetched(a, rel, offset, count).1;
    let meta = v.meta(a, rel)->Done_0;
    assert(w.files.dom().contains(rel) && w.files[rel] == meta);
    assert(w.files.insert(rel, meta) =~= w.files);
    assert(w.remembering(b, rel) =~= w);
}

/// A read inside the current window is answered without the device, and changes
/// nothing.
pub proof fn lemma_window_serves(
    m: Known,
    v: RawUdfView,
    rel: Seq<char>,
    offset: u64,
    count: int,
)
    requires
        v.files.dom().contains(rel),
        v.files[rel].embedded is None,
        offset < v.files[rel].size,
        count > 0,
        serves(v.ahead, rel, offset as int, read_end(v.files[rel].size, offset, count)),
    ensures
        v.read(m, rel, offset, count) == (
            Step::Done(
                served(v.ahead, offset as int, read_end(v.files[rel].size, offset, count)),
            ),
            v,
        ),
{
    assert(v.files.insert(rel, v.files[rel]) =~= v.files);
    assert(v.remembering(m, rel) =~= v);
}

// ───────────────────────── names in whichever case ─────────────────────────

pub open spec fn lowered(v: Seq<Seq<char>>) -> Seq<Seq<char>> {
    v.map_values(|t: Seq<char>| text::lower(t))
}

proof fn lemma_split_lower(s: Seq<char>)
    ensures
        text::split_state(text::lower(s), text::Separator::Slash).0 == lowered(
            text::split_state(s, text::Separator::Slash).0,
        ),
        text::split_state(text::lower(s), text::Separator::Slash).1 == text::lower(
            text::split_state(s, text::Separator::Slash).1,
        ),
    decreases s.len(),
{
    let sep = text::Separator::Slash;
    let low = text::lower(s);
    if s.len() > 0 {
        lemma_split_lower(s.drop_last());
        assert(low.drop_last() =~= text::lower(s.drop_last()));
        let (a, b) = text::split_state(s.drop_last(), sep);
        assert(low.last() == text::lower_char(s.last()));
        assert(text::separates(sep, low.last()) == text::separates(sep, s.last()));
        assert(lowered(a.push(b)) =~= lowered(a).push(text::lower(b)));
        assert(text::lower(b.push(s.last())) =~= text::lower(b).push(low.last()));
    }
    assert(text::split_state(low, sep).0 =~= lowered(text::split_state(s, sep).0));
    assert(text::split_state(low, sep).1 =~= text::lower(text::split_state(s, sep).1));
}

proof fn lemma_filter_lower(v: Seq<Seq<char>>)
    ensures
        text::non_empty(lowered(v)) == lowered(text::non_empty(v)),
    decreases v.len(),
{
    reveal(Seq::filter);
    let p = |t: Seq<char>| t.len() > 0;
    if v.len() > 0 {
        let d = v.drop_last();
        lemma_filter_lower(d);
        assert(lowered(v).drop_last() =~= lowered(d));
        assert(lowered(v).last() == text::lower(v.last()));
        assert(text::lower(v.last()).len() == v.last().len());
        assert(text::non_empty(v) == v.filter(p));
        assert(text::non_empty(d) == d.filter(p));
        assert(lowered(d.filter(p).push(v.last())) =~= lowered(d.filter(p)).push(
            text::lower(v.last()),
        ));
    }
    assert(text::non_empty(lowered(v)) =~= lowered(text::non_empty(v)));
}

proof fn lemma_words_lower(s: Seq<char>)
    ensures
        text::words(text::lower(s), text::Separator::Slash) == lowered(
            text::words(s, text::Separator::Slash),
        ),
{
    let sep = text::Separator::Slash;
    lemma_split_lower(s);
    let (a, b) = text::split_state(s, sep);
    assert(lowered(a.push(b)) =~= lowered(a).push(text::lower(b)));
    lemma_filter_lower(text::pieces(s, sep));
}

proof fn lemma_entry_named_lower(
    entries: Seq<space::DirEntryView>,
    a: Seq<char>,
    b: Seq<char>,
)
    requires
        text::lower(a) == text::lower(b),
    ensures
        space::entry_named(entries, a) == space::entry_named(entries, b),
    decreases entries.len(),
{
    if entries.len() > 0 {
        lemma_entry_named_lower(entries.skip(1), a, b);
    }
}

proof fn lemma_descended_lower(
    m: Known,
    spaces: Seq<Option<SpaceView>>,
    cur: Icb,
    is_dir: bool,
    a: Seq<Seq<char>>,
    b: Seq<Seq<char>>,
    depth: int,
)
    requires
        lowered(a) == lowered(b),
    ensures
        space::descended(m, spaces, cur, is_dir, a, depth) == space::descended(
            m,
            spaces,
            cur,
            is_dir,
            b,
            depth,
        ),
    decreases a.len() - depth,
{
    assert(a.len() == lowered(a).len());
    assert(b.len() == lowered(b).len());
    if 0 <= depth < a.len() && is_dir {
        assert(lowered(a)[depth] == text::lower(a[depth]));
        assert(lowered(b)[depth] == text::lower(b[depth]));
        if let Step::Done(entries) = space::directory(m, spaces, cur) {
            lemma_entry_named_lower(entries, a[depth], b[depth]);
            if let Some(e) = space::entry_named(entries, a[depth]) {
                lemma_descended_lower(m, spaces, e.icb, e.is_directory, a, b, depth + 1);
            }
        }
    }
}

/// Two paths that differ in case alone lead to the same place, or fail alike.
pub proof fn lemma_lookup_ignores_case(m: Known, v: RawUdfView, a: Seq<char>, b: Seq<char>)
    requires
        text::lower(a) == text::lower(b),
    ensures
        v.lookup(m, a) == v.lookup(m, b),
{
    lemma_words_lower(a);
    lemma_words_lower(b);
    lemma_descended_lower(
        m,
        v.spaces,
        v.root_icb,
        true,
        text::words(a, text::Separator::Slash),
        text::words(b, text::Separator::Slash),
        0,
    );
}

} // verus!
