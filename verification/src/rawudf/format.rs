//! What the descriptors and directories of a volume say, and where paths lead.

use vstd::prelude::*;

use super::descriptor::{
    identifier_of, le16, le32, le64, map_of, maps_from, maps_of, Extent, Icb, PartMap,
    Partition,
};
use super::log;
use super::log::{Known, Step, UdfError};
use super::place::recorded;
use super::space::{
    descended, directory, entries_from, entry_at, entry_named, found, map_space, numbered,
    physical_runs, spaces_from, spaces_of, DirEntryView, SpaceView,
};
use super::volume::{label_of, opened, scanned, volume_of, RawUdfView, SequenceView};
use crate::text;
use crate::text::law::{alike, lemma_case, unbroken};

verus! {

broadcast use vstd::string::group_string_axioms;

// ───────────────────────── numbers ─────────────────────────

/// Numbers are recorded with their lowest byte first: each byte counts 256 times
/// as much as the one before it.
pub proof fn lemma_little_endian(b: Seq<u8>, at: int)
    ensures
        le16(b, at) == b[at] + 256 * b[at + 1],
        le32(b, at) == b[at] + 256 * (b[at + 1] + 256 * (b[at + 2] + 256 * b[at + 3])),
        le64(b, at) == b[at] + 256 * (b[at + 1] + 256 * (b[at + 2] + 256 * (b[at + 3] + 256 * (
        b[at + 4] + 256 * (b[at + 5] + 256 * (b[at + 6] + 256 * b[at + 7])))))),
        0 <= le16(b, at) < 0x1_0000,
        0 <= le32(b, at) < 0x1_0000_0000,
{
}

// ───────────────────────── partition maps ─────────────────────────

/// A partition map is physical, and then tells its partition; or it is that of a
/// metadata file, if its identifier says so, and then tells its partition and the
/// places of the file and of its mirror; or it is of no use.
pub proof fn lemma_map(e: Seq<u8>, i: int)
    requires
        e.len() >= 2,
    ensures
        e[0] == 1 && e.len() >= 6 ==> map_of(e) == (PartMap::Type1 {
            partition_number: (e[4] + 256 * e[5]) as u16,
        }),
        e[0] == 2 && e.len() >= 64 && 5 <= i <= 28 && e.subrange(i, i + 8) == seq![
            0x4du8,
            0x65,
            0x74,
            0x61,
            0x64,
            0x61,
            0x74,
            0x61,
        ] ==> map_of(e) == (PartMap::Metadata {
            physical_partition_number: (e[38] + 256 * e[39]) as u16,
            metadata_file_loc: (e[40] + 0x100 * e[41] + 0x1_0000 * e[42] + 0x100_0000 * e[43]) as u32,
            mirror_file_loc: (e[44] + 0x100 * e[45] + 0x1_0000 * e[46] + 0x100_0000 * e[47]) as u32,
        }),
        e[0] != 1 && e[0] != 2 ==> map_of(e) == PartMap::Other,
{
    if e[0] == 2 && e.len() >= 64 && 5 <= i <= 28 && e.subrange(i, i + 8) == seq![
        0x4du8,
        0x65,
        0x74,
        0x61,
        0x64,
        0x61,
        0x74,
        0x61,
    ] {
        let regid = e.subrange(4, 36);
        assert(regid.subrange(i - 4, i - 4 + 8) =~= e.subrange(i, i + 8));
        assert(super::descriptor::metadata_word() =~= e.subrange(i, i + 8));
        assert(super::descriptor::metadata_ident(regid));
    }
}

proof fn lemma_maps_shift(a: Seq<u8>, b: Seq<u8>, off: int, index: int, count: int)
    requires
        0 <= off,
    ensures
        match maps_from(b, off, index, count) {
            Ok(v) => maps_from(a + b, a.len() + off, index + 1, count + 1) == Ok::<
                Seq<PartMap>,
                UdfError,
            >(v),
            Err(_) => maps_from(a + b, a.len() + off, index + 1, count + 1) is Err,
        },
    decreases count - index,
{
    let t = a + b;
    if index < count && off + 2 <= b.len() {
        assert(t[a.len() + off + 1] == b[off + 1]);
        let len = b[off + 1];
        if len >= 2 && off + len <= b.len() {
            lemma_maps_shift(a, b, off + len, index + 1, count);
            assert(t.subrange(a.len() + off, a.len() + off + len) =~= b.subrange(off, off + len));
        }
    }
}

/// The maps of a table are its entries, one behind the other, each as long as it
/// says.
pub proof fn lemma_maps(e: Seq<u8>, rest: Seq<u8>, count: int)
    requires
        2 <= e.len() <= 255,
        e[1] == e.len(),
        count >= 0,
    ensures
        match maps_from(rest, 0, 0, count) {
            Ok(v) => maps_from(e + rest, 0, 0, count + 1) == Ok::<Seq<PartMap>, UdfError>(
                seq![map_of(e)] + v,
            ),
            Err(_) => maps_from(e + rest, 0, 0, count + 1) is Err,
        },
        maps_from(rest, 0, 0, 0) == Ok::<Seq<PartMap>, UdfError>(Seq::empty()),
{
    let t = e + rest;
    assert(t[1] == e[1]);
    assert(t.subrange(0, e.len() as int) =~= e);
    lemma_maps_shift(e, rest, 0, 0, count);
}

/// The table of maps stands at byte 440 of its descriptor, which tells the table's
/// length at byte 264 and the number of its maps at byte 268.
pub proof fn lemma_map_table(lvd: Seq<u8>, table: Seq<u8>)
    requires
        lvd.len() >= 440 + table.len(),
        lvd.subrange(440, (440 + table.len()) as int) == table,
        lvd[264] + 0x100 * lvd[265] + 0x1_0000 * lvd[266] + 0x100_0000 * lvd[267] == table.len(),
    ensures
        maps_of(lvd) == maps_from(
            table,
            0,
            0,
            lvd[268] + 0x100 * lvd[269] + 0x1_0000 * lvd[270] + 0x100_0000 * lvd[271],
        ),
{
    if 440 + table.len() == lvd.len() {
        assert(lvd.subrange(440, lvd.len() as int) =~= table);
    }
}

// ───────────────────────── spaces ─────────────────────────

/// A partition is found by its number: the first that has it.
pub proof fn lemma_numbered(pds: Seq<Partition>, number: u16)
    ensures
        match numbered(pds, number) {
            Some(p) => p.number == number && exists|k: int|
                0 <= k < pds.len() && #[trigger] pds[k] == p && forall|j: int|
                    0 <= j < k ==> (#[trigger] pds[j]).number != number,
            None => forall|j: int| 0 <= j < pds.len() ==> (#[trigger] pds[j]).number != number,
        },
    decreases pds.len(),
{
    if pds.len() > 0 {
        if pds[0].number == number {
            assert(pds[0] == numbered(pds, number)->0);
        } else {
            let r = pds.skip(1);
            lemma_numbered(r, number);
            match numbered(pds, number) {
                Some(p) => {
                    let k = choose|k: int|
                        0 <= k < r.len() && #[trigger] r[k] == p && forall|j: int|
                            0 <= j < k ==> (#[trigger] r[j]).number != number;
                    assert(pds[k + 1] == p);
                    assert forall|j: int| 0 <= j < k + 1 implies (#[trigger] pds[j]).number
                        != number by {
                        if j > 0 {
                            assert(r[j - 1] == pds[j]);
                        }
                    }
                },
                None => {
                    assert forall|j: int| 0 <= j < pds.len() implies (#[trigger] pds[j]).number
                        != number by {
                        if j > 0 {
                            assert(r[j - 1] == pds[j]);
                        }
                    }
                },
            }
        }
    }
}

proof fn lemma_spaces_from(
    m: Known,
    pds: Seq<Partition>,
    maps: Seq<PartMap>,
    done: Seq<Option<SpaceView>>,
)
    requires
        done.len() <= maps.len(),
    ensures
        spaces_from(m, pds, maps, done) matches Step::Done(s) ==> s.len() == maps.len()
            && done.is_prefix_of(s) && forall|i: int|
            done.len() <= i < maps.len() ==> map_space(m, pds, #[trigger] maps[i]) == Step::Done(
                s[i],
            ),
    decreases maps.len() - done.len(),
{
    if done.len() < maps.len() {
        let k = done.len() as int;
        if let Step::Done(x) = map_space(m, pds, maps[k]) {
            lemma_spaces_from(m, pds, maps, done.push(x));
            if let Step::Done(s) = spaces_from(m, pds, maps, done) {
                let t = s.take(k + 1);
                assert(t == done.push(x));
                assert(s[k] == t[k]);
                assert(s.take(k) =~= t.take(k));
                assert(t.take(k) =~= done);
                assert forall|i: int| k <= i < maps.len() implies map_space(m, pds, #[trigger] maps[i])
                    == Step::Done(s[i]) by {}
            }
        }
    } else {
        assert(done.take(done.len() as int) =~= done);
    }
}

/// What a partition reference stands for: that of a physical map for the partition
/// with the map's number, and that of a metadata map for the recorded extents of
/// the metadata file in its partition; the mirror is used where the file itself
/// cannot be had. Without maps there is one space, for the file set.
pub proof fn lemma_spaces(
    m: Known,
    pds: Seq<Partition>,
    maps: Seq<PartMap>,
    fsd_ref: u16,
    i: int,
)
    requires
        spaces_of(m, pds, maps, fsd_ref) is Done,
    ensures
        ({
            let s = spaces_of(m, pds, maps, fsd_ref)->Done_0;
            &&& fsd_ref < s.len() && s[fsd_ref as int] is Some
            &&& maps.len() > 0 ==> s.len() == maps.len()
            &&& 0 <= i < maps.len() ==> match maps[i] {
                PartMap::Other => s[i] is None,
                PartMap::Type1 { partition_number } => numbered(pds, partition_number) matches Some(
                    pd,
                ) && s[i] == Some(SpaceView::Physical { start: pd.start as u64 }),
                PartMap::Metadata {
                    physical_partition_number,
                    metadata_file_loc,
                    mirror_file_loc,
                } => {
                    &&& numbered(pds, physical_partition_number) is Some
                    &&& s[i] matches Some(SpaceView::Metadata { extents })
                    &&& ({
                        let pd = numbered(pds, physical_partition_number)->0;
                        let main = entry_at(m, pd.start + metadata_file_loc);
                        let mirror = entry_at(m, pd.start + mirror_file_loc);
                        let extents = s[i]->0->extents;
                        ||| main matches Step::Done(fe) && extents == physical_runs(
                            fe.extents,
                            pd.start as int,
                        )
                        ||| main is Fail && (mirror matches Step::Done(fe) && extents
                            == physical_runs(fe.extents, pd.start as int))
                    })
                },
            }
            &&& maps.len() == 0 && numbered(pds, fsd_ref) is Some ==> s[fsd_ref as int] == Some(
                SpaceView::Physical { start: numbered(pds, fsd_ref)->0.start as u64 },
            )
            &&& maps.len() == 0 && numbered(pds, fsd_ref) is None && pds.len() > 0
                ==> s[fsd_ref as int] == Some(
                SpaceView::Physical { start: pds.last().start as u64 },
            )
        }),
{
    if maps.len() > 0 {
        lemma_spaces_from(m, pds, maps, Seq::empty());
    }
}

/// The runs of a metadata file are its recorded extents, in order, each so many
/// sectors behind the start of the partition.
pub proof fn lemma_physical_runs(extents: Seq<Extent>, start: int, i: int)
    requires
        0 <= start <= u32::MAX,
        0 <= i <= extents.len(),
    ensures
        physical_runs(extents, start).len() == recorded(extents, extents.len() as int),
        i < extents.len() && extents[i].kind == 0 ==> {
            let run = physical_runs(extents, start)[recorded(extents, i)];
            &&& 0 <= recorded(extents, i) < physical_runs(extents, start).len()
            &&& run.0 == start + extents[i].block && run.1 == extents[i].length
        },
    decreases extents.len(),
{
    if extents.len() > 0 {
        let d = extents.drop_last();
        let n = extents.len() as int;
        lemma_physical_runs(
            d,
            start,
            if i < n - 1 {
                i
            } else {
                0
            },
        );
        lemma_recorded_same(extents, d, n - 1);
        if i < n - 1 {
            lemma_recorded_same(extents, d, i);
            assert(d[i] == extents[i]);
        }
        lemma_recorded_positive(extents, n - 1);
    }
}

proof fn lemma_recorded_positive(extents: Seq<Extent>, k: int)
    ensures
        recorded(extents, k) >= 0,
    decreases k,
{
    if k > 0 {
        lemma_recorded_positive(extents, k - 1);
    }
}

proof fn lemma_recorded_same(a: Seq<Extent>, b: Seq<Extent>, k: int)
    requires
        k <= b.len() <= a.len(),
        forall|i: int| 0 <= i < b.len() ==> #[trigger] b[i] == a[i],
    ensures
        recorded(a, k) == recorded(b, k),
    decreases k,
{
    if k > 0 {
        lemma_recorded_same(a, b, k - 1);
    }
}

// ───────────────────────── directories ─────────────────────────

/// The entries of a directory are its records, in order, without those that are
/// deleted or stand for the parent. Each has the name and the place of its record,
/// and is a directory if the record says so.
pub proof fn lemma_entries(raw: Seq<u8>, at: int)
    requires
        0 <= at,
    ensures
        at + 38 > raw.len() ==> entries_from(raw, at) == Ok::<Seq<DirEntryView>, UdfError>(
            Seq::empty(),
        ),
        at + 38 <= raw.len() ==> match identifier_of(raw.skip(at)) {
            None => entries_from(raw, at) == Err::<Seq<DirEntryView>, UdfError>(
                UdfError::BadIdentifier { at: at as u64 },
            ),
            Some(d) => match entries_from(raw, at + d.total_size) {
                Err(e) => entries_from(raw, at) == Err::<Seq<DirEntryView>, UdfError>(e),
                Ok(rest) => entries_from(raw, at) == Ok::<Seq<DirEntryView>, UdfError>(
                    if d.characteristics as int / 4 % 2 == 1 || d.characteristics as int / 8 % 2
                        == 1 {
                        rest
                    } else {
                        seq![
                            DirEntryView {
                                name: d.name,
                                icb: d.icb,
                                is_directory: d.characteristics as int / 2 % 2 == 1,
                            },
                        ] + rest
                    },
                ),
            },
        },
{
    if at + 38 <= raw.len() {
        if let Some(d) = identifier_of(raw.skip(at)) {
            let c = d.characteristics;
            assert((c & 0x02 != 0) == (c / 2 % 2 == 1)) by (bit_vector);
            assert((c & 0x04 != 0) == (c / 4 % 2 == 1)) by (bit_vector);
            assert((c & 0x08 != 0) == (c / 8 % 2 == 1)) by (bit_vector);
        }
    }
}

/// A name is that of the first entry that has it, in whichever case.
pub proof fn lemma_entry_named(entries: Seq<DirEntryView>, name: Seq<char>)
    ensures
        match entry_named(entries, name) {
            Some(e) => exists|k: int|
                0 <= k < entries.len() && #[trigger] entries[k] == e && alike(entries[k].name, name)
                    && forall|j: int| 0 <= j < k ==> !alike((#[trigger] entries[j]).name, name),
            None => forall|j: int|
                0 <= j < entries.len() ==> !alike((#[trigger] entries[j]).name, name),
        },
    decreases entries.len(),
{
    if entries.len() > 0 {
        lemma_case(entries[0].name, name);
        if alike(entries[0].name, name) {
            assert(entries[0] == entry_named(entries, name)->0);
        } else {
            let r = entries.skip(1);
            lemma_entry_named(r, name);
            match entry_named(entries, name) {
                Some(e) => {
                    let k = choose|k: int|
                        0 <= k < r.len() && #[trigger] r[k] == e && alike(r[k].name, name) && forall|
                            j: int,
                        |
                            0 <= j < k ==> !alike((#[trigger] r[j]).name, name);
                    assert(entries[k + 1] == e);
                    assert forall|j: int| 0 <= j < k + 1 implies !alike(
                        (#[trigger] entries[j]).name,
                        name,
                    ) by {
                        if j > 0 {
                            assert(r[j - 1] == entries[j]);
                        }
                    }
                },
                None => {
                    assert forall|j: int| 0 <= j < entries.len() implies !alike(
                        (#[trigger] entries[j]).name,
                        name,
                    ) by {
                        if j > 0 {
                            assert(r[j - 1] == entries[j]);
                        }
                    }
                },
            }
        }
    }
}

/// Both come to the same, but for where they failed.
pub open spec fn same_end(a: Step<Icb>, b: Step<Icb>) -> bool {
    match (a, b) {
        (Step::Done(x), Step::Done(y)) => x == y,
        (Step::Need(p), Step::Need(q)) => p == q,
        (Step::Fail(_), Step::Fail(_)) => true,
        _ => false,
    }
}

proof fn lemma_descended_shift(
    m: Known,
    spaces: Seq<Option<SpaceView>>,
    cur: Icb,
    is_dir: bool,
    n: Seq<char>,
    w: Seq<Seq<char>>,
    k: int,
)
    requires
        0 <= k,
    ensures
        same_end(
            descended(m, spaces, cur, is_dir, seq![n] + w, k + 1),
            descended(m, spaces, cur, is_dir, w, k),
        ),
    decreases w.len() - k,
{
    let v = seq![n] + w;
    if k < w.len() && is_dir {
        assert(v[k + 1] == w[k]);
        if let Step::Done(entries) = directory(m, spaces, cur) {
            if let Some(e) = entry_named(entries, w[k]) {
                lemma_descended_shift(m, spaces, e.icb, e.is_directory, n, w, k + 1);
            }
        }
    }
}

/// A path leads from a directory to the entry that its first name is that of, and
/// on from there with the rest of the path. The path without names leads nowhere
/// else, and below a file there is nothing.
pub proof fn lemma_path_leads(
    m: Known,
    spaces: Seq<Option<SpaceView>>,
    root: Icb,
    n: Seq<char>,
    rest: Seq<char>,
    entries: Seq<DirEntryView>,
)
    requires
        n.len() > 0,
        unbroken(n, text::Separator::Slash),
        directory(m, spaces, root) == Step::Done(entries),
    ensures
        found(m, spaces, root, Seq::empty()) == Step::<Icb>::Done(root),
        match entry_named(entries, n) {
            None => found(m, spaces, root, n.push('/') + rest) == Step::<Icb>::Fail(
                UdfError::NotFound { depth: 0 },
            ) && found(m, spaces, root, n) == Step::<Icb>::Fail(UdfError::NotFound { depth: 0 }),
            Some(e) => {
                &&& found(m, spaces, root, n) == Step::<Icb>::Done(e.icb)
                &&& e.is_directory ==> same_end(
                    found(m, spaces, root, n.push('/') + rest),
                    found(m, spaces, e.icb, rest),
                )
                &&& !e.is_directory && text::words(rest, text::Separator::Slash).len() > 0
                    ==> found(m, spaces, root, n.push('/') + rest) == Step::<Icb>::Fail(
                    UdfError::IntoFile { depth: 1 },
                )
            },
        },
{
    let sep = text::Separator::Slash;
    let none = Seq::<char>::empty();
    text::law::lemma_words(none, '/', none, sep);
    text::law::lemma_words(n, '/', rest, sep);
    let w = text::words(rest, sep);
    let one = seq![n];
    let v = seq![n] + w;
    assert(text::words(n.push('/') + rest, sep) == v);
    assert(v[0] == n);
    if let Some(e) = entry_named(entries, n) {
        assert(descended(m, spaces, e.icb, e.is_directory, one, 1) == Step::<Icb>::Done(e.icb));
        assert(one[0] == n);
        assert(descended(m, spaces, root, true, one, 0) == Step::<Icb>::Done(e.icb));
        assert(descended(m, spaces, root, true, v, 0) == descended(
            m,
            spaces,
            e.icb,
            e.is_directory,
            v,
            1,
        ));
        if !e.is_directory && w.len() > 0 {
            assert(descended(m, spaces, e.icb, false, v, 1) == Step::<Icb>::Fail(
                UdfError::IntoFile { depth: 1 },
            ));
        }
        if e.is_directory {
            lemma_descended_shift(m, spaces, e.icb, true, n, w, 0);
        }
    }
}

// ───────────────────────── the volume ─────────────────────────

/// A volume is called by its own name, unless that is blank.
pub proof fn lemma_volume_label(name: Seq<char>)
    ensures
        text::trimmed(name).len() > 0 ==> label_of(name) == name,
        text::trimmed(name).len() == 0 ==> label_of(name) == "BluRay"@,
{
}

/// A volume that was opened has the device that was asked for, and its root where
/// its File Set Descriptor says; nothing was looked up or read ahead yet. Its
/// blocks have the size of a sector. It was found by way of the anchor in sector
/// 256.
pub proof fn lemma_opened(m: Known, device: Seq<char>)
    requires
        opened(m, device) is Done,
    ensures
        ({
            let v = opened(m, device)->Done_0;
            &&& v.device == device
            &&& v.files == Map::<Seq<char>, super::volume::FileMetaView>::empty()
            &&& v.ahead is None && v.next is None
            &&& log::sector(m, 256) matches Step::Done(b) && super::descriptor::anchor_of(b) is Some
        }),
{
}

/// The sector after the ones so far is a descriptor of a partition, of the volume's
/// name or of the logical volume, and is taken in; a later name or logical volume
/// takes the place of an earlier one, and partitions add up. A terminating
/// descriptor ends the sequence, and any other sector is passed over.
pub proof fn lemma_sequence(m: Known, first: int, i: int, max: int, s: SequenceView, b: Seq<u8>)
    requires
        i < max,
        log::sector(m, first + i) == Step::Done(b),
        b.len() == 2048,
    ensures
        ({
            let id = b[0] + 256 * b[1];
            let next = |t: SequenceView| scanned(m, first, i + 1, max, t);
            let now = scanned(m, first, i, max, s);
            &&& id == 8 ==> now == Step::Done(s)
            &&& id != 1 && id != 5 && id != 6 && id != 8 ==> now == next(s)
            &&& id == 5 && super::descriptor::partition_of(b) is Some ==> now == next(
                SequenceView {
                    partitions: s.partitions.push(super::descriptor::partition_of(b)->0),
                    primary: s.primary,
                    logical: s.logical,
                },
            )
            &&& id == 1 && super::descriptor::primary_of(b) is Some ==> now == next(
                SequenceView {
                    partitions: s.partitions,
                    primary: super::descriptor::primary_of(b),
                    logical: s.logical,
                },
            )
            &&& id == 6 && super::descriptor::logical_of(b) is Some ==> now == next(
                SequenceView {
                    partitions: s.partitions,
                    primary: s.primary,
                    logical: Some(b),
                },
            )
        }),
{
}

/// The descriptors make up a volume: with a name, a logical volume whose blocks
/// have the size of a sector, a partition, maps that can be read, spaces for them,
/// and a File Set Descriptor where the logical volume says. Its root is where that
/// descriptor says. Blocks of another size are refused.
pub proof fn lemma_volume_opens(
    m: Known,
    device: Seq<char>,
    s: SequenceView,
    maps: Seq<PartMap>,
    spaces: Seq<Option<SpaceView>>,
    lba: u64,
    b: Seq<u8>,
    root: Icb,
)
    requires
        s.primary is Some,
        s.logical is Some,
        s.partitions.len() > 0,
        maps_of(s.logical->0) == Ok::<Seq<PartMap>, UdfError>(maps),
    ensures
        ({
            let lv = super::descriptor::logical_of(s.logical->0)->0;
            let at = lv.file_set;
            let v = volume_of(m, device, s);
            &&& lv.block_size != 2048 ==> v == Step::<RawUdfView>::Fail(
                UdfError::BlockSize { size: lv.block_size },
            )
            &&& lv.block_size == 2048 && spaces_of(m, s.partitions, maps, at.partition_ref)
                == Step::Done(spaces) && super::space::resolved(
                spaces,
                at.partition_ref,
                at.block,
            ) == Ok::<u64, UdfError>(lba) && log::sector(m, lba as int) == Step::Done(b)
                && super::descriptor::file_set_of(b) == Some(root) ==> v is Done
                && v->Done_0.spaces == spaces && v->Done_0.root_icb == root && v->Done_0.label
                == label_of(s.primary->0) && v->Done_0.device == device
        }),
{
}

/// The anchor tells where the descriptors are, and how many sectors of them there
/// are; there is at least one.
pub proof fn lemma_anchor_leads(m: Known, device: Seq<char>, b: Seq<u8>, length: u32, location: u32)
    requires
        log::sector(m, 256) == Step::Done(b),
        super::descriptor::anchor_of(b) == Some((length, location)),
    ensures
        match scanned(
            m,
            location as int,
            0,
            vstd::math::max(1, length as int / 2048),
            SequenceView { primary: None, partitions: Seq::empty(), logical: None },
        ) {
            Step::Done(s) => opened(m, device) == volume_of(m, device, s),
            Step::Need(q) => opened(m, device) == Step::<RawUdfView>::Need(q),
            Step::Fail(e) => opened(m, device) == Step::<RawUdfView>::Fail(e),
        },
{
}

// ───────────────────────── descriptors ─────────────────────────

/// The two bytes at `at`, the lower first.
pub open spec fn two(b: Seq<u8>, at: int) -> int {
    b[at] + 256 * b[at + 1]
}

/// The four bytes at `at`, the lowest first.
pub open spec fn four(b: Seq<u8>, at: int) -> int {
    b[at] + 256 * (b[at + 1] + 256 * (b[at + 2] + 256 * b[at + 3]))
}

/// The sum of the bytes of a tag but for its checksum.
pub open spec fn tag_sum(b: Seq<u8>) -> int {
    b[0] + b[1] + b[2] + b[3] + b[5] + b[6] + b[7] + b[8] + b[9] + b[10] + b[11] + b[12] + b[13]
        + b[14] + b[15]
}

/// The bytes start with the tag of a descriptor of this kind: its number stands
/// first, its reserved byte is zero, and its checksum is right.
pub open spec fn has_tag(b: Seq<u8>, id: int) -> bool {
    b.len() >= 16 && two(b, 0) == id && b[5] == 0 && tag_sum(b) % 256 == b[4]
}

proof fn lemma_tagged(b: Seq<u8>, id: u16)
    ensures
        super::descriptor::tagged(b, id) <==> has_tag(b, id as int),
{
    if b.len() >= 16 {
        let t = b.take(16);
        reveal_with_fuel(super::descriptor::byte_sum, 17);
        let t15 = t.drop_last();
        let t14 = t15.drop_last();
        let t13 = t14.drop_last();
        let t12 = t13.drop_last();
        let t11 = t12.drop_last();
        let t10 = t11.drop_last();
        let t9 = t10.drop_last();
        let t8 = t9.drop_last();
        let t7 = t8.drop_last();
        let t6 = t7.drop_last();
        let t5 = t6.drop_last();
        let t4 = t5.drop_last();
        let t3 = t4.drop_last();
        let t2 = t3.drop_last();
        let t1 = t2.drop_last();
        assert(t.last() == b[15] && t15.last() == b[14] && t14.last() == b[13] && t13.last()
            == b[12]);
        assert(t12.last() == b[11] && t11.last() == b[10] && t10.last() == b[9] && t9.last()
            == b[8]);
        assert(t8.last() == b[7] && t7.last() == b[6] && t6.last() == b[5] && t5.last() == b[4]);
        assert(t4.last() == b[3] && t3.last() == b[2] && t2.last() == b[1] && t1.last() == b[0]);
        assert(t1.drop_last().len() == 0);
        assert(super::descriptor::byte_sum(t) == tag_sum(b) + b[4]);
    }
}

/// What the descriptors of a volume say, byte by byte: where the sequence of
/// descriptors is and how long; the number and the first sector of a partition; the
/// block size of the logical volume and the place of its file set; and the place of
/// the root directory.
pub proof fn lemma_descriptors(b: Seq<u8>)
    ensures
        super::descriptor::anchor_of(b) == if has_tag(b, 2) && b.len() >= 32 {
            Some((four(b, 16) as u32, four(b, 20) as u32))
        } else {
            None
        },
        super::descriptor::partition_of(b) == if has_tag(b, 5) && b.len() >= 196 {
            Some(Partition { number: two(b, 22) as u16, start: four(b, 188) as u32 })
        } else {
            None
        },
        super::descriptor::logical_of(b) matches Some(v) ==> {
            &&& has_tag(b, 6) && b.len() >= 440
            &&& v.block_size == four(b, 212)
            &&& v.file_set.block == four(b, 252) && v.file_set.partition_ref == two(b, 256)
        },
        super::descriptor::logical_of(b) is None ==> !has_tag(b, 6) || b.len() < 440
            || super::descriptor::dstring_field(b.subrange(84, 212)) is None,
        super::descriptor::file_set_of(b) == if has_tag(b, 256) && b.len() >= 416 {
            Some(Icb { block: four(b, 404) as u32, partition_ref: two(b, 408) as u16 })
        } else {
            None
        },
        super::descriptor::primary_of(b) matches Some(n) ==> has_tag(b, 1) && b.len() >= 56
            && super::descriptor::dstring_field(b.subrange(24, 56)) == Some(n),
        super::descriptor::primary_of(b) is None ==> !has_tag(b, 1) || b.len() < 56
            || super::descriptor::dstring_field(b.subrange(24, 56)) is None,
{
    lemma_tagged(b, 1);
    lemma_tagged(b, 2);
    lemma_tagged(b, 5);
    lemma_tagged(b, 6);
    lemma_tagged(b, 256);
}

/// What a record of a directory says, byte by byte: its characteristics, the place
/// of its entry, and its name, which stands behind the part for the implementation;
/// records start at multiples of four bytes.
pub proof fn lemma_identifier(b: Seq<u8>)
    ensures
        match identifier_of(b) {
            Some(d) => {
                let from = 38 + two(b, 36);
                let to = from + b[19];
                &&& has_tag(b, 257) && to <= b.len()
                &&& d.characteristics == b[18]
                &&& d.icb.block == four(b, 24) && d.icb.partition_ref == two(b, 28)
                &&& super::descriptor::dstring(b.subrange(from, to)) == Some(d.name)
                &&& d.total_size % 4 == 0 && to <= d.total_size < to + 4
            },
            None => {
                let from = 38 + two(b, 36);
                let to = from + b[19];
                ||| b.len() < 38
                ||| !has_tag(b, 257)
                ||| b.len() < to
                ||| super::descriptor::dstring(b.subrange(from, to)) is None
            },
        },
{
    lemma_tagged(b, 257);
}

/// A text of one byte for each character, up to a zero.
pub proof fn lemma_narrow(t: Seq<u8>, rest: Seq<u8>)
    requires
        forall|i: int| 0 <= i < t.len() ==> #[trigger] t[i] != 0,
    ensures
        super::descriptor::narrow_text(t) == t.map_values(|x: u8| x as char),
        super::descriptor::narrow_text(t.push(0) + rest) == t.map_values(|x: u8| x as char),
        super::descriptor::dstring(seq![8u8] + t) == Some(t.map_values(|x: u8| x as char)),
    decreases t.len(),
{
    let f = |x: u8| x as char;
    assert((seq![8u8] + t).skip(1) =~= t);
    if t.len() > 0 {
        let r = t.skip(1);
        assert forall|i: int| 0 <= i < r.len() implies #[trigger] r[i] != 0 by {
            assert(r[i] == t[i + 1]);
        }
        lemma_narrow(r, rest);
        assert(t[0] != 0);
        let z = t.push(0) + rest;
        assert(z.skip(1) =~= r.push(0) + rest);
        assert(z[0] == t[0]);
        assert(seq![t[0] as char] + r.map_values(f) =~= t.map_values(f));
    } else {
        let z = t.push(0) + rest;
        assert(z[0] == 0);
        assert(t.map_values(f) =~= Seq::<char>::empty());
    }
}

/// A text of two bytes for each character, the higher first.
pub proof fn lemma_wide(t: Seq<u8>, c: u16)
    requires
        c != 0,
        c < 0xD800 || 0xDFFF < c,
    ensures
        ({
            let pair = seq![(c / 256) as u8, (c % 256) as u8];
            super::descriptor::wide_text(pair + t) == seq![(c as u32) as char]
                + super::descriptor::wide_text(t)
        }),
        super::descriptor::wide_text(Seq::<u8>::empty()) == Seq::<char>::empty(),
        t.len() % 2 == 0 ==> super::descriptor::dstring(seq![16u8] + t) == Some(
            super::descriptor::wide_text(t),
        ),
{
    let pair = seq![(c / 256) as u8, (c % 256) as u8];
    assert((pair + t).skip(2) =~= t);
    assert((pair + t)[0] == (c / 256) as u8 && (pair + t)[1] == (c % 256) as u8);
    assert((seq![16u8] + t).skip(1) =~= t);
}

/// A text in a field of fixed size is as long as the field's last byte says.
pub proof fn lemma_text_field(t: Seq<u8>, pad: Seq<u8>)
    requires
        t.len() <= 255,
    ensures
        super::descriptor::dstring_field(t + pad.push(t.len() as u8))
            == super::descriptor::dstring(t),
{
    let b = t + pad.push(t.len() as u8);
    assert(b.last() == t.len() as u8);
    assert(b.take(t.len() as int) =~= t);
}

/// Where the area of a File Entry with the file's bytes or its extents starts and
/// ends: behind the attributes, whose length the entry tells before that of the
/// area. An extended entry has a longer front.
pub open spec fn area(b: Seq<u8>) -> (int, int) {
    let front = if two(b, 0) == 266 {
        216int
    } else {
        176int
    };
    let from = front + four(b, front - 8);
    (from, from + four(b, front - 4))
}

/// What a File Entry says, byte by byte: the length of its file, in eight bytes;
/// and in its area the file's bytes, if the flags say so, or else the extents.
pub proof fn lemma_file_entry(b: Seq<u8>)
    ensures
        match super::descriptor::file_entry_of(b) {
            Some(fe) => {
                let (from, to) = area(b);
                let form = two(b, 34) % 8;
                &&& has_tag(b, 261) || has_tag(b, 266)
                &&& to <= b.len() && form <= 3
                &&& fe.information_length == four(b, 56) + 0x1_0000_0000 * four(b, 60)
                &&& fe.embedded <==> form == 3
                &&& fe.embedded ==> fe.data == b.subrange(from, to) && fe.extents.len() == 0
                &&& !fe.embedded ==> fe.data.len() == 0 && super::descriptor::extents_in(
                    form,
                    b.subrange(from, to),
                ) == Some(fe.extents)
            },
            None => {
                let (from, to) = area(b);
                let form = two(b, 34) % 8;
                ||| !has_tag(b, 261) && !has_tag(b, 266)
                ||| b.len() < to || b.len() < 176 || form > 3
                ||| form == 2 && super::descriptor::extents_in(form, b.subrange(from, to)) is None
            },
        },
{
    lemma_tagged(b, 261);
    lemma_tagged(b, 266);
    let (from, to) = area(b);
    let form = two(b, 34) % 8;
    if from <= to <= b.len() && form < 2 {
        lemma_extents_told(form, b.subrange(from, to));
    }
}

proof fn lemma_extents_told(form: int, a: Seq<u8>)
    requires
        form != 2,
    ensures
        super::descriptor::extents_in(form, a) is Some,
    decreases a.len(),
{
    if a.len() >= super::descriptor::ad_size(form) {
        lemma_extents_told(form, a.skip(super::descriptor::ad_size(form)));
    }
}

/// What the allocation descriptors of a file say. A short one takes eight bytes,
/// and tells a length and a block; a long one takes sixteen, and tells a partition
/// too; an extended one takes twenty. The two upper bits of the length are the
/// kind of the extent. The extents follow each other in order.
pub proof fn lemma_extents(e: Seq<u8>, rest: Seq<u8>)
    requires
        e.len() == 8 || e.len() == 16 || e.len() == 20,
        four(e, 0) % 0x4000_0000 != 0,
        four(e, 0) / 0x4000_0000 != 3,
        e.len() == 20 ==> four(e, 4) % 0x4000_0000 == four(e, 8),
    ensures
        ({
            let form = if e.len() == 8 {
                0int
            } else if e.len() == 16 {
                1int
            } else {
                2int
            };
            let kind = (four(e, 0) / 0x4000_0000) as u8;
            let one = if e.len() == 8 {
                Extent {
                    length: (four(e, 0) % 0x4000_0000) as u32,
                    kind,
                    block: four(e, 4) as u32,
                    partition_ref: None,
                }
            } else if e.len() == 16 {
                Extent {
                    length: (four(e, 0) % 0x4000_0000) as u32,
                    kind,
                    block: four(e, 4) as u32,
                    partition_ref: Some(two(e, 8) as u16),
                }
            } else {
                Extent {
                    length: four(e, 8) as u32,
                    kind,
                    block: four(e, 12) as u32,
                    partition_ref: Some(two(e, 16) as u16),
                }
            };
            match super::descriptor::extents_in(form, rest) {
                Some(v) => super::descriptor::extents_in(form, e + rest) == Some(seq![one] + v),
                None => super::descriptor::extents_in(form, e + rest) is None,
            }
        }),
{
    let a = e + rest;
    assert(forall|i: int| 0 <= i < e.len() ==> #[trigger] a[i] == e[i]);
    assert(a.skip(e.len() as int) =~= rest);
}

/// The extents end with one that has no length or that points to more of them, or
/// where there is no room for another.
pub proof fn lemma_extents_end(form: int, a: Seq<u8>)
    requires
        a.len() < 8 || four(a, 0) % 0x4000_0000 == 0 || four(a, 0) / 0x4000_0000 == 3,
    ensures
        super::descriptor::extents_in(form, a) == Some(Seq::<Extent>::empty()),
{
}

} // verus!
