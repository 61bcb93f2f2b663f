//! Where the bytes of a file lie on the device, from what its File Entry records.

use vstd::prelude::*;

use super::descriptor::{Extent, FileEntryView, Icb};
use super::law::{content, covered, lemma_read_honest, windows_faithful};
use super::log;
use super::log::{clip, clipped, honest, Known, ReadReq, Step, UdfError};
use super::space::{
    entry_of, metadata_sector, placed, resolved, runs_ok, space_ok, spaces_ok, SpaceView,
};
use super::volume::{pull_end, ranged, FileMetaView, RawUdfView};
use crate::decrypt::law::{due, stretch};

verus! {

// ───────────────────────── blocks ─────────────────────────

/// How many bytes the runs before the one at `k` hold.
pub open spec fn run_bytes(runs: Seq<(u64, u32)>, k: int) -> int
    decreases k,
{
    if k <= 0 {
        0
    } else {
        run_bytes(runs, k - 1) + runs[k - 1].1
    }
}

proof fn lemma_run_bytes_skip(runs: Seq<(u64, u32)>, k: int)
    requires
        0 < k <= runs.len(),
    ensures
        run_bytes(runs, k) == runs[0].1 + run_bytes(runs.skip(1), k - 1),
    decreases k,
{
    if k > 1 {
        lemma_run_bytes_skip(runs, k - 1);
        assert(runs.skip(1)[k - 2] == runs[k - 1]);
    } else {
        assert(run_bytes(runs, 1) == run_bytes(runs, 0) + runs[0].1);
        assert(run_bytes(runs.skip(1), 0) == 0);
    }
}

proof fn lemma_metadata_sector(runs: Seq<(u64, u32)>, off: int, k: int)
    requires
        0 <= off,
        0 <= k < runs.len(),
        run_bytes(runs, k) <= off < run_bytes(runs, k) + runs[k].1,
    ensures
        metadata_sector(runs, off) == Some(runs[k].0 + (off - run_bytes(runs, k)) / 2048),
    decreases k,
{
    if k > 0 {
        lemma_run_bytes_skip(runs, k);
        lemma_run_bytes_grows(runs, 1, k);
        assert(run_bytes(runs, 1) == run_bytes(runs, 0) + runs[0].1);
        assert(runs.skip(1)[k - 1] == runs[k]);
        lemma_metadata_sector(runs.skip(1), off - runs[0].1, k - 1);
    }
}

proof fn lemma_run_bytes_grows(runs: Seq<(u64, u32)>, a: int, b: int)
    requires
        0 <= a <= b,
    ensures
        run_bytes(runs, a) <= run_bytes(runs, b),
    decreases b,
{
    if a < b {
        lemma_run_bytes_grows(runs, a, b - 1);
    }
}

proof fn lemma_past_metadata(runs: Seq<(u64, u32)>, off: int)
    requires
        off >= run_bytes(runs, runs.len() as int),
    ensures
        metadata_sector(runs, off) is None,
    decreases runs.len(),
{
    if runs.len() > 0 {
        let n = runs.len() as int;
        lemma_run_bytes_skip(runs, n);
        lemma_run_bytes_grows(runs, 1, n);
        assert(run_bytes(runs, 1) == run_bytes(runs, 0) + runs[0].1);
        lemma_past_metadata(runs.skip(1), off - runs[0].1);
    }
}

proof fn lemma_run_of(runs: Seq<(u64, u32)>, off: int, n: int) -> (k: int)
    requires
        0 <= off < run_bytes(runs, n),
        0 <= n <= runs.len(),
    ensures
        0 <= k < n,
        run_bytes(runs, k) <= off < run_bytes(runs, k) + runs[k].1,
    decreases n,
{
    if off >= run_bytes(runs, n - 1) {
        n - 1
    } else {
        lemma_run_of(runs, off, n - 1)
    }
}

/// The sector `lba` is block `block` of what the partition reference stands for:
/// so many sectors behind the start of a physical partition, or in the sector of
/// a metadata file in which its byte `block * 2048` lies.
pub open spec fn block_at(spaces: Seq<Option<SpaceView>>, pref: u16, block: u32, lba: int) -> bool {
    &&& pref < spaces.len()
    &&& match spaces[pref as int] {
        None => false,
        Some(SpaceView::Physical { start }) => lba == start + block,
        Some(SpaceView::Metadata { extents }) => exists|k: int|
            0 <= k < extents.len() && #[trigger] run_bytes(extents, k) <= block * 2048 < run_bytes(
                extents,
                k,
            ) + extents[k].1 && lba == extents[k].0 + (block * 2048 - run_bytes(extents, k)) / 2048,
    }
}

/// A block is found in the sector where it is, if it is in any; else its space is
/// not there or ends before it.
pub proof fn lemma_resolved(spaces: Seq<Option<SpaceView>>, pref: u16, block: u32)
    requires
        spaces_ok(spaces),
    ensures
        match resolved(spaces, pref, block) {
            Ok(lba) => block_at(spaces, pref, block, lba as int) && lba < 0x4_0000_0000,
            Err(e) => {
                ||| e == (UdfError::NoSpace { partition_ref: pref }) && (pref >= spaces.len()
                    || spaces[pref as int] is None)
                ||| e == (UdfError::PastMetadata { block: block as u64 }) && pref < spaces.len()
                    && (spaces[pref as int] matches Some(SpaceView::Metadata { extents })
                    && run_bytes(extents, extents.len() as int) <= block * 2048)
            },
        },
        forall|lba: int|
            #[trigger] block_at(spaces, pref, block, lba) ==> resolved(spaces, pref, block) == Ok::<
                u64,
                UdfError,
            >(lba as u64) && 0 <= lba < 0x4_0000_0000,
{
    if pref < spaces.len() {
        assert(space_ok(spaces[pref as int]));
        if let Some(SpaceView::Metadata { extents }) = spaces[pref as int] {
            let off = block * 2048;
            let n = extents.len() as int;
            if off >= run_bytes(extents, n) {
                lemma_past_metadata(extents, off);
            } else {
                let k = lemma_run_of(extents, off, n);
                lemma_metadata_sector(extents, off, k);
                assert(extents[k].0 <= 2 * u32::MAX);
            }
            assert forall|lba: int| #[trigger] block_at(spaces, pref, block, lba) implies resolved(
                spaces,
                pref,
                block,
            ) == Ok::<u64, UdfError>(lba as u64) && 0 <= lba < 0x4_0000_0000 by {
                let k = choose|k: int|
                    0 <= k < extents.len() && #[trigger] run_bytes(extents, k) <= block * 2048
                        < run_bytes(extents, k) + extents[k].1 && lba == extents[k].0 + (block
                        * 2048 - run_bytes(extents, k)) / 2048;
                lemma_run_bytes_grows(extents, 0, k);
                lemma_metadata_sector(extents, off, k);
                assert(extents[k].0 <= 2 * u32::MAX);
            }
        }
    }
}

// ───────────────────────── extents ─────────────────────────

/// How many of the first `i` extents are recorded.
pub open spec fn recorded(extents: Seq<Extent>, i: int) -> int
    decreases i,
{
    if i <= 0 {
        0
    } else {
        recorded(extents, i - 1) + if extents[i - 1].kind == 0 {
            1int
        } else {
            0int
        }
    }
}

/// Where in the file the extent at `i` starts: behind the recorded ones before it.
pub open spec fn file_pos(extents: Seq<Extent>, i: int) -> int
    decreases i,
{
    if i <= 0 {
        0
    } else {
        file_pos(extents, i - 1) + if extents[i - 1].kind == 0 {
            extents[i - 1].length as int
        } else {
            0int
        }
    }
}

/// The partition that an extent lies in: its own, or that of the File Entry.
pub open spec fn partition_of_extent(e: Extent, implied: u16) -> u16 {
    match e.partition_ref {
        Some(p) => p,
        None => implied,
    }
}

proof fn lemma_recorded_grows(extents: Seq<Extent>, a: int, b: int)
    requires
        0 <= a <= b,
    ensures
        recorded(extents, a) <= recorded(extents, b),
        recorded(extents, b) - recorded(extents, a) <= b - a,
        file_pos(extents, a) <= file_pos(extents, b),
        0 <= file_pos(extents, a),
    decreases b,
{
    if a < b {
        lemma_recorded_grows(extents, a, b - 1);
    } else if a > 0 {
        lemma_recorded_grows(extents, a - 1, a - 1);
    }
}

proof fn lemma_placed_from(
    spaces: Seq<Option<SpaceView>>,
    extents: Seq<Extent>,
    implied: u16,
    s: int,
)
    requires
        spaces_ok(spaces),
        0 <= s <= extents.len(),
    ensures
        match placed(spaces, extents, implied, s) {
            Ok(runs) => {
                &&& runs.len() == recorded(extents, extents.len() as int) - recorded(extents, s)
                &&& forall|i: int|
                    s <= i < extents.len() && (#[trigger] extents[i]).kind == 0 ==> {
                        let run = runs[recorded(extents, i) - recorded(extents, s)];
                        &&& 0 <= recorded(extents, i) - recorded(extents, s) < runs.len()
                        &&& run.1 == extents[i].length
                        &&& resolved(
                            spaces,
                            partition_of_extent(extents[i], implied),
                            extents[i].block,
                        ) matches Ok(lba) && run.0 == 2048 * lba
                    }
            },
            Err(e) => exists|i: int|
                s <= i < extents.len() && (#[trigger] extents[i]).kind == 0 && resolved(
                    spaces,
                    partition_of_extent(extents[i], implied),
                    extents[i].block,
                ) == Err::<u64, UdfError>(e),
        },
        (forall|i: int|
            s <= i < extents.len() && (#[trigger] extents[i]).kind == 0 ==> resolved(
                spaces,
                partition_of_extent(extents[i], implied),
                extents[i].block,
            ) is Ok) ==> placed(spaces, extents, implied, s) is Ok,
    decreases extents.len() - s,
{
    if s < extents.len() {
        let e = extents[s];
        let pref = partition_of_extent(e, implied);
        lemma_placed_from(spaces, extents, implied, s + 1);
        lemma_resolved(spaces, pref, e.block);
        assert(recorded(extents, s + 1) == recorded(extents, s) + if e.kind == 0 {
            1int
        } else {
            0int
        });
        match placed(spaces, extents, implied, s) {
            Ok(runs) => {
                assert forall|i: int|
                    s <= i < extents.len() && (#[trigger] extents[i]).kind == 0 implies ({
                    let run = runs[recorded(extents, i) - recorded(extents, s)];
                    &&& 0 <= recorded(extents, i) - recorded(extents, s) < runs.len()
                    &&& run.1 == extents[i].length
                    &&& resolved(
                        spaces,
                        partition_of_extent(extents[i], implied),
                        extents[i].block,
                    ) matches Ok(lba) && run.0 == 2048 * lba
                }) by {
                    if i > s {
                        lemma_recorded_grows(extents, s + 1, i);
                        if e.kind == 0 {
                            let rest = placed(spaces, extents, implied, s + 1)->Ok_0;
                            assert(runs[recorded(extents, i) - recorded(extents, s)]
                                == rest[recorded(extents, i) - recorded(extents, s + 1)]);
                        }
                    } else {
                        lemma_recorded_grows(extents, s + 1, extents.len() as int);
                    }
                }
            },
            Err(x) => {
                if e.kind == 0 && resolved(spaces, pref, e.block) == Err::<u64, UdfError>(x) {
                    assert(extents[s].kind == 0);
                } else {
                    let i = choose|i: int|
                        s + 1 <= i < extents.len() && (#[trigger] extents[i]).kind == 0 && resolved(
                            spaces,
                            partition_of_extent(extents[i], implied),
                            extents[i].block,
                        ) == Err::<u64, UdfError>(x);
                    assert(extents[i].kind == 0);
                }
            },
        }
    }
}

/// Each recorded extent is placed, in order, at 2048 times the sector in which its
/// block lies, with its length. The placing fails only where a block is in no
/// sector.
pub proof fn lemma_placed(
    spaces: Seq<Option<SpaceView>>,
    extents: Seq<Extent>,
    implied: u16,
    i: int,
)
    requires
        spaces_ok(spaces),
    ensures
        match placed(spaces, extents, implied, 0) {
            Ok(runs) => {
                &&& runs.len() == recorded(extents, extents.len() as int)
                &&& 0 <= i < extents.len() && extents[i].kind == 0 ==> {
                    let run = runs[recorded(extents, i)];
                    &&& 0 <= recorded(extents, i) < runs.len()
                    &&& run.1 == extents[i].length
                    &&& run.0 % 2048 == 0
                    &&& block_at(
                        spaces,
                        partition_of_extent(extents[i], implied),
                        extents[i].block,
                        run.0 as int / 2048,
                    )
                }
            },
            Err(e) => exists|k: int|
                0 <= k < extents.len() && (#[trigger] extents[k]).kind == 0 && forall|lba: int|
                    !#[trigger] block_at(
                        spaces,
                        partition_of_extent(extents[k], implied),
                        extents[k].block,
                        lba,
                    ),
        },
{
    lemma_placed_from(spaces, extents, implied, 0);
    match placed(spaces, extents, implied, 0) {
        Ok(runs) => {
            if 0 <= i < extents.len() && extents[i].kind == 0 {
                lemma_resolved(spaces, partition_of_extent(extents[i], implied), extents[i].block);
            }
        },
        Err(e) => {
            let k = choose|k: int|
                0 <= k < extents.len() && (#[trigger] extents[k]).kind == 0 && resolved(
                    spaces,
                    partition_of_extent(extents[k], implied),
                    extents[k].block,
                ) == Err::<u64, UdfError>(e);
            let pref = partition_of_extent(extents[k], implied);
            lemma_resolved(spaces, pref, extents[k].block);
            assert forall|lba: int| !#[trigger] block_at(spaces, pref, extents[k].block, lba) by {}
            assert(extents[k].kind == 0);
        },
    }
}

proof fn lemma_positions(
    spaces: Seq<Option<SpaceView>>,
    extents: Seq<Extent>,
    implied: u16,
    i: int,
)
    requires
        spaces_ok(spaces),
        placed(spaces, extents, implied, 0) is Ok,
        0 <= i <= extents.len(),
    ensures
        run_bytes(placed(spaces, extents, implied, 0)->Ok_0, recorded(extents, i)) == file_pos(
            extents,
            i,
        ),
        0 <= recorded(extents, i),
    decreases i,
{
    if i > 0 {
        lemma_positions(spaces, extents, implied, i - 1);
        lemma_placed(spaces, extents, implied, i - 1);
    }
}

proof fn lemma_content_at(image: Seq<u8>, runs: Seq<(u64, u32)>, k: int, j: int)
    requires
        covered(image, runs),
        0 <= k < runs.len(),
        0 <= j < runs[k].1,
    ensures
        content(image, runs).len() == run_bytes(runs, runs.len() as int),
        0 <= run_bytes(runs, k) + j < content(image, runs).len(),
        content(image, runs)[run_bytes(runs, k) + j] == image[runs[k].0 + j],
    decreases runs.len(),
{
    let d = runs.drop_last();
    let n = runs.len() as int;
    lemma_content_len(image, d);
    lemma_content_len(image, runs);
    lemma_run_bytes_same(runs, d, k);
    lemma_run_bytes_same(runs, d, n - 1);
    lemma_run_bytes_grows(runs, 0, k);
    lemma_run_bytes_grows(runs, k + 1, n);
    assert(runs.last() == runs[n - 1]);
    if k < n - 1 {
        assert(forall|i: int| 0 <= i < d.len() ==> #[trigger] d[i] == runs[i]);
        assert(covered(image, d)) by {
            assert forall|i: int| 0 <= i < d.len() implies (#[trigger] d[i]).0 + d[i].1
                <= image.len() by {
                assert(runs[i] == d[i]);
                assert(runs[i].0 + runs[i].1 <= image.len());
            }
        }
        lemma_content_at(image, d, k, j);
    } else {
        assert(runs[k].0 + runs[k].1 <= image.len());
    }
}

proof fn lemma_run_bytes_same(a: Seq<(u64, u32)>, b: Seq<(u64, u32)>, k: int)
    requires
        k <= b.len() <= a.len(),
        b == a.take(b.len() as int),
    ensures
        run_bytes(a, k) == run_bytes(b, k),
    decreases k,
{
    if k > 0 {
        lemma_run_bytes_same(a, b, k - 1);
        assert(a.take(b.len() as int)[k - 1] == a[k - 1]);
    }
}

proof fn lemma_content_len(image: Seq<u8>, runs: Seq<(u64, u32)>)
    requires
        covered(image, runs),
    ensures
        content(image, runs).len() == run_bytes(runs, runs.len() as int),
    decreases runs.len(),
{
    if runs.len() > 0 {
        let d = runs.drop_last();
        let n = runs.len() as int;
        assert forall|i: int| 0 <= i < d.len() implies (#[trigger] d[i]).0 + d[i].1
            <= image.len() by {
            assert(runs[i] == d[i]);
            assert(runs[i].0 + runs[i].1 <= image.len());
        }
        lemma_content_len(image, d);
        assert(d =~= runs.take(n - 1));
        lemma_run_bytes_same(runs, d, n - 1);
        assert(runs[n - 1] == runs.last());
        assert(runs[n - 1].0 + runs[n - 1].1 <= image.len());
    }
}

// ───────────────────────── reading a file ─────────────────────────

/// The File Entry `fe` records a whole file that lies on the device: its recorded
/// extents are on it, and hold as many bytes as the file has.
pub open spec fn recorded_on(
    image: Seq<u8>,
    spaces: Seq<Option<SpaceView>>,
    fe: FileEntryView,
    implied: u16,
) -> bool {
    &&& !fe.embedded
    &&& fe.extents.len() <= 1024
    &&& file_pos(fe.extents, fe.extents.len() as int) >= fe.information_length
    &&& forall|i: int|
        0 <= i < fe.extents.len() && (#[trigger] fe.extents[i]).kind == 0 ==> exists|lba: int|
            #[trigger] block_at(
                spaces,
                partition_of_extent(fe.extents[i], implied),
                fe.extents[i].block,
                lba,
            ) && lba * 2048 + fe.extents[i].length <= image.len()
}

proof fn lemma_meta_on(
    image: Seq<u8>,
    spaces: Seq<Option<SpaceView>>,
    fe: FileEntryView,
    implied: u16,
)
    requires
        spaces_ok(spaces),
        recorded_on(image, spaces, fe, implied),
    ensures
        placed(spaces, fe.extents, implied, 0) is Ok,
        covered(image, placed(spaces, fe.extents, implied, 0)->Ok_0),
        runs_ok(placed(spaces, fe.extents, implied, 0)->Ok_0),
{
    let x = fe.extents;
    lemma_placed_from(spaces, x, implied, 0);
    assert forall|i: int| 0 <= i < x.len() && (#[trigger] x[i]).kind == 0 implies resolved(
        spaces,
        partition_of_extent(x[i], implied),
        x[i].block,
    ) is Ok by {
        lemma_resolved(spaces, partition_of_extent(x[i], implied), x[i].block);
        let lba = choose|lba: int|
            #[trigger] block_at(spaces, partition_of_extent(x[i], implied), x[i].block, lba) && lba
                * 2048 + x[i].length <= image.len();
    }
    let runs = placed(spaces, x, implied, 0)->Ok_0;
    lemma_recorded_grows(x, 0, x.len() as int);
    assert forall|k: int| 0 <= k < runs.len() implies (#[trigger] runs[k]).0 + runs[k].1
        <= image.len() && runs[k].0 < 0x4_0000_0000 * 2048 by {
        let i = lemma_nth_recorded(x, k, x.len() as int);
        lemma_resolved(spaces, partition_of_extent(x[i], implied), x[i].block);
        let lba = choose|lba: int|
            #[trigger] block_at(spaces, partition_of_extent(x[i], implied), x[i].block, lba) && lba
                * 2048 + x[i].length <= image.len();
    }
}

proof fn lemma_nth_recorded(extents: Seq<Extent>, k: int, n: int) -> (i: int)
    requires
        0 <= n <= extents.len(),
        0 <= k < recorded(extents, n),
    ensures
        0 <= i < n,
        extents[i].kind == 0,
        recorded(extents, i) == k,
    decreases n,
{
    if recorded(extents, n - 1) > k {
        lemma_nth_recorded(extents, k, n - 1)
    } else {
        lemma_recorded_grows(extents, 0, n - 1);
        n - 1
    }
}

/// A read of a file gives the bytes that the device holds where the file's own
/// File Entry says: byte `j` of the recorded extent at `i` is byte `j` behind 2048
/// times the sector of the extent's block, wherever on the device that is. As many
/// bytes come as were asked for, or as are left in the file.
pub proof fn lemma_file_read(
    m: Known,
    image: Seq<u8>,
    v: RawUdfView,
    rel: Seq<char>,
    offset: u64,
    count: int,
    icb: Icb,
    fe: FileEntryView,
    i: int,
    j: int,
    lba: int,
)
    requires
        v.wf(),
        honest(m, image),
        clipped(m),
        count >= 0,
        windows_faithful(v, image, rel),
        v.lookup(m, rel) == Step::<Icb>::Done(icb),
        entry_of(m, v.spaces, icb) == Step::Done(fe),
        recorded_on(image, v.spaces, fe, icb.partition_ref),
        v.files.dom().contains(rel) ==> Step::Done(v.files[rel]) == v.meta_on_disc(m, rel),
        v.read(m, rel, offset, count).0 is Done,
        offset <= fe.information_length,
    ensures
        v.read(m, rel, offset, count).0->Done_0.len() == due(
            fe.information_length as int,
            offset as int,
            count,
        ),
        0 <= i < fe.extents.len() && fe.extents[i].kind == 0 && 0 <= j < fe.extents[i].length
            && block_at(
            v.spaces,
            partition_of_extent(fe.extents[i], icb.partition_ref),
            fe.extents[i].block,
            lba,
        ) && offset <= file_pos(fe.extents, i) + j < offset + due(
            fe.information_length as int,
            offset as int,
            count,
        ) ==> v.read(m, rel, offset, count).0->Done_0[file_pos(fe.extents, i) + j - offset]
            == image[lba * 2048 + j],
{
    let implied = icb.partition_ref;
    let x = fe.extents;
    lemma_meta_on(image, v.spaces, fe, implied);
    let runs = placed(v.spaces, x, implied, 0)->Ok_0;
    let meta = FileMetaView { size: fe.information_length, extents: runs, embedded: None };
    assert(v.meta_on_disc(m, rel) == Step::Done(meta));
    assert(v.meta(m, rel) == Step::Done(meta));
    lemma_read_honest(m, image, v, rel, offset, count);
    let whole = content(image, runs);
    lemma_content_len(image, runs);
    lemma_positions(v.spaces, x, implied, x.len() as int);
    lemma_placed(v.spaces, x, implied, i);
    let b = v.read(m, rel, offset, count).0->Done_0;
    let n = due(fe.information_length as int, offset as int, count);
    assert(whole.len() >= fe.information_length);
    assert(b == clip(whole, offset as int, super::volume::read_end(meta.size, offset, count)));
    assert(b.len() == n);
    if 0 <= i < x.len() && x[i].kind == 0 && 0 <= j < x[i].length && block_at(
        v.spaces,
        partition_of_extent(x[i], implied),
        x[i].block,
        lba,
    ) && offset <= file_pos(x, i) + j < offset + n {
        lemma_resolved(v.spaces, partition_of_extent(x[i], implied), x[i].block);
        let k = recorded(x, i);
        assert(block_at(
            v.spaces,
            partition_of_extent(x[i], implied),
            x[i].block,
            runs[k].0 as int / 2048,
        ));
        assert(runs[k].0 == lba * 2048);
        lemma_positions(v.spaces, x, implied, i);
        lemma_content_at(image, runs, k, j);
        assert(b[file_pos(x, i) + j - offset] == whole[file_pos(x, i) + j]);
    }
}

/// A read of a file whose File Entry holds its bytes gives those bytes.
pub proof fn lemma_embedded_read(
    m: Known,
    v: RawUdfView,
    rel: Seq<char>,
    offset: u64,
    count: int,
    icb: Icb,
    fe: FileEntryView,
)
    requires
        count >= 0,
        v.lookup(m, rel) == Step::<Icb>::Done(icb),
        entry_of(m, v.spaces, icb) == Step::Done(fe),
        fe.embedded,
        fe.data.len() >= fe.information_length,
        v.files.dom().contains(rel) ==> Step::Done(v.files[rel]) == v.meta_on_disc(m, rel),
        offset <= fe.information_length,
    ensures
        v.read(m, rel, offset, count).0 matches Step::Done(b) && stretch(
            b,
            fe.data,
            offset as int,
            due(fe.information_length as int, offset as int, count),
        ),
{
    let data = clip(fe.data, 0, fe.information_length as int);
    let meta = FileMetaView {
        size: fe.information_length,
        extents: Seq::empty(),
        embedded: Some(data),
    };
    assert(v.meta_on_disc(m, rel) == Step::Done(meta));
    assert(v.meta(m, rel) == Step::Done(meta));
    assert(data =~= fe.data.take(fe.information_length as int));
}

// ───────────────────────── reads of the device ─────────────────────────

/// No read of the device failed.
pub open spec fn unfailing(m: Known) -> bool {
    forall|q: ReadReq| #[trigger] m.dom().contains(q) ==> m[q] is Some
}

/// A read that the device is asked for on the way to `count` bytes at `at`: it
/// touches no sector but theirs, and is no longer than one transfer.
pub open spec fn useful(q: ReadReq, at: int, count: int) -> bool {
    &&& at < q.offset + 2048
    &&& q.offset + q.len < at + count + 2048
    &&& 0 < q.len <= 1024 * 1024
}

proof fn lemma_filled_useful(m: Known, start: int, got: Seq<u8>, total: int)
    requires
        0 <= start,
        start + total <= u64::MAX,
    ensures
        match log::filled(m, start, got, total) {
            Step::Need(q) => {
                &&& start <= q.offset && q.offset + q.len <= start + total
                &&& 0 < q.len <= 1024 * 1024
            },
            Step::Fail(_) => !unfailing(m),
            Step::Done(_) => true,
        },
    decreases log::missing(got.len() as int, total),
{
    if got.len() < total {
        let q = log::chunk_req(start, got.len() as int, total);
        if m.dom().contains(q) {
            if let Some(b) = m[q] {
                if b.len() > 0 {
                    lemma_filled_useful(m, start, got + b, total);
                }
            }
        }
    }
}

/// Bytes of the device are read by the sectors that hold them and by no others,
/// and the read fails only where the device did. What comes are the bytes at that
/// place; fewer come only where the device ends.
pub proof fn lemma_bytes_read(m: Known, image: Seq<u8>, at: int, count: int)
    requires
        honest(m, image),
        clipped(m),
        0 <= at,
        0 <= count,
        at + count + 4096 <= u64::MAX,
    ensures
        match log::bytes_at(m, at, count) {
            Step::Need(q) => useful(q, at, count),
            Step::Fail(_) => !unfailing(m),
            Step::Done(b) => {
                &&& b.len() == due(image.len() as int, at, count)
                &&& at <= image.len() ==> stretch(b, image, at, b.len() as int)
            },
        },
{
    log::lemma_bytes_honest(m, image, at, count);
    if count > 0 {
        let start = log::aligned(at);
        let total = log::covering(at, count);
        assert(start <= at < start + 2048);
        assert(at - start + count <= total < at - start + count + 2048);
        lemma_filled_useful(m, start, Seq::empty(), total);
    }
}

/// All reads were of whole sectors.
pub open spec fn whole_sectors(m: Known) -> bool {
    forall|q: ReadReq| #[trigger]
        m.dom().contains(q) ==> (m[q] matches Some(b) ==> b.len() % 2048 == 0)
}

proof fn lemma_filled_aligned(m: Known, start: int, got: Seq<u8>, total: int)
    requires
        0 <= start,
        start + total <= u64::MAX,
        start % 2048 == 0,
        total % 2048 == 0,
        got.len() % 2048 == 0,
        whole_sectors(m),
    ensures
        log::filled(m, start, got, total) matches Step::Need(q) ==> q.offset % 2048 == 0 && q.len
            % 2048 == 0,
    decreases log::missing(got.len() as int, total),
{
    if got.len() < total {
        let q = log::chunk_req(start, got.len() as int, total);
        if m.dom().contains(q) {
            if let Some(b) = m[q] {
                if b.len() > 0 {
                    lemma_filled_aligned(m, start, got + b, total);
                }
            }
        }
    }
}

/// As long as the device gives whole sectors, it is asked for whole sectors.
pub proof fn lemma_asks_sectors(m: Known, at: int, count: int)
    requires
        whole_sectors(m),
        0 <= at,
        0 <= count,
        at + count + 4096 <= u64::MAX,
    ensures
        log::bytes_at(m, at, count) matches Step::Need(q) ==> q.offset % 2048 == 0 && q.len % 2048
            == 0,
{
    if count > 0 {
        let start = log::aligned(at);
        let total = log::covering(at, count);
        assert(start <= at < start + 2048);
        assert(at - start + count <= total < at - start + count + 2048);
        lemma_filled_aligned(m, start, Seq::empty(), total);
    }
}

proof fn lemma_ranged_useful(
    m: Known,
    extents: Seq<(u64, u32)>,
    i: int,
    pos: int,
    offset: int,
    end: int,
    got: Seq<u8>,
)
    requires
        runs_ok(extents),
        0 <= i <= extents.len(),
        offset <= end,
    ensures
        match ranged(m, extents, i, pos, offset, end, got) {
            Step::Need(q) => exists|k: int|
                i <= k < extents.len() && #[trigger] extents[k].0 < q.offset + 2048 && q.offset
                    + q.len < extents[k].0 + extents[k].1 + 2048 && 0 < q.len <= 1024 * 1024,
            Step::Fail(_) => !unfailing(m),
            Step::Done(_) => true,
        },
    decreases extents.len() - i,
{
    if i < extents.len() && end > pos {
        let (abs, len) = extents[i];
        if offset >= pos + len {
            lemma_ranged_useful(m, extents, i + 1, pos + len, offset, end, got);
        } else {
            let from = if offset > pos {
                offset - pos
            } else {
                0
            };
            let to = if end < pos + len {
                end - pos
            } else {
                len as int
            };
            let at = abs + from;
            let count = to - from;
            assert(extents[i].0 < 0x4_0000_0000 * 2048);
            if count > 0 {
                let start = log::aligned(at);
                let total = log::covering(at, count);
                assert(start <= at < start + 2048);
                assert(at - start + count <= total < at - start + count + 2048);
                lemma_filled_useful(m, start, Seq::empty(), total);
            }
            match log::bytes_at(m, at, count) {
                Step::Done(b) => {
                    lemma_ranged_useful(m, extents, i + 1, pos + len, offset, end, got + b);
                },
                Step::Need(q) => {
                    assert(extents[i].0 < q.offset + 2048);
                },
                _ => {},
            }
        }
    }
}

/// A read of a known file asks for sectors of its own extents alone, and fails
/// only where the device did; one that the entry itself holds asks for nothing.
pub proof fn lemma_read_useful(
    m: Known,
    v: RawUdfView,
    rel: Seq<char>,
    offset: u64,
    count: int,
    meta: FileMetaView,
)
    requires
        v.meta(m, rel) == Step::Done(meta),
        runs_ok(meta.extents),
        count >= 0,
        meta.embedded matches Some(data) ==> data.len() == meta.size,
    ensures
        match v.read(m, rel, offset, count).0 {
            Step::Need(q) => meta.embedded is None && exists|k: int|
                0 <= k < meta.extents.len() && #[trigger] meta.extents[k].0 < q.offset + 2048
                    && q.offset + q.len < meta.extents[k].0 + meta.extents[k].1 + 2048 && 0 < q.len
                    <= 1024 * 1024,
            Step::Fail(_) => meta.embedded is None && !unfailing(m),
            Step::Done(_) => true,
        },
{
    if offset < meta.size && count > 0 && meta.embedded is None {
        let end = super::volume::read_end(meta.size, offset, count);
        let upto = pull_end(meta.size, offset, end);
        lemma_ranged_useful(m, meta.extents, 0, 0, offset as int, upto, Seq::empty());
    }
}

/// A read from the device takes sixteen MiB, or up to the end of the file, or as
/// much as was asked for where that is more; and keeps them.
pub proof fn lemma_read_ahead(size: u64, offset: u64, count: int)
    requires
        offset < size,
        count > 0,
    ensures
        ({
            let end = super::volume::read_end(size, offset, count);
            &&& end == vstd::math::min(offset + count, size as int)
            &&& pull_end(size, offset, end) == vstd::math::max(
                end,
                vstd::math::min(offset + 16_777_216, size as int),
            )
        }),
{
}

// ───────────────────────── sectors and entries ─────────────────────────

/// A sector is read at 2048 times its number, whole, and holds what the device
/// holds there. It is not to be had only where the device failed or ended.
pub proof fn lemma_sector(m: Known, image: Seq<u8>, lba: int)
    requires
        honest(m, image),
        clipped(m),
        0 <= lba,
        lba * 2048 + 2048 <= u64::MAX,
    ensures
        match log::sector(m, lba) {
            Step::Need(q) => q.offset == 2048 * lba && q.len == 2048 && !m.dom().contains(q),
            Step::Fail(_) => {
                let q = ReadReq { offset: (2048 * lba) as u64, len: 2048 };
                m.dom().contains(q) && (m[q] matches Some(b) ==> b.len() < 2048)
            },
            Step::Done(b) => stretch(b, image, 2048 * lba, 2048),
        },
{
    let q = log::sector_req(lba);
    if m.dom().contains(q) {
        if let Some(b) = m[q] {
            assert(b == clip(image, q.offset as int, q.offset + b.len()));
        }
    }
}

/// A File Entry is read at 2048 times the number of its sector, with what follows
/// it there, and is what those bytes of the device say.
pub proof fn lemma_entry_at(m: Known, image: Seq<u8>, lba: int, buf: Seq<u8>)
    requires
        honest(m, image),
        clipped(m),
        0 <= lba,
        lba * 2048 + 8192 <= image.len(),
        image.len() <= u64::MAX,
        stretch(buf, image, 2048 * lba, 8192),
    ensures
        ({
            let q = ReadReq { offset: (2048 * lba) as u64, len: 8192 };
            match super::space::entry_at(m, lba) {
                Step::Need(r) => r == q && !m.dom().contains(q),
                Step::Done(fe) => m.dom().contains(q) && (m[q]->0.len() == 8192
                    ==> super::descriptor::file_entry_of(buf) == Some(fe)),
                Step::Fail(_) => m.dom().contains(q) && (m[q] matches Some(b) && b.len() == 8192
                    ==> super::descriptor::file_entry_of(buf) is None),
            }
        }),
{
    let q = ReadReq { offset: (2048 * lba) as u64, len: 8192 };
    if m.dom().contains(q) {
        if let Some(b) = m[q] {
            assert(b == clip(image, q.offset as int, q.offset + b.len()));
            if b.len() == 8192 {
                assert(b =~= buf);
                assert(super::space::entry_buffer(b) =~= buf);
            }
        }
    }
}

// ───────────────────────── whole files ─────────────────────────

proof fn lemma_content_take(image: Seq<u8>, runs: Seq<(u64, u32)>, i: int)
    requires
        0 <= i <= runs.len(),
    ensures
        content(image, runs.take(i)).is_prefix_of(content(image, runs)),
    decreases runs.len() - i,
{
    if i < runs.len() {
        lemma_content_take(image, runs, i + 1);
        assert(runs.take(i + 1).drop_last() =~= runs.take(i));
        let a = content(image, runs.take(i));
        let b = content(image, runs.take(i + 1));
        let c = content(image, runs);
        assert(c.take(b.len() as int) == b);
        assert(c.take(a.len() as int) =~= b.take(a.len() as int));
        assert(b.take(a.len() as int) =~= a);
    } else {
        assert(runs.take(i) =~= runs);
        let c = content(image, runs);
        assert(c.take(c.len() as int) =~= c);
    }
}

proof fn lemma_gathered(
    m: Known,
    image: Seq<u8>,
    runs: Seq<(u64, u32)>,
    i: int,
    want: int,
)
    requires
        honest(m, image),
        clipped(m),
        covered(image, runs),
        runs_ok(runs),
        0 <= i <= runs.len(),
    ensures
        match super::space::gathered(m, runs, i, content(image, runs.take(i)), want) {
            Step::Done(b) => {
                &&& b.is_prefix_of(content(image, runs))
                &&& b.len() >= want || b == content(image, runs)
            },
            Step::Fail(_) => !unfailing(m),
            Step::Need(_) => true,
        },
    decreases runs.len() - i,
{
    let got = content(image, runs.take(i));
    lemma_content_take(image, runs, i);
    if i < runs.len() {
        let (at, len) = runs[i];
        assert(runs[i].0 + runs[i].1 <= image.len());
        assert(runs[i].0 < 0x4_0000_0000 * 2048);
        lemma_bytes_read(m, image, at as int, len as int);
        assert(runs.take(i + 1).drop_last() =~= runs.take(i));
        assert(runs.take(i + 1).last() == runs[i]);
        if let Step::Done(b) = log::bytes_at(m, at as int, len as int) {
            assert(b =~= clip(image, at as int, at + len));
            assert(content(image, runs.take(i + 1)) == got + b);
            lemma_content_take(image, runs, i + 1);
            lemma_gathered(m, image, runs, i + 1, want);
        }
    } else {
        assert(runs.take(i) =~= runs);
    }
}

/// All bytes of a file, such as a directory, are those that the device holds where
/// the file's entry says, in order and as many as the entry says; they are not to
/// be had only where the device failed.
pub proof fn lemma_whole_file(
    m: Known,
    image: Seq<u8>,
    spaces: Seq<Option<SpaceView>>,
    fe: FileEntryView,
    implied: u16,
    i: int,
    j: int,
    lba: int,
)
    requires
        honest(m, image),
        clipped(m),
        spaces_ok(spaces),
        recorded_on(image, spaces, fe, implied),
    ensures
        match super::space::entry_bytes(m, spaces, fe, implied) {
            Step::Done(b) => {
                &&& b.len() == fe.information_length
                &&& 0 <= i < fe.extents.len() && fe.extents[i].kind == 0 && 0 <= j
                    < fe.extents[i].length && file_pos(fe.extents, i) + j < fe.information_length
                    && block_at(
                    spaces,
                    partition_of_extent(fe.extents[i], implied),
                    fe.extents[i].block,
                    lba,
                ) ==> b[file_pos(fe.extents, i) + j] == image[lba * 2048 + j]
            },
            Step::Fail(_) => !unfailing(m),
            Step::Need(_) => true,
        },
{
    let x = fe.extents;
    let want = fe.information_length as int;
    lemma_meta_on(image, spaces, fe, implied);
    let runs = placed(spaces, x, implied, 0)->Ok_0;
    let whole = content(image, runs);
    lemma_content_len(image, runs);
    lemma_positions(spaces, x, implied, x.len() as int);
    lemma_placed(spaces, x, implied, i);
    assert(runs.take(0) =~= Seq::<(u64, u32)>::empty());
    lemma_gathered(m, image, runs, 0, want);
    if let Step::Done(g) = super::space::gathered(m, runs, 0, Seq::empty(), want) {
        let b = clip(g, 0, want);
        assert(g.len() >= want);
        assert(b.len() == want);
        if 0 <= i < x.len() && x[i].kind == 0 && 0 <= j < x[i].length && file_pos(x, i) + j < want
            && block_at(spaces, partition_of_extent(x[i], implied), x[i].block, lba) {
            lemma_resolved(spaces, partition_of_extent(x[i], implied), x[i].block);
            let k = recorded(x, i);
            assert(block_at(
                spaces,
                partition_of_extent(x[i], implied),
                x[i].block,
                runs[k].0 as int / 2048,
            ));
            assert(runs[k].0 == lba * 2048);
            lemma_positions(spaces, x, implied, i);
            lemma_recorded_grows(x, 0, i);
            lemma_content_at(image, runs, k, j);
            let p = file_pos(x, i) + j;
            assert(b[p] == g[p]);
            assert(whole.take(g.len() as int)[p] == g[p]);
        }
    }
}

/// The file's own bytes, where the entry holds them.
pub proof fn lemma_whole_embedded(
    m: Known,
    spaces: Seq<Option<SpaceView>>,
    fe: FileEntryView,
    implied: u16,
)
    requires
        fe.embedded,
        fe.data.len() >= fe.information_length,
    ensures
        super::space::entry_bytes(m, spaces, fe, implied) matches Step::Done(b) && stretch(
            b,
            fe.data,
            0,
            fe.information_length as int,
        ),
{
}

// ───────────────────────── what is known of a file ─────────────────────────

/// The size of a file is what its File Entry says, whether or not it was looked up
/// before; and what was looked up once is remembered.
pub proof fn lemma_file_size(m: Known, v: RawUdfView, rel: Seq<char>, icb: Icb, fe: FileEntryView)
    requires
        v.lookup(m, rel) == Step::<Icb>::Done(icb),
        entry_of(m, v.spaces, icb) == Step::Done(fe),
        v.files.dom().contains(rel) ==> Step::Done(v.files[rel]) == v.meta_on_disc(m, rel),
    ensures
        v.meta(m, rel) matches Step::Done(meta) ==> meta.size == fe.information_length
            && v.remembering(m, rel).files.dom().contains(rel) && v.remembering(m, rel).files[rel]
            == meta,
        v.meta(m, rel) is Fail ==> !fe.embedded,
        forall|other: Seq<char>|
            other != rel ==> (#[trigger] v.remembering(m, rel).files.dom().contains(other)
                <==> v.files.dom().contains(other)),
{
}

/// The entries of a directory are read where the path leads, or at the root for
/// the empty path and the slash.
pub proof fn lemma_listed(m: Known, v: RawUdfView, rel: Seq<char>)
    ensures
        rel.len() == 0 || rel == seq!['/'] ==> v.listed(m, rel) == super::space::directory(
            m,
            v.spaces,
            v.root_icb,
        ),
        rel.len() > 0 && rel != seq!['/'] ==> match v.lookup(m, rel) {
            Step::Done(icb) => v.listed(m, rel) == super::space::directory(m, v.spaces, icb),
            Step::Need(q) => v.listed(m, rel) == Step::<Seq<super::space::DirEntryView>>::Need(q),
            Step::Fail(_) => v.listed(m, rel) is Fail,
        },
{
    reveal_strlit("/");
    assert("/"@ =~= seq!['/']);
}

// ───────────────────────── windows ─────────────────────────

/// A read inside a window gives the bytes of the window at that place, without the
/// device. The window that was read ahead becomes the current one by that.
pub proof fn lemma_window_read(
    m: Known,
    v: RawUdfView,
    rel: Seq<char>,
    offset: u64,
    count: int,
    a: super::volume::AheadView,
)
    requires
        v.files.dom().contains(rel),
        v.files[rel].embedded is None,
        offset < v.files[rel].size,
        count > 0,
        a.rel == rel,
        a.off <= offset,
        offset + due(v.files[rel].size as int, offset as int, count) <= a.off + a.buf.len(),
        v.ahead == Some(a) || v.next == Some(a) && (v.ahead matches Some(w) ==> w.rel != rel
            || offset < w.off || w.off + w.buf.len() < offset + due(
            v.files[rel].size as int,
            offset as int,
            count,
        )),
    ensures
        ({
            let r = v.read(m, rel, offset, count);
            &&& r.0 matches Step::Done(b) && stretch(
                b,
                a.buf,
                offset - a.off,
                due(v.files[rel].size as int, offset as int, count),
            )
            &&& r.1.ahead == Some(a) && r.1.files == v.files
        }),
{
    assert(v.files.insert(rel, v.files[rel]) =~= v.files);
    assert(v.remembering(m, rel) =~= v);
}

/// What is fetched ahead is kept beside what was read, and starts where it was to.
pub proof fn lemma_prefetched(
    m: Known,
    v: RawUdfView,
    rel: Seq<char>,
    offset: u64,
    count: int,
    meta: FileMetaView,
)
    requires
        v.meta(m, rel) == Step::Done(meta),
        offset < meta.size,
        count > 0,
        v.ahead matches Some(a) ==> a.rel != rel || offset < a.off || a.off + a.buf.len() <= offset,
        v.next matches Some(a) ==> a.rel != rel || a.off != offset,
        v.prefetched(m, rel, offset, count).0 is Done,
    ensures
        ({
            let w = v.prefetched(m, rel, offset, count).1;
            &&& w.next matches Some(a) && a.rel == rel && a.off == offset && ranged(
                m,
                meta.extents,
                0,
                0,
                offset as int,
                offset + due(meta.size as int, offset as int, count),
                Seq::empty(),
            ) == Step::Done(a.buf)
            &&& w.ahead == v.ahead
        }),
{
}

/// A read past the end of a file, or of no bytes, gives none; and a read of a file
/// that cannot be told of fails, or waits, for that.
pub proof fn lemma_read_edges(m: Known, v: RawUdfView, rel: Seq<char>, offset: u64, count: int)
    requires
        count >= 0,
    ensures
        match v.meta(m, rel) {
            Step::Done(meta) => offset >= meta.size || count == 0 ==> v.read(m, rel, offset, count).0
                == Step::Done(Seq::<u8>::empty()),
            Step::Need(q) => v.read(m, rel, offset, count).0 == Step::<Seq<u8>>::Need(q),
            Step::Fail(e) => v.read(m, rel, offset, count).0 == Step::<Seq<u8>>::Fail(e),
        },
{
}

/// The runs are the recorded extents, each at 2048 times the sector of its block.
pub open spec fn runs_right(
    spaces: Seq<Option<SpaceView>>,
    extents: Seq<Extent>,
    implied: u16,
    runs: Seq<(u64, u32)>,
) -> bool {
    &&& runs.len() == recorded(extents, extents.len() as int)
    &&& forall|i: int|
        0 <= i < extents.len() && (#[trigger] extents[i]).kind == 0 ==> {
            let run = runs[recorded(extents, i)];
            &&& run.1 == extents[i].length
            &&& run.0 % 2048 == 0
            &&& block_at(
                spaces,
                partition_of_extent(extents[i], implied),
                extents[i].block,
                run.0 as int / 2048,
            )
        }
}

/// The extents of a file are placed right.
pub proof fn lemma_runs_right(spaces: Seq<Option<SpaceView>>, extents: Seq<Extent>, implied: u16)
    requires
        spaces_ok(spaces),
    ensures
        placed(spaces, extents, implied, 0) matches Ok(runs) ==> runs_right(
            spaces,
            extents,
            implied,
            runs,
        ),
{
    lemma_placed(spaces, extents, implied, 0);
    if let Ok(runs) = placed(spaces, extents, implied, 0) {
        assert forall|i: int| 0 <= i < extents.len() && (#[trigger] extents[i]).kind == 0 implies ({
            let run = runs[recorded(extents, i)];
            &&& run.1 == extents[i].length
            &&& run.0 % 2048 == 0
            &&& block_at(
                spaces,
                partition_of_extent(extents[i], implied),
                extents[i].block,
                run.0 as int / 2048,
            )
        }) by {
            lemma_placed(spaces, extents, implied, i);
        }
    }
}

} // verus!
