//! Partitions of a volume, and the files and directories in them.

use vstd::prelude::*;

use super::descriptor;
use super::descriptor::{Extent, FileEntry, FileEntryView, Icb, PartMap, Partition};
use super::log;
use super::log::{Known, Outcome, ReadLog, ReadReq, Step, UdfError, ENTRY_BYTES, LBA_LIMIT, SECTOR};
use crate::text;

verus! {

// ───────────────────────── File Entries ─────────────────────────

/// `b` filled up with zeros to the size of a File Entry's buffer.
pub open spec fn entry_buffer(b: Seq<u8>) -> Seq<u8> {
    Seq::new(
        8192,
        |i: int|
            if i < b.len() {
                b[i]
            } else {
                0u8
            },
    )
}

/// The File Entry at sector `lba`, from a single read there.
pub open spec fn entry_at(m: Known, lba: int) -> Step<FileEntryView> {
    let q = ReadReq { offset: (lba * 2048) as u64, len: 8192 };
    if !m.dom().contains(q) {
        Step::Need(q)
    } else {
        match m[q] {
            None => Step::Fail(UdfError::ReadEntry { lba: lba as u64 }),
            Some(b) => match descriptor::file_entry_of(entry_buffer(b)) {
                None => Step::Fail(UdfError::BadEntry { lba: lba as u64 }),
                Some(e) => Step::Done(e),
            },
        }
    }
}

pub fn read_fe(log: &ReadLog, lba: u64) -> (r: Step<FileEntry>)
    requires
        lba * 2048 <= u64::MAX,
    ensures
        r@ == entry_at(log@, lba as int),
        r matches Step::Done(e) ==> e@.extents.len() <= 1024,
{
    let q = ReadReq { offset: lba * SECTOR, len: ENTRY_BYTES };
    match log.get(q) {
        None => Step::Need(q),
        Some(Outcome::Failed) => Step::Fail(UdfError::ReadEntry { lba }),
        Some(Outcome::Bytes(b)) => {
            let mut buf = b;
            let ghost told = buf@;
            while (buf.len() as u64) < ENTRY_BYTES
                invariant
                    told.len() <= buf@.len() <= 8192,
                    forall|i: int| 0 <= i < told.len() ==> buf@[i] == told[i],
                    forall|i: int| told.len() <= i < buf@.len() ==> buf@[i] == 0,
                decreases 8192 - buf@.len(),
            {
                buf.push(0);
            }
            assert(buf@ =~= entry_buffer(told));
            match descriptor::file_entry(buf.as_slice(), lba) {
                Ok(e) => Step::Done(e),
                Err(e) => Step::Fail(e),
            }
        },
    }
}

// ───────────────────────── spaces ─────────────────────────

/// What a partition reference stands for.
pub enum Space {
    Physical { start: u64 },
    /// Each logical block is a slot of a sector in these runs of sectors (first
    /// sector, length in bytes).
    Metadata { extents: Vec<(u64, u32)> },
}

pub enum SpaceView {
    Physical { start: u64 },
    Metadata { extents: Seq<(u64, u32)> },
}

impl View for Space {
    type V = SpaceView;

    open spec fn view(&self) -> SpaceView {
        match *self {
            Space::Physical { start } => SpaceView::Physical { start },
            Space::Metadata { extents } => SpaceView::Metadata { extents: extents@ },
        }
    }
}

pub open spec fn space_view(s: Option<Space>) -> Option<SpaceView> {
    match s {
        Some(x) => Some(x@),
        None => None,
    }
}

pub open spec fn space_views(s: Seq<Option<Space>>) -> Seq<Option<SpaceView>> {
    s.map_values(|x: Option<Space>| space_view(x))
}

pub broadcast proof fn lemma_space_views_push(s: Seq<Option<Space>>, x: Option<Space>)
    ensures
        #[trigger] space_views(s.push(x)) == space_views(s).push(space_view(x)),
{
    assert(space_views(s.push(x)) =~= space_views(s).push(space_view(x)));
}

/// The bounds that a volume's own numbers give.
pub open spec fn space_ok(s: Option<SpaceView>) -> bool {
    match s {
        None => true,
        Some(SpaceView::Physical { start }) => start <= u32::MAX,
        Some(SpaceView::Metadata { extents }) => {
            &&& extents.len() <= 1024
            &&& forall|i: int|
                0 <= i < extents.len() ==> (#[trigger] extents[i]).0 <= 2 * u32::MAX
        },
    }
}

pub open spec fn spaces_ok(s: Seq<Option<SpaceView>>) -> bool {
    forall|i: int| 0 <= i < s.len() ==> space_ok(#[trigger] s[i])
}

/// The sector in which byte `off` of the file made of `extents` lies.
pub open spec fn metadata_sector(extents: Seq<(u64, u32)>, off: int) -> Option<int>
    decreases extents.len(),
{
    if extents.len() == 0 {
        None
    } else if off < extents[0].1 {
        Some(extents[0].0 + off / 2048)
    } else {
        metadata_sector(extents.skip(1), off - extents[0].1)
    }
}

/// The sector of block `block` of partition reference `partition_ref`.
pub open spec fn resolved(
    spaces: Seq<Option<SpaceView>>,
    partition_ref: u16,
    block: u32,
) -> Result<u64, UdfError> {
    if partition_ref >= spaces.len() {
        Err(UdfError::NoSpace { partition_ref })
    } else {
        match spaces[partition_ref as int] {
            None => Err(UdfError::NoSpace { partition_ref }),
            Some(SpaceView::Physical { start }) => Ok((start + block) as u64),
            Some(SpaceView::Metadata { extents }) => match metadata_sector(extents, block * 2048) {
                Some(lba) => Ok(lba as u64),
                None => Err(UdfError::PastMetadata { block: block as u64 }),
            },
        }
    }
}

pub fn resolve(spaces: &[Option<Space>], partition_ref: u16, block: u32) -> (r: Result<
    u64,
    UdfError,
>)
    requires
        spaces_ok(space_views(spaces@)),
    ensures
        r == resolved(space_views(spaces@), partition_ref, block),
        r matches Ok(lba) ==> lba < LBA_LIMIT,
{
    if partition_ref as usize >= spaces.len() {
        return Err(UdfError::NoSpace { partition_ref });
    }
    assert(space_views(spaces@)[partition_ref as int] == space_view(
        spaces@[partition_ref as int],
    ));
    assert(space_ok(space_views(spaces@)[partition_ref as int]));
    match &spaces[partition_ref as usize] {
        None => Err(UdfError::NoSpace { partition_ref }),
        Some(Space::Physical { start }) => Ok(*start + block as u64),
        Some(Space::Metadata { extents }) => {
            let off: u64 = block as u64 * SECTOR;
            let mut pos: u64 = 0;
            let mut i: usize = 0;
            let ghost all = metadata_sector(extents@, off as int);
            assert(extents@.skip(0) =~= extents@);
            while i < extents.len()
                invariant
                    i <= extents@.len() <= 1024,
                    pos <= off,
                    off == block * 2048,
                    forall|k: int|
                        0 <= k < extents@.len() ==> (#[trigger] extents@[k]).0 <= 2 * u32::MAX,
                    metadata_sector(extents@.skip(i as int), off - pos) == all,
                    match all {
                        Some(lba) => resolved(space_views(spaces@), partition_ref, block) == Ok::<
                            u64,
                            UdfError,
                        >(lba as u64),
                        None => true,
                    },
                decreases extents@.len() - i,
            {
                let (abs_sec, len) = extents[i];
                assert(extents@.skip(i as int)[0] == extents@[i as int]);
                assert(extents@.skip(i as int).skip(1) =~= extents@.skip(i + 1));
                if off - pos < len as u64 {
                    return Ok(abs_sec + (off - pos) / SECTOR);
                }
                pos += len as u64;
                i += 1;
            }
            Err(UdfError::PastMetadata { block: block as u64 })
        },
    }
}

/// The first of `pds` with this number.
pub open spec fn numbered(pds: Seq<Partition>, number: u16) -> Option<Partition>
    decreases pds.len(),
{
    if pds.len() == 0 {
        None
    } else if pds[0].number == number {
        Some(pds[0])
    } else {
        numbered(pds.skip(1), number)
    }
}

fn pd_by_number(pds: &[Partition], number: u16) -> (r: Option<Partition>)
    ensures
        r == numbered(pds@, number),
{
    let mut i: usize = 0;
    assert(pds@.skip(0) =~= pds@);
    while i < pds.len()
        invariant
            i <= pds@.len(),
            numbered(pds@, number) == numbered(pds@.skip(i as int), number),
        decreases pds@.len() - i,
    {
        assert(pds@.skip(i as int)[0] == pds@[i as int]);
        assert(pds@.skip(i as int).skip(1) =~= pds@.skip(i + 1));
        if pds[i].number == number {
            return Some(pds[i]);
        }
        i += 1;
    }
    None
}

/// The first number of a physical map, from map `i` on, for which there is no
/// partition.
pub open spec fn unmatched(pds: Seq<Partition>, maps: Seq<PartMap>, i: int) -> Option<u16>
    decreases maps.len() - i,
{
    if i < 0 || i >= maps.len() {
        None
    } else {
        match maps[i] {
            PartMap::Type1 { partition_number } => if numbered(pds, partition_number) is None {
                Some(partition_number)
            } else {
                unmatched(pds, maps, i + 1)
            },
            _ => unmatched(pds, maps, i + 1),
        }
    }
}

fn check_physical(pds: &[Partition], maps: &[PartMap]) -> (r: Option<u16>)
    ensures
        r == unmatched(pds@, maps@, 0),
{
    let mut i: usize = 0;
    while i < maps.len()
        invariant
            i <= maps@.len(),
            unmatched(pds@, maps@, 0) == unmatched(pds@, maps@, i as int),
        decreases maps@.len() - i,
    {
        if let PartMap::Type1 { partition_number } = maps[i] {
            if pd_by_number(pds, partition_number).is_none() {
                return Some(partition_number);
            }
        }
        i += 1;
    }
    None
}

/// The recorded extents as runs of sectors of a partition that starts at `phys`.
pub open spec fn physical_runs(extents: Seq<Extent>, phys: int) -> Seq<(u64, u32)>
    decreases extents.len(),
{
    if extents.len() == 0 {
        Seq::empty()
    } else {
        let rest = physical_runs(extents.drop_last(), phys);
        let e = extents.last();
        if e.kind == 0 {
            rest.push(((phys + e.block) as u64, e.length))
        } else {
            rest
        }
    }
}

/// The recorded extents of a metadata file as runs of sectors.
pub fn fe_physical_extents(extents: &[Extent], phys_start: u64) -> (r: Vec<(u64, u32)>)
    requires
        phys_start <= u32::MAX,
    ensures
        r@ == physical_runs(extents@, phys_start as int),
        r@.len() <= extents@.len(),
        forall|i: int| 0 <= i < r@.len() ==> (#[trigger] r@[i]).0 <= 2 * u32::MAX,
{
    let mut out: Vec<(u64, u32)> = Vec::new();
    let mut i: usize = 0;
    assert(extents@.take(0) =~= Seq::<Extent>::empty());
    while i < extents.len()
        invariant
            i <= extents@.len(),
            phys_start <= u32::MAX,
            out@ == physical_runs(extents@.take(i as int), phys_start as int),
            out@.len() <= i,
            forall|k: int| 0 <= k < out@.len() ==> (#[trigger] out@[k]).0 <= 2 * u32::MAX,
        decreases extents@.len() - i,
    {
        assert(extents@.take(i + 1).drop_last() =~= extents@.take(i as int));
        let e = extents[i];
        if e.kind == 0 {
            out.push((phys_start + e.block as u64, e.length));
        }
        i += 1;
    }
    assert(extents@.take(i as int) =~= extents@);
    out
}

/// The File Entry of a metadata file: the main one, or its mirror where the
/// main one cannot be had.
pub open spec fn metadata_entry(m: Known, phys: int, main: u32, mirror: u32) -> Step<
    FileEntryView,
> {
    match entry_at(m, phys + main) {
        Step::Fail(_) => entry_at(m, phys + mirror),
        s => s,
    }
}

/// The space that the map `map` stands for. Physical maps are known to have
/// their partition.
pub open spec fn map_space(m: Known, pds: Seq<Partition>, map: PartMap) -> Step<
    Option<SpaceView>,
> {
    match map {
        PartMap::Other => Step::Done(None),
        PartMap::Type1 { partition_number } => match numbered(pds, partition_number) {
            None => Step::Fail(UdfError::NoPartitionNumber { number: partition_number }),
            Some(pd) => Step::Done(Some(SpaceView::Physical { start: pd.start as u64 })),
        },
        PartMap::Metadata { physical_partition_number, metadata_file_loc, mirror_file_loc } => {
            match numbered(pds, physical_partition_number) {
                None => Step::Fail(
                    UdfError::NoPartitionNumber { number: physical_partition_number },
                ),
                Some(pd) => match metadata_entry(
                    m,
                    pd.start as int,
                    metadata_file_loc,
                    mirror_file_loc,
                ) {
                    Step::Need(q) => Step::Need(q),
                    Step::Fail(e) => Step::Fail(e),
                    Step::Done(fe) => {
                        let runs = physical_runs(fe.extents, pd.start as int);
                        if runs.len() == 0 {
                            Step::Fail(UdfError::NoMetadataExtents)
                        } else {
                            Step::Done(Some(SpaceView::Metadata { extents: runs }))
                        }
                    },
                },
            }
        },
    }
}

/// The spaces of the maps from `done.len()` on, behind those in `done`.
pub open spec fn spaces_from(
    m: Known,
    pds: Seq<Partition>,
    maps: Seq<PartMap>,
    done: Seq<Option<SpaceView>>,
) -> Step<Seq<Option<SpaceView>>>
    decreases maps.len() - done.len(),
{
    if done.len() >= maps.len() {
        Step::Done(done)
    } else {
        match map_space(m, pds, maps[done.len() as int]) {
            Step::Need(q) => Step::Need(q),
            Step::Fail(e) => Step::Fail(e),
            Step::Done(s) => spaces_from(m, pds, maps, done.push(s)),
        }
    }
}

/// The spaces of a volume without maps: one, for the file set's partition.
pub open spec fn lone_space(pds: Seq<Partition>, fsd_ref: u16) -> Seq<Option<SpaceView>> {
    let pd = match numbered(pds, fsd_ref) {
        Some(p) => p,
        None => pds.last(),
    };
    Seq::new(
        (fsd_ref + 1) as nat,
        |i: int|
            if i == fsd_ref {
                Some(SpaceView::Physical { start: pd.start as u64 })
            } else {
                None
            },
    )
}

/// What each partition reference of a volume stands for. A physical map without
/// its partition comes first among the faults, then the metadata maps in order,
/// and last a file set whose own reference stands for nothing.
pub open spec fn spaces_of(
    m: Known,
    pds: Seq<Partition>,
    maps: Seq<PartMap>,
    fsd_ref: u16,
) -> Step<Seq<Option<SpaceView>>> {
    if maps.len() == 0 {
        Step::Done(lone_space(pds, fsd_ref))
    } else {
        match unmatched(pds, maps, 0) {
            Some(number) => Step::Fail(UdfError::NoPartitionNumber { number }),
            None => match spaces_from(m, pds, maps, Seq::empty()) {
                Step::Need(q) => Step::Need(q),
                Step::Fail(e) => Step::Fail(e),
                Step::Done(s) => if fsd_ref < s.len() && s[fsd_ref as int] is Some {
                    Step::Done(s)
                } else {
                    Step::Fail(UdfError::FsdUnresolved { partition_ref: fsd_ref })
                },
            },
        }
    }
}

fn read_map_space(log: &ReadLog, pds: &[Partition], map: PartMap) -> (r: Step<Option<Space>>)
    ensures
        match r {
            Step::Need(q) => map_space(log@, pds@, map) == Step::<Option<SpaceView>>::Need(q),
            Step::Fail(e) => map_space(log@, pds@, map) == Step::<Option<SpaceView>>::Fail(e),
            Step::Done(s) => map_space(log@, pds@, map) == Step::Done(space_view(s)) && space_ok(
                space_view(s),
            ),
        },
{
    match map {
        PartMap::Other => Step::Done(None),
        PartMap::Type1 { partition_number } => match pd_by_number(pds, partition_number) {
            None => Step::Fail(UdfError::NoPartitionNumber { number: partition_number }),
            Some(pd) => Step::Done(Some(Space::Physical { start: pd.start as u64 })),
        },
        PartMap::Metadata { physical_partition_number, metadata_file_loc, mirror_file_loc } => {
            let pd = match pd_by_number(pds, physical_partition_number) {
                None => {
                    return Step::Fail(
                        UdfError::NoPartitionNumber { number: physical_partition_number },
                    );
                },
                Some(pd) => pd,
            };
            let phys: u64 = pd.start as u64;
            let fe = match read_fe(log, phys + metadata_file_loc as u64) {
                Step::Need(q) => {
                    return Step::Need(q);
                },
                Step::Done(fe) => fe,
                Step::Fail(_) => match read_fe(log, phys + mirror_file_loc as u64) {
                    Step::Need(q) => {
                        return Step::Need(q);
                    },
                    Step::Fail(e) => {
                        return Step::Fail(e);
                    },
                    Step::Done(fe) => fe,
                },
            };
            let runs = fe_physical_extents(fe.extents.as_slice(), phys);
            if runs.len() == 0 {
                Step::Fail(UdfError::NoMetadataExtents)
            } else {
                Step::Done(Some(Space::Metadata { extents: runs }))
            }
        },
    }
}

/// Works out what each partition reference stands for.
pub fn build_spaces(log: &ReadLog, pds: &[Partition], maps: &[PartMap], fsd_ref: u16) -> (r: Step<
    Vec<Option<Space>>,
>)
    requires
        maps@.len() == 0 ==> pds@.len() > 0,
    ensures
        match r {
            Step::Need(q) => spaces_of(log@, pds@, maps@, fsd_ref) == Step::<
                Seq<Option<SpaceView>>,
            >::Need(q),
            Step::Fail(e) => spaces_of(log@, pds@, maps@, fsd_ref) == Step::<
                Seq<Option<SpaceView>>,
            >::Fail(e),
            Step::Done(s) => spaces_of(log@, pds@, maps@, fsd_ref) == Step::Done(space_views(s@))
                && spaces_ok(space_views(s@)),
        },
{
    broadcast use lemma_space_views_push;

    let mut spaces: Vec<Option<Space>> = Vec::new();
    assert(space_views(spaces@) =~= Seq::<Option<SpaceView>>::empty());
    if maps.len() == 0 {
        let pd = match pd_by_number(pds, fsd_ref) {
            Some(p) => p,
            None => pds[pds.len() - 1],
        };
        let mut i: u16 = 0;
        while i < fsd_ref
            invariant
                i <= fsd_ref,
                spaces@.len() == i,
                forall|k: int| 0 <= k < i ==> spaces@[k] is None,
            decreases fsd_ref - i,
        {
            spaces.push(None);
            i += 1;
        }
        spaces.push(Some(Space::Physical { start: pd.start as u64 }));
        assert(space_views(spaces@) =~= lone_space(pds@, fsd_ref));
        return Step::Done(spaces);
    }
    if let Some(number) = check_physical(pds, maps) {
        return Step::Fail(UdfError::NoPartitionNumber { number });
    }
    let ghost all = spaces_from(log@, pds@, maps@, Seq::empty());
    let mut i: usize = 0;
    while i < maps.len()
        invariant
            i <= maps@.len(),
            maps@.len() > 0,
            unmatched(pds@, maps@, 0) is None,
            spaces@.len() == i,
            all == spaces_from(log@, pds@, maps@, Seq::empty()),
            all == spaces_from(log@, pds@, maps@, space_views(spaces@)),
            spaces_ok(space_views(spaces@)),
        decreases maps@.len() - i,
    {
        match read_map_space(log, pds, maps[i]) {
            Step::Need(q) => {
                return Step::Need(q);
            },
            Step::Fail(e) => {
                return Step::Fail(e);
            },
            Step::Done(s) => {
                let ghost before = space_views(spaces@);
                let ghost one = space_view(s);
                spaces.push(s);
                assert(space_views(spaces@) == before.push(one));
            },
        }
        i += 1;
    }
    assert(all == Step::Done(space_views(spaces@)));
    if (fsd_ref as usize) < spaces.len() && spaces[fsd_ref as usize].is_some() {
        Step::Done(spaces)
    } else {
        Step::Fail(UdfError::FsdUnresolved { partition_ref: fsd_ref })
    }
}

// ───────────────────────── extents and whole files ─────────────────────────

/// Where the recorded extents from `i` on lie on the device: first byte and
/// length.
pub open spec fn placed(
    spaces: Seq<Option<SpaceView>>,
    extents: Seq<Extent>,
    implied: u16,
    i: int,
) -> Result<Seq<(u64, u32)>, UdfError>
    decreases extents.len() - i,
{
    if i < 0 || i >= extents.len() {
        Ok(Seq::empty())
    } else if extents[i].kind != 0 {
        placed(spaces, extents, implied, i + 1)
    } else {
        let pref = match extents[i].partition_ref {
            Some(p) => p,
            None => implied,
        };
        match resolved(spaces, pref, extents[i].block) {
            Err(e) => Err(e),
            Ok(lba) => match placed(spaces, extents, implied, i + 1) {
                Err(e) => Err(e),
                Ok(rest) => Ok(seq![((lba * 2048) as u64, extents[i].length)] + rest),
            },
        }
    }
}

/// The bounds of extents that were placed.
pub open spec fn runs_ok(runs: Seq<(u64, u32)>) -> bool {
    &&& runs.len() <= 1024
    &&& forall|i: int| 0 <= i < runs.len() ==> (#[trigger] runs[i]).0 < LBA_LIMIT * SECTOR
}

pub fn extents_abs(spaces: &[Option<Space>], extents: &[Extent], implied: u16) -> (r: Result<
    Vec<(u64, u32)>,
    UdfError,
>)
    requires
        spaces_ok(space_views(spaces@)),
        extents@.len() <= 1024,
    ensures
        match r {
            Ok(runs) => placed(space_views(spaces@), extents@, implied, 0) == Ok::<
                Seq<(u64, u32)>,
                UdfError,
            >(runs@) && runs_ok(runs@),
            Err(e) => placed(space_views(spaces@), extents@, implied, 0) == Err::<
                Seq<(u64, u32)>,
                UdfError,
            >(e),
        },
        r matches Ok(runs) ==> super::place::runs_right(
            space_views(spaces@),
            extents@,
            implied,
            runs@,
        ),
{
    proof {
        super::place::lemma_runs_right(space_views(spaces@), extents@, implied);
    }
    let mut out: Vec<(u64, u32)> = Vec::new();
    let mut i: usize = 0;
    let ghost sv = space_views(spaces@);
    let ghost all = placed(sv, extents@, implied, 0);
    proof {
        if let Ok(rest) = all {
            assert(out@ + rest =~= rest);
        }
    }
    while i < extents.len()
        invariant
            i <= extents@.len() <= 1024,
            sv == space_views(spaces@),
            spaces_ok(sv),
            out@.len() <= i,
            runs_ok(out@),
            all == placed(sv, extents@, implied, 0),
            match placed(sv, extents@, implied, i as int) {
                Ok(rest) => all == Ok::<Seq<(u64, u32)>, UdfError>(out@ + rest),
                Err(e) => all == Err::<Seq<(u64, u32)>, UdfError>(e),
            },
        decreases extents@.len() - i,
    {
        let e = extents[i];
        if e.kind == 0 {
            let pref: u16 = match e.partition_ref {
                Some(p) => p,
                None => implied,
            };
            match resolve(spaces, pref, e.block) {
                Err(x) => {
                    return Err(x);
                },
                Ok(lba) => {
                    let one: (u64, u32) = (lba * SECTOR, e.length);
                    proof {
                        if let Ok(rest) = placed(sv, extents@, implied, i + 1) {
                            assert(out@ + (seq![one] + rest) =~= out@.push(one) + rest);
                        }
                    }
                    out.push(one);
                },
            }
        }
        i += 1;
    }
    assert(out@ + Seq::<(u64, u32)>::empty() =~= out@);
    Ok(out)
}

/// The File Entry that `icb` leads to.
pub open spec fn entry_of(m: Known, spaces: Seq<Option<SpaceView>>, icb: Icb) -> Step<
    FileEntryView,
> {
    match resolved(spaces, icb.partition_ref, icb.block) {
        Err(e) => Step::Fail(e),
        Ok(lba) => entry_at(m, lba as int),
    }
}

pub fn read_fe_at(log: &ReadLog, spaces: &[Option<Space>], icb: Icb) -> (r: Step<FileEntry>)
    requires
        spaces_ok(space_views(spaces@)),
    ensures
        r@ == entry_of(log@, space_views(spaces@), icb),
        r matches Step::Done(e) ==> e@.extents.len() <= 1024,
{
    match resolve(spaces, icb.partition_ref, icb.block) {
        Err(e) => Step::Fail(e),
        Ok(lba) => read_fe(log, lba),
    }
}

/// The bytes of the extents from `i` on, behind those in `got`, until `want`
/// bytes are there.
pub open spec fn gathered(
    m: Known,
    runs: Seq<(u64, u32)>,
    i: int,
    got: Seq<u8>,
    want: int,
) -> Step<Seq<u8>>
    decreases runs.len() - i,
{
    if i < 0 || i >= runs.len() {
        Step::Done(got)
    } else {
        match log::bytes_at(m, runs[i].0 as int, runs[i].1 as int) {
            Step::Need(q) => Step::Need(q),
            Step::Fail(e) => Step::Fail(e),
            Step::Done(b) => if (got + b).len() >= want {
                Step::Done(got + b)
            } else {
                gathered(m, runs, i + 1, got + b, want)
            },
        }
    }
}

/// All bytes of the file that a File Entry of partition `implied` describes.
pub open spec fn entry_bytes(
    m: Known,
    spaces: Seq<Option<SpaceView>>,
    fe: FileEntryView,
    implied: u16,
) -> Step<Seq<u8>> {
    let want = fe.information_length as int;
    if fe.embedded {
        Step::Done(log::clip(fe.data, 0, want))
    } else {
        match placed(spaces, fe.extents, implied, 0) {
            Err(e) => Step::Fail(e),
            Ok(runs) => match gathered(m, runs, 0, Seq::empty(), want) {
                Step::Need(q) => Step::Need(q),
                Step::Fail(e) => Step::Fail(e),
                Step::Done(b) => Step::Done(log::clip(b, 0, want)),
            },
        }
    }
}

/// All bytes of the file that `icb` leads to.
pub open spec fn file_bytes(m: Known, spaces: Seq<Option<SpaceView>>, icb: Icb) -> Step<Seq<u8>> {
    match entry_of(m, spaces, icb) {
        Step::Need(q) => Step::Need(q),
        Step::Fail(e) => Step::Fail(e),
        Step::Done(fe) => entry_bytes(m, spaces, fe, icb.partition_ref),
    }
}

/// Reads the file that a File Entry of partition `implied` describes. An entry
/// that was read has at most 1024 extents.
pub fn read_entry_bytes(
    log: &ReadLog,
    spaces: &[Option<Space>],
    fe: &FileEntry,
    implied: u16,
) -> (r: Step<Vec<u8>>)
    requires
        spaces_ok(space_views(spaces@)),
        fe@.extents.len() <= 1024,
    ensures
        r@ == entry_bytes(log@, space_views(spaces@), fe@, implied),
{
    let want: u64 = fe.information_length;
    if fe.embedded {
        return Step::Done(log::clip_bytes(fe.data.as_slice(), 0, want));
    }
    let runs = match extents_abs(spaces, fe.extents.as_slice(), implied) {
        Err(e) => {
            return Step::Fail(e);
        },
        Ok(runs) => runs,
    };
    let mut out: Vec<u8> = Vec::new();
    let mut i: usize = 0;
    let ghost all = gathered(log@, runs@, 0, Seq::empty(), want as int);
    let ghost answer = entry_bytes(log@, space_views(spaces@), fe@, implied);
    assert(out@ =~= Seq::<u8>::empty());
    while i < runs.len()
        invariant_except_break
            all == gathered(log@, runs@, i as int, out@, want as int),
        invariant
            i <= runs@.len(),
            runs_ok(runs@),
            answer == entry_bytes(log@, space_views(spaces@), fe@, implied),
            match all {
                Step::Need(q) => answer == Step::<Seq<u8>>::Need(q),
                Step::Fail(e) => answer == Step::<Seq<u8>>::Fail(e),
                Step::Done(b) => answer == Step::Done(log::clip(b, 0, want as int)),
            },
        ensures
            all == Step::Done(out@),
        decreases runs@.len() - i,
    {
        let (abs, len) = runs[i];
        match log::read_abs(log, abs, len as u64) {
            Step::Need(q) => {
                return Step::Need(q);
            },
            Step::Fail(e) => {
                return Step::Fail(e);
            },
            Step::Done(b) => {
                let ghost before = out@;
                out.extend_from_slice(b.as_slice());
                assert(out@ =~= before + b@);
            },
        }
        if out.len() as u64 >= want {
            break;
        }
        i += 1;
    }
    Step::Done(log::clip_bytes(out.as_slice(), 0, want))
}

pub fn read_file_bytes(log: &ReadLog, spaces: &[Option<Space>], icb: Icb) -> (r: Step<Vec<u8>>)
    requires
        spaces_ok(space_views(spaces@)),
    ensures
        r@ == file_bytes(log@, space_views(spaces@), icb),
{
    match read_fe_at(log, spaces, icb) {
        Step::Need(q) => Step::Need(q),
        Step::Fail(e) => Step::Fail(e),
        Step::Done(fe) => read_entry_bytes(log, spaces, &fe, icb.partition_ref),
    }
}

// ───────────────────────── directories ─────────────────────────

/// An entry of a directory.
pub struct DirEntry {
    pub name: String,
    pub icb: Icb,
    pub is_directory: bool,
}

pub struct DirEntryView {
    pub name: Seq<char>,
    pub icb: Icb,
    pub is_directory: bool,
}

impl View for DirEntry {
    type V = DirEntryView;

    open spec fn view(&self) -> DirEntryView {
        DirEntryView { name: self.name@, icb: self.icb, is_directory: self.is_directory }
    }
}

pub open spec fn entry_views(s: Seq<DirEntry>) -> Seq<DirEntryView> {
    s.map_values(|e: DirEntry| e@)
}

/// The entries recorded from byte `at` of a directory on; one that is deleted
/// or stands for the parent is left out.
pub open spec fn entries_from(raw: Seq<u8>, at: int) -> Result<Seq<DirEntryView>, UdfError>
    decreases log::missing(at, raw.len() as int),
{
    if at < 0 || at + 38 > raw.len() {
        Ok(Seq::empty())
    } else {
        match descriptor::identifier_of(raw.skip(at)) {
            None => Err(UdfError::BadIdentifier { at: at as u64 }),
            Some(d) => match entries_from(raw, at + d.total_size) {
                Err(e) => Err(e),
                Ok(rest) => if d.characteristics & 0x04 != 0 || d.characteristics & 0x08 != 0 {
                    Ok(rest)
                } else {
                    Ok(
                        seq![
                            DirEntryView {
                                name: d.name,
                                icb: d.icb,
                                is_directory: d.characteristics & 0x02 != 0,
                            },
                        ] + rest,
                    )
                },
            },
        }
    }
}

/// Reads the entries of a directory from its bytes.
pub fn parse_directory(raw: &[u8]) -> (r: Result<Vec<DirEntry>, UdfError>)
    ensures
        match r {
            Ok(v) => entries_from(raw@, 0) == Ok::<Seq<DirEntryView>, UdfError>(entry_views(v@)),
            Err(e) => entries_from(raw@, 0) == Err::<Seq<DirEntryView>, UdfError>(e),
        },
{
    let mut out: Vec<DirEntry> = Vec::new();
    let n: usize = raw.len();
    let mut at: usize = 0;
    let ghost all = entries_from(raw@, 0);
    proof {
        if let Ok(rest) = all {
            assert(entry_views(out@) + rest =~= rest);
        }
    }
    while at < n && n - at >= 38
        invariant
            n == raw@.len(),
            all == entries_from(raw@, 0),
            match entries_from(raw@, at as int) {
                Ok(rest) => all == Ok::<Seq<DirEntryView>, UdfError>(entry_views(out@) + rest),
                Err(e) => all == Err::<Seq<DirEntryView>, UdfError>(e),
            },
        decreases n - at,
    {
        let part = &raw[at..n];
        assert(part@ =~= raw@.skip(at as int));
        match descriptor::identifier(part, at as u64) {
            Err(e) => {
                return Err(e);
            },
            Ok(d) => {
                let total: usize = d.total_size;
                if d.characteristics & 0x04 == 0 && d.characteristics & 0x08 == 0 {
                    let ghost before = entry_views(out@);
                    let one = DirEntry {
                        name: d.name,
                        icb: d.icb,
                        is_directory: d.characteristics & 0x02 != 0,
                    };
                    out.push(one);
                    proof {
                        assert(entry_views(out@) =~= before.push(one@));
                        if let Ok(rest) = entries_from(raw@, at + total) {
                            assert(before + (seq![one@] + rest) =~= before.push(one@) + rest);
                        }
                    }
                }
                if n - at <= total {
                    assert(entries_from(raw@, at + total) == Ok::<Seq<DirEntryView>, UdfError>(
                        Seq::empty(),
                    ));
                    at = n;
                    assert(entries_from(raw@, at as int) == Ok::<Seq<DirEntryView>, UdfError>(
                        Seq::empty(),
                    ));
                } else {
                    at += total;
                }
            },
        }
    }
    assert(entry_views(out@) + Seq::<DirEntryView>::empty() =~= entry_views(out@));
    Ok(out)
}

/// The entries of the directory that `icb` leads to.
pub open spec fn directory(m: Known, spaces: Seq<Option<SpaceView>>, icb: Icb) -> Step<
    Seq<DirEntryView>,
> {
    match file_bytes(m, spaces, icb) {
        Step::Need(q) => Step::Need(q),
        Step::Fail(e) => Step::Fail(e),
        Step::Done(raw) => match entries_from(raw, 0) {
            Err(e) => Step::Fail(e),
            Ok(v) => Step::Done(v),
        },
    }
}

/// A step whose result is a list of entries, by the entries' views.
pub open spec fn listing(r: Step<Vec<DirEntry>>) -> Step<Seq<DirEntryView>> {
    match r {
        Step::Need(q) => Step::Need(q),
        Step::Fail(e) => Step::Fail(e),
        Step::Done(v) => Step::Done(entry_views(v@)),
    }
}

pub fn read_directory(log: &ReadLog, spaces: &[Option<Space>], icb: Icb) -> (r: Step<
    Vec<DirEntry>,
>)
    requires
        spaces_ok(space_views(spaces@)),
    ensures
        listing(r) == directory(log@, space_views(spaces@), icb),
{
    match read_file_bytes(log, spaces, icb) {
        Step::Need(q) => Step::Need(q),
        Step::Fail(e) => Step::Fail(e),
        Step::Done(raw) => match parse_directory(raw.as_slice()) {
            Err(e) => Step::Fail(e),
            Ok(v) => Step::Done(v),
        },
    }
}

/// The first entry called `name`, in whichever case.
pub open spec fn entry_named(entries: Seq<DirEntryView>, name: Seq<char>) -> Option<DirEntryView>
    decreases entries.len(),
{
    if entries.len() == 0 {
        None
    } else if text::lower(entries[0].name) == text::lower(name) {
        Some(entries[0])
    } else {
        entry_named(entries.skip(1), name)
    }
}

fn find_entry(entries: &[DirEntry], name: &[char]) -> (r: Option<(Icb, bool)>)
    ensures
        match entry_named(entry_views(entries@), name@) {
            Some(e) => r == Some((e.icb, e.is_directory)),
            None => r is None,
        },
{
    let ghost all = entry_views(entries@);
    let mut i: usize = 0;
    assert(all.skip(0) =~= all);
    while i < entries.len()
        invariant
            i <= entries@.len(),
            all == entry_views(entries@),
            entry_named(all, name@) == entry_named(all.skip(i as int), name@),
        decreases entries@.len() - i,
    {
        assert(all.skip(i as int)[0] == entries@[i as int]@);
        assert(all.skip(i as int).skip(1) =~= all.skip(i + 1));
        let called = text::chars_of(entries[i].name.as_str());
        if text::eq_ignore_ascii_case(called.as_slice(), name) {
            return Some((entries[i].icb, entries[i].is_directory));
        }
        i += 1;
    }
    None
}

/// Follows the components of a path from `depth` on, starting at `cur`.
pub open spec fn descended(
    m: Known,
    spaces: Seq<Option<SpaceView>>,
    cur: Icb,
    is_dir: bool,
    names: Seq<Seq<char>>,
    depth: int,
) -> Step<Icb>
    decreases names.len() - depth,
{
    if depth < 0 || depth >= names.len() {
        Step::Done(cur)
    } else if !is_dir {
        Step::Fail(UdfError::IntoFile { depth: depth as u64 })
    } else {
        match directory(m, spaces, cur) {
            Step::Need(q) => Step::Need(q),
            Step::Fail(e) => Step::Fail(e),
            Step::Done(entries) => match entry_named(entries, names[depth]) {
                None => Step::Fail(UdfError::NotFound { depth: depth as u64 }),
                Some(e) => descended(m, spaces, e.icb, e.is_directory, names, depth + 1),
            },
        }
    }
}

/// Where the path `path` leads from the root directory `root`.
pub open spec fn found(m: Known, spaces: Seq<Option<SpaceView>>, root: Icb, path: Seq<char>) -> Step<
    Icb,
> {
    descended(m, spaces, root, true, text::words(path, text::Separator::Slash), 0)
}

pub fn look_up(log: &ReadLog, spaces: &[Option<Space>], root: Icb, path: &str) -> (r: Step<Icb>)
    requires
        spaces_ok(space_views(spaces@)),
    ensures
        r == found(log@, space_views(spaces@), root, path@),
{
    let chars = text::chars_of(path);
    let names = text::split_words(chars.as_slice(), text::Separator::Slash);
    let ghost all = found(log@, space_views(spaces@), root, path@);
    let mut cur: Icb = root;
    let mut is_dir = true;
    let mut i: usize = 0;
    while i < names.len()
        invariant
            i <= names@.len(),
            spaces_ok(space_views(spaces@)),
            all == found(log@, space_views(spaces@), root, path@),
            all == descended(
                log@,
                space_views(spaces@),
                cur,
                is_dir,
                text::texts(names@),
                i as int,
            ),
        decreases names@.len() - i,
    {
        assert(text::texts(names@)[i as int] == names@[i as int]@);
        if !is_dir {
            return Step::Fail(UdfError::IntoFile { depth: i as u64 });
        }
        let entries = match read_directory(log, spaces, cur) {
            Step::Need(q) => {
                return Step::Need(q);
            },
            Step::Fail(e) => {
                return Step::Fail(e);
            },
            Step::Done(v) => v,
        };
        match find_entry(entries.as_slice(), names[i].as_slice()) {
            None => {
                return Step::Fail(UdfError::NotFound { depth: i as u64 });
            },
            Some((icb, dir)) => {
                cur = icb;
                is_dir = dir;
            },
        }
        i += 1;
    }
    Step::Done(cur)
}

} // verus!
