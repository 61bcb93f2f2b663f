//! What the commands decide: which disc to use, what to show, what to mount and
//! what to eject.

pub mod law;
pub mod report;
pub mod serve;
pub mod takeover;

use vstd::prelude::*;

use crate::da::OpticalClass;
use crate::disc::{volume_views, BdVolume, BdVolumeView, DiscTree, NodeKind, NodeView};
use crate::drives;
use crate::drives::{Live, OpticalDrive};
use crate::idle;
use crate::idle::{DriveStatus, EjectRequest, Snapshot, SnapshotView, State};
use crate::mmbd;
use crate::mount;
use crate::mount::{mounted_views, MountOptions, MountedDisc, MountedView};
use crate::number;
use crate::order;
use crate::rawudf::device;
use crate::rawudf::log::{clip, clip_bytes, missing};
use crate::text;

verus! {

broadcast use vstd::string::group_string_axioms;

// ───────────────────────── options ─────────────────────────

pub open spec fn filter_text(verbose: u8) -> Seq<char> {
    if verbose == 0 {
        "bdmount=info,libmmbd=warn,nfsserve=warn"@
    } else if verbose == 1 {
        "bdmount=info,libmmbd=info,nfsserve=info"@
    } else if verbose == 2 {
        "bdmount=debug,libmmbd=debug,nfsserve=info"@
    } else {
        "trace"@
    }
}

/// What is logged, by how often `-v` was given.
pub fn log_filter(verbose: u8) -> (r: &'static str)
    ensures
        r@ == filter_text(verbose),
{
    match verbose {
        0 => "bdmount=info,libmmbd=warn,nfsserve=warn",
        1 => "bdmount=info,libmmbd=info,nfsserve=info",
        2 => "bdmount=debug,libmmbd=debug,nfsserve=info",
        _ => "trace",
    }
}

/// A size in mebibytes as bytes, if it fits.
pub fn cache_bytes(mib: usize) -> (r: Option<usize>)
    ensures
        r == if mib * 1_048_576 <= usize::MAX {
            Some((mib * 1_048_576) as usize)
        } else {
            None
        },
{
    mib.checked_mul(1_048_576)
}

/// The volume that a command is about: the one that was named, else the first
/// protected Blu-ray, else the first one.
pub open spec fn picked(volume: Option<Seq<char>>, vols: Seq<BdVolumeView>) -> Option<Seq<char>> {
    match volume {
        Some(v) => Some(v),
        None => match first_protected(vols) {
            Some(p) => Some(p),
            None => if vols.len() > 0 {
                Some(vols[0].path)
            } else {
                None
            },
        },
    }
}

pub open spec fn first_protected(vols: Seq<BdVolumeView>) -> Option<Seq<char>>
    decreases vols.len(),
{
    if vols.len() == 0 {
        None
    } else if vols[0].protected {
        Some(vols[0].path)
    } else {
        first_protected(vols.skip(1))
    }
}

pub fn pick_volume(volume: Option<&str>, vols: &[BdVolume]) -> (r: Option<String>)
    ensures
        idle::opt_string(r) == picked(idle::opt_view(volume), volume_views(vols@)),
{
    if let Some(v) = volume {
        return Some(text::owned(v));
    }
    let ghost all = volume_views(vols@);
    let mut i: usize = 0;
    assert(all.skip(0) =~= all);
    while i < vols.len()
        invariant
            i <= vols@.len(),
            all == volume_views(vols@),
            first_protected(all) == first_protected(all.skip(i as int)),
            volume is None,
        decreases vols@.len() - i,
    {
        assert(all.skip(i as int)[0] == vols@[i as int]@);
        assert(all.skip(i as int).skip(1) =~= all.skip(i + 1));
        if vols[i].protected {
            return Some(text::owned(vols[i].path.as_str()));
        }
        i += 1;
    }
    if vols.len() > 0 {
        assert(all[0] == vols@[0]@);
        Some(text::owned(vols[0].path.as_str()))
    } else {
        None
    }
}

/// The state of a system of which no running program tells: something is served,
/// a helper is left over, or nothing is going on.
pub fn found_state(mounts: &[String], helpers: &[idle::Holder]) -> (r: State)
    ensures
        r == if mounts@.len() > 0 {
            State::Serving
        } else if helpers@.len() > 0 {
            State::Stuck
        } else {
            State::Idle
        },
{
    if mounts.len() > 0 {
        State::Serving
    } else if helpers.len() > 0 {
        State::Stuck
    } else {
        State::Idle
    }
}

/// What to unmount: everything that is ours, or what was named. Neither is a
/// mistake.
pub fn unmount_targets(all: bool, mountpoint: Option<&str>, active: &[String]) -> (r: Option<
    Vec<String>,
>)
    ensures
        match r {
            Some(v) => text::strs(v@) == if all {
                text::strs(active@)
            } else {
                seq![mountpoint->0@]
            } && (all || mountpoint is Some),
            None => !all && mountpoint is None,
        },
{
    if all {
        return Some(text::clone_strings(active));
    }
    match mountpoint {
        Some(m) => {
            let mut v: Vec<String> = Vec::new();
            v.push(text::owned(m));
            assert(text::strs(v@) =~= seq![m@]);
            Some(v)
        },
        None => None,
    }
}

// ───────────────────────── probing ─────────────────────────

/// How many bytes of a stream are decrypted to prove that it works: `units`
/// units, at most eight of each stream where all streams are tried, and no more
/// than there are.
pub open spec fn probe_bytes(units: u64, all_streams: bool, size: u64) -> int {
    let n = if all_streams && units > 8 {
        8
    } else {
        units as int
    };
    if n * 6144 < size {
        n * 6144
    } else {
        size as int
    }
}

pub fn probe_want(units: u64, all_streams: bool, size: u64) -> (r: u64)
    ensures
        r == probe_bytes(units, all_streams, size),
{
    let n: u64 = if all_streams && units > 8 {
        8
    } else {
        units
    };
    if n <= size / 6144 {
        if n * 6144 < size {
            n * 6144
        } else {
            size
        }
    } else {
        size
    }
}

/// The unit was decrypted: every packet starts with a sync byte, and the marks of
/// an encrypted one are gone.
pub open spec fn is_clean(unit: Seq<u8>) -> bool {
    mmbd::clear_ts(unit) && !(unit.len() > 0 && unit[0] >= 0x40)
}

/// How many of the units of `data`, from byte `at` on, are clean, and how many
/// are not. A short one at the end is not.
pub open spec fn clean_and_bad(data: Seq<u8>, at: int) -> (int, int)
    decreases missing(at, data.len() as int),
{
    if at < 0 || at >= data.len() {
        (0, 0)
    } else {
        let rest = clean_and_bad(data, at + 6144);
        if is_clean(clip(data, at, at + 6144)) {
            (rest.0 + 1, rest.1)
        } else {
            (rest.0, rest.1 + 1)
        }
    }
}

pub fn count_units(data: &[u8]) -> (r: (u64, u64))
    ensures
        r.0 == clean_and_bad(data@, 0).0,
        r.1 == clean_and_bad(data@, 0).1,
{
    let mut ok: u64 = 0;
    let mut bad: u64 = 0;
    let mut at: u64 = 0;
    let total: u64 = data.len() as u64;
    let ghost all = clean_and_bad(data@, 0);
    while at < total
        invariant
            total == data@.len(),
            total <= usize::MAX,
            ok + bad <= at,
            at <= total,
            all == clean_and_bad(data@, 0),
            all.0 == ok + clean_and_bad(data@, at as int).0,
            all.1 == bad + clean_and_bad(data@, at as int).1,
        decreases total - at,
    {
        let left: u64 = total - at;
        let n: u64 = if left < 6144 {
            left
        } else {
            6144
        };
        let unit = clip_bytes(data, at, at + n);
        assert(unit@ =~= clip(data@, at as int, at + 6144));
        if mmbd::unit_looks_like_clear_ts(unit.as_slice()) && !mmbd::unit_is_encrypted(
            unit.as_slice(),
        ) {
            ok += 1;
        } else {
            bad += 1;
        }
        assert(left < 6144 ==> clean_and_bad(data@, at + 6144) == (0int, 0int));
        assert(clean_and_bad(data@, total as int) == (0int, 0int));
        at += n;
    }
    (ok, bad)
}

pub open spec fn by_name(nodes: Seq<NodeView>) -> spec_fn(int, int) -> order::Rank {
    |a: int, b: int| order::bytes_rank(nodes[a].name, nodes[b].name)
}

/// The places of the encrypted streams among the first `k` nodes.
pub open spec fn streams_upto(nodes: Seq<NodeView>, k: int) -> Seq<int>
    decreases k,
{
    if k <= 0 {
        Seq::empty()
    } else {
        let before = streams_upto(nodes, k - 1);
        if nodes[k - 1].kind is Encrypted {
            before.push(k - 1)
        } else {
            before
        }
    }
}

pub open spec fn places(v: Seq<usize>) -> Seq<int> {
    v.map_values(|i: usize| i as int)
}

fn insert_place(out: &mut Vec<usize>, i: usize, tree: &DiscTree)
    requires
        i < tree.nodes@.len(),
        forall|k: int| 0 <= k < old(out)@.len() ==> #[trigger] old(out)@[k] < tree.nodes@.len(),
    ensures
        places(final(out)@) == order::inserted(places(old(out)@), i as int, by_name(tree@.nodes)),
        forall|k: int| 0 <= k < final(out)@.len() ==> #[trigger] final(out)@[k]
            < tree.nodes@.len(),
{
    let ghost all = places(out@);
    let ghost rank = by_name(tree@.nodes);
    let ghost before = out@;
    let mut k: usize = out.len();
    assert(all.take(k as int) =~= all);
    assert(forall|n: int|
        0 <= n < tree.nodes@.len() ==> #[trigger] tree@.nodes[n] == tree.nodes@[n]@);
    while k > 0 && order::rank_bytes(
        tree.nodes[out[k - 1]].name.as_slice(),
        tree.nodes[i].name.as_slice(),
    ) == order::Rank::After
        invariant
            k <= out@.len(),
            i < tree.nodes@.len(),
            out@ == before,
            forall|n: int| 0 <= n < before.len() ==> #[trigger] before[n] < tree.nodes@.len(),
            forall|n: int|
                0 <= n < tree.nodes@.len() ==> #[trigger] tree@.nodes[n] == tree.nodes@[n]@,
            all == places(out@),
            rank == by_name(tree@.nodes),
            order::slot(all, i as int, rank) == order::slot(all.take(k as int), i as int, rank),
        decreases k,
    {
        assert(all.take(k as int).drop_last() =~= all.take(k - 1));
        assert(all.take(k as int).last() == out@[k - 1] as int);
        k -= 1;
    }
    proof {
        if k > 0 {
            assert(all.take(k as int).last() == out@[k - 1] as int);
        }
        order::lemma_slot(all, i as int, rank);
    }
    out.insert(k, i);
    assert(places(out@) =~= all.insert(k as int, i as int));
}

/// The streams to be tried, by their place in the tree: all of them by name, or
/// one that is largest. None where there are no encrypted streams and not all
/// are asked for.
pub fn probe_targets(tree: &DiscTree, all_streams: bool) -> (r: Option<Vec<usize>>)
    ensures
        match r {
            Some(v) => if all_streams {
                places(v@) == order::sorted(
                    streams_upto(tree@.nodes, tree@.nodes.len() as int),
                    by_name(tree@.nodes),
                )
            } else {
                v@.len() == 1 && v@[0] < tree@.nodes.len() && tree@.is_largest_encrypted(
                    tree@.nodes[v@[0] as int],
                )
            },
            None => !all_streams && forall|i: int|
                0 <= i < tree@.nodes.len() ==> !((#[trigger] tree@.nodes[i]).kind is Encrypted),
        },
{
    let ghost nodes = tree@.nodes;
    let mut out: Vec<usize> = Vec::new();
    let mut i: usize = 0;
    assert(places(out@) =~= Seq::<int>::empty());
    let mut best: Option<usize> = None;
    while i < tree.nodes.len()
        invariant
            i <= tree.nodes@.len(),
            nodes == tree@.nodes,
            places(out@) == order::sorted(streams_upto(nodes, i as int), by_name(nodes)),
            forall|k: int| 0 <= k < out@.len() ==> #[trigger] out@[k] < tree.nodes@.len(),
            match best {
                Some(b) => {
                    &&& b < i
                    &&& nodes[b as int].kind is Encrypted
                    &&& forall|j: int|
                        0 <= j < i && (#[trigger] nodes[j]).kind is Encrypted ==> nodes[j].size
                            <= nodes[b as int].size
                },
                None => forall|j: int| 0 <= j < i ==> !((#[trigger] nodes[j]).kind is Encrypted),
            },
        decreases tree.nodes@.len() - i,
    {
        assert(nodes[i as int] == tree.nodes@[i as int]@);
        let stream = match tree.nodes[i].kind {
            NodeKind::Encrypted { .. } => true,
            _ => false,
        };
        if stream {
            let ghost before = streams_upto(nodes, i as int);
            assert(before.push(i as int).drop_last() =~= before);
            insert_place(&mut out, i, tree);
            best = match best {
                Some(b) => {
                    assert(nodes[b as int] == tree.nodes@[b as int]@);
                    if tree.nodes[i].size >= tree.nodes[b].size {
                        Some(i)
                    } else {
                        Some(b)
                    }
                },
                None => Some(i),
            };
        }
        i += 1;
    }
    if all_streams {
        return Some(out);
    }
    match best {
        Some(b) => {
            assert(nodes.contains(nodes[b as int]));
            let mut one: Vec<usize> = Vec::new();
            one.push(b);
            Some(one)
        },
        None => None,
    }
}

// ───────────────────────── serving ─────────────────────────

/// The devices to serve: those that were named, and the one that was named as a
/// volume, unless it is among them. A volume that is no device is a mistake.
pub fn watch_list(devices: &[String], volume: Option<&str>) -> (r: Option<Vec<String>>)
    ensures
        match volume {
            None => r matches Some(v) && text::strs(v@) == text::strs(devices@),
            Some(p) => match r {
                None => !mount::is_device(p@),
                Some(v) => mount::is_device(p@) && text::strs(v@) == if any_names(
                    text::strs(devices@),
                    p@,
                ) {
                    text::strs(devices@)
                } else {
                    text::strs(devices@).push(p@)
                },
            },
        },
{
    broadcast use text::lemma_strs_push;

    let mut only = text::clone_strings(devices);
    if let Some(p) = volume {
        if !mount::is_device_path(p) {
            return None;
        }
        if !names_any(devices, p) {
            let ghost before = text::strs(only@);
            let s = text::owned(p);
            only.push(s);
            assert(text::strs(only@) == before.push(s@));
        }
    }
    Some(only)
}

/// One of `list` names the same disk as `dev`.
pub open spec fn any_names(list: Seq<Seq<char>>, dev: Seq<char>) -> bool {
    exists|i: int| 0 <= i < list.len() && device::same_device(#[trigger] list[i], dev)
}

#[verifier::rlimit(30)]
pub fn names_any(list: &[String], dev: &str) -> (r: bool)
    ensures
        r == any_names(text::strs(list@), dev@),
{
    let mut i: usize = 0;
    while i < list.len()
        invariant
            i <= list@.len(),
            forall|j: int|
                0 <= j < i ==> !device::same_device(#[trigger] text::strs(list@)[j], dev@),
        decreases list@.len() - i,
    {
        assert(text::strs(list@)[i as int] == list@[i as int]@);
        if device::devices_match(list[i].as_str(), dev) {
            return true;
        }
        i += 1;
    }
    false
}

/// The options for the next disc: an explicit mount point is for the first disc
/// alone.
pub fn next_options(opts: &MountOptions, any_live: bool) -> (r: MountOptions)
    ensures
        r.base_dir@ == opts.base_dir@,
        r.cache_bytes == opts.cache_bytes,
        idle::opt_string(r.mountpoint) == if any_live {
            None
        } else {
            idle::opt_string(opts.mountpoint)
        },
{
    let mountpoint = if any_live {
        None
    } else {
        match &opts.mountpoint {
            Some(p) => Some(text::owned(p.as_str())),
            None => None,
        }
    };
    MountOptions {
        base_dir: text::owned(opts.base_dir.as_str()),
        cache_bytes: opts.cache_bytes,
        mountpoint,
    }
}

/// The state to publish: nothing is served yet, or something is.
pub fn live_state(any_live: bool, state: State) -> (r: State)
    ensures
        r == if any_live {
            state
        } else {
            State::Opening
        },
{
    if any_live {
        state
    } else {
        State::Opening
    }
}

/// A disc that is served, for the status of the drives. It is not to be ejected.
pub open spec fn live_of(m: MountedView, l: Live) -> bool {
    l.0@ == m.source && l.1@ == m.label && l.2@ == m.mountpoint && !l.3
}

pub open spec fn lives_of(v: Seq<MountedView>, l: Seq<Live>) -> bool {
    v.len() == l.len() && forall|i: int| 0 <= i < v.len() ==> live_of(v[i], #[trigger] l[i])
}

pub fn live_discs(live: &[MountedDisc]) -> (r: Vec<Live>)
    ensures
        lives_of(mounted_views(live@), r@),
{
    let mut out: Vec<Live> = Vec::new();
    let mut i: usize = 0;
    while i < live.len()
        invariant
            i <= live@.len(),
            out@.len() == i,
            forall|j: int| 0 <= j < i ==> live_of(live@[j]@, #[trigger] out@[j]),
        decreases live@.len() - i,
    {
        out.push(
            (
                text::owned(live[i].source.as_str()),
                text::owned(live[i].label.as_str()),
                text::owned(live[i].mountpoint.as_str()),
                false,
            ),
        );
        i += 1;
    }
    out
}

/// The label of a snapshot: several discs are counted.
pub open spec fn shared_label(n: nat, label: Option<Seq<char>>) -> Option<Seq<char>> {
    if n > 1 {
        Some(number::decimal(n) + " discs"@)
    } else {
        label
    }
}

/// Completes a snapshot of the first live disc by the process that serves, the
/// number of discs and the drives.
pub fn publish_live(
    snap: &mut Snapshot,
    live: &[MountedDisc],
    drives: &[OpticalDrive],
    pid: u32,
)
    ensures
        exists|l: Seq<Live>|
            #[trigger] lives_of(mounted_views(live@), l) && final(snap)@ == (SnapshotView {
                mount_pid: Some(pid),
                label: shared_label(live@.len(), old(snap)@.label),
                drives: drives::drive_views(drives@).map_values(
                    |d: drives::DriveView| drives::status_of(d, l),
                ),
                ..old(snap)@
            }),
{
    snap.mount_pid = Some(pid);
    if live.len() > 1 {
        let n = text::string_of(number::to_decimal(live.len() as u64).as_slice());
        snap.label = Some(text::concat(n.as_str(), " discs"));
    }
    let discs = live_discs(live);
    idle::attach_drives(snap, drives, discs.as_slice());
    proof {
        let l = discs@;
        assert(lives_of(mounted_views(live@), l));
        assert(snap@ =~= (SnapshotView {
            mount_pid: Some(pid),
            label: shared_label(live@.len(), old(snap)@.label),
            drives: drives::drive_views(drives@).map_values(
                |d: drives::DriveView| drives::status_of(d, l),
            ),
            ..old(snap)@
        }));
    }
}

// ───────────────────────── ejecting ─────────────────────────

/// The process to leave a request to eject with: one that serves, runs and is
/// not this one.
pub fn ask_process(mount_pid: Option<u32>, us: u32, alive: bool) -> (r: Option<u32>)
    ensures
        r == match mount_pid {
            Some(p) => if p != us && alive {
                Some(p)
            } else {
                None
            },
            None => None,
        },
{
    match mount_pid {
        Some(p) => if p != us && alive {
            Some(p)
        } else {
            None
        },
        None => None,
    }
}

/// The request to eject a device, or everything.
pub fn eject_request(device: Option<&str>) -> (r: EjectRequest)
    ensures
        idle::opt_string(r.device) == idle::opt_view(device),
        r.all == (device is None),
{
    match device {
        Some(d) => EjectRequest { device: Some(text::owned(d)), all: false },
        None => EjectRequest { device: None, all: true },
    }
}

/// The drive still serves the disc that was to be ejected.
pub open spec fn still_serves(d: idle::DriveStatusView, device: Option<Seq<char>>) -> bool {
    d.state == "serving"@ && match device {
        Some(dev) => device::same_device(d.device, dev),
        None => true,
    }
}

/// Whether the request to eject was met: no drive that it was about serves.
pub fn eject_met(drives: &[DriveStatus], device: Option<&str>) -> (r: bool)
    ensures
        r == forall|i: int|
            0 <= i < drives@.len() ==> !still_serves(
                (#[trigger] idle::status_views(drives@)[i]),
                idle::opt_view(device),
            ),
{
    let mut i: usize = 0;
    while i < drives.len()
        invariant
            i <= drives@.len(),
            forall|j: int|
                0 <= j < i ==> !still_serves(
                    (#[trigger] idle::status_views(drives@)[j]),
                    idle::opt_view(device),
                ),
        decreases drives@.len() - i,
    {
        assert(idle::status_views(drives@)[i as int] == drives@[i as int]@);
        let same = match device {
            Some(dev) => device::devices_match(drives[i].device.as_str(), dev),
            None => true,
        };
        if text::str_same(drives[i].state.as_str(), "serving") && same {
            return false;
        }
        i += 1;
    }
    true
}

/// Whether to go on waiting for a request to eject: the time is not up, the
/// process that was asked still runs, and the request is not met.
pub fn eject_wait(expired: bool, alive: bool, met: bool) -> (r: bool)
    ensures
        r == (!expired && alive && !met),
{
    !expired && alive && !met
}

// ───────────────────────── volumes of the system ─────────────────────────

/// The volume is one that we claim: its device is unknown, or its medium is no
/// DVD or CD.
pub fn claims_volume(raw: Option<&str>, class: OpticalClass) -> (r: bool)
    ensures
        r == (raw is None || !device::left_to_system(class)),
{
    match raw {
        None => true,
        Some(_) => match class {
            OpticalClass::Dvd | OpticalClass::Cd => false,
            OpticalClass::BluRay | OpticalClass::Unknown => true,
        },
    }
}

// ───────────────────────── laws ─────────────────────────

proof fn lemma_clean_and_bad_total(data: Seq<u8>, at: int)
    requires
        0 <= at,
    ensures
        clean_and_bad(data, at).0 >= 0,
        clean_and_bad(data, at).1 >= 0,
        at < data.len() ==> clean_and_bad(data, at).0 + clean_and_bad(data, at).1 == (data.len()
            - at + 6143) / 6144,
        at >= data.len() ==> clean_and_bad(data, at) == (0int, 0int),
    decreases missing(at, data.len() as int),
{
    if at < data.len() {
        lemma_clean_and_bad_total(data, at + 6144);
    }
}

/// Every unit of what was decrypted is counted once, as clean or as bad.
pub proof fn lemma_every_unit_counted(data: Seq<u8>)
    ensures
        clean_and_bad(data, 0).0 + clean_and_bad(data, 0).1 == (data.len() + 6143) / 6144,
{
    lemma_clean_and_bad_total(data, 0);
}

} // verus!
