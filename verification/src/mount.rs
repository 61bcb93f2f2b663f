//! Mounts of decrypted discs: where they go, how they come and go, and which
//! sources must be left alone for a while.

pub mod law;
pub mod run;

use vstd::prelude::*;

use crate::idle;
use crate::idle::{Snapshot, SnapshotView, State};
use crate::number;
use crate::path;
use crate::text;

verus! {

broadcast use vstd::string::group_string_axioms;

/// Default size of the cache of decrypted units.
pub const DEFAULT_CACHE_BYTES: usize = 67_108_864;

/// Where decrypted discs are mounted: where the environment says, or in the home
/// directory.
pub open spec fn base_dir_at(from_env: Option<&str>, home: Option<&str>) -> Seq<char> {
    match from_env {
        Some(p) => p@,
        None => path::joined(
            match home {
                Some(h) => h@,
                None => "/tmp"@,
            },
            "BluRay Decrypted"@,
        ),
    }
}

pub fn default_base_dir(from_env: Option<&str>, home: Option<&str>) -> (r: String)
    ensures
        r@ == base_dir_at(from_env, home),
{
    match from_env {
        Some(p) => text::owned(p),
        None => {
            let base = match home {
                Some(h) => h,
                None => "/tmp",
            };
            path::join(base, "BluRay Decrypted")
        },
    }
}

pub struct MountOptions {
    pub base_dir: String,
    pub cache_bytes: usize,
    /// Where to mount; otherwise in `base_dir`, under the disc's label.
    pub mountpoint: Option<String>,
}

impl MountOptions {
    /// The usual options, with discs mounted in `base_dir`.
    pub fn new(base_dir: String) -> (r: MountOptions)
        ensures
            r.base_dir == base_dir,
            r.cache_bytes == DEFAULT_CACHE_BYTES,
            r.mountpoint is None,
    {
        MountOptions { base_dir, cache_bytes: DEFAULT_CACHE_BYTES, mountpoint: None }
    }
}

// ───────────────────────── the mount table ─────────────────────────

/// One entry of the kernel mount table.
pub struct MountEntry {
    pub mount_point: String,
    pub from: String,
    pub fs_type: String,
}

/// The entry is one of our own views: NFS from this machine.
pub open spec fn is_ours(m: MountEntry) -> bool {
    m.fs_type@ == "nfs"@ && (m.from@ == "127.0.0.1:/"@ || m.from@ == "localhost:/"@)
}

pub open spec fn our_mounts(table: Seq<MountEntry>) -> Seq<Seq<char>>
    decreases table.len(),
{
    if table.len() == 0 {
        Seq::empty()
    } else {
        let before = our_mounts(table.drop_last());
        if is_ours(table.last()) {
            before.push(table.last().mount_point@)
        } else {
            before
        }
    }
}

/// Mount points of our own views.
pub fn active_mounts(table: &[MountEntry]) -> (r: Vec<String>)
    ensures
        text::strs(r@) == our_mounts(table@),
{
    broadcast use text::lemma_strs_push;

    let mut out: Vec<String> = Vec::new();
    assert(text::strs(out@) =~= Seq::<Seq<char>>::empty());
    assert(table@.take(0) =~= Seq::<MountEntry>::empty());
    let mut i: usize = 0;
    while i < table.len()
        invariant
            i <= table@.len(),
            text::strs(out@) == our_mounts(table@.take(i as int)),
        decreases table@.len() - i,
    {
        assert(table@.take(i + 1).drop_last() =~= table@.take(i as int));
        assert(table@.take(i + 1).last() == table@[i as int]);
        let m = &table[i];
        if text::str_same(m.fs_type.as_str(), "nfs") && (text::str_same(
            m.from.as_str(),
            "127.0.0.1:/",
        ) || text::str_same(m.from.as_str(), "localhost:/")) {
            let ghost before = text::strs(out@);
            let p = text::owned(m.mount_point.as_str());
            out.push(p);
            assert(text::strs(out@) == before.push(p@));
        }
        i += 1;
    }
    assert(table@.take(i as int) =~= table@);
    out
}

/// Whether one of our views is mounted at `mp`, or at `target`, which is `mp`
/// without links.
pub fn is_mounted(table: &[MountEntry], mp: &str, target: &str) -> (r: bool)
    ensures
        r == (path::has_path(our_mounts(table@), target@) || path::has_path(
            our_mounts(table@),
            mp@,
        )),
{
    let ours = active_mounts(table);
    path::list_has_path(ours.as_slice(), target) || path::list_has_path(ours.as_slice(), mp)
}

/// A file system is mounted just at `p`.
pub open spec fn mounted_at(table: Seq<MountEntry>, p: Seq<char>) -> bool {
    exists|i: int|
        0 <= i < table.len() && path::comps((#[trigger] table[i]).mount_point@) == path::comps(p)
}

/// Whether some file system is mounted just at `p`. Nothing of the disc is
/// touched.
pub fn is_volume_mounted(table: &[MountEntry], p: &str) -> (r: bool)
    ensures
        r == mounted_at(table@, p@),
{
    let mut i: usize = 0;
    while i < table.len()
        invariant
            i <= table@.len(),
            forall|j: int|
                0 <= j < i ==> path::comps((#[trigger] table@[j]).mount_point@) != path::comps(p@),
        decreases table@.len() - i,
    {
        if path::path_eq(table[i].mount_point.as_str(), p) {
            return true;
        }
        i += 1;
    }
    false
}

// ───────────────────────── hold-off ─────────────────────────

/// How long a released source is left alone, in milliseconds. To mount it again
/// while the system is still ejecting it can wedge the drive.
pub const HOLD_OFF_MS: u64 = 15_000;

/// Sources that were released, and when, in milliseconds.
pub struct HoldOff {
    pub released: Vec<(String, u64)>,
}

pub open spec fn release_views(v: Seq<(String, u64)>) -> Seq<(Seq<char>, u64)> {
    v.map_values(|e: (String, u64)| (e.0@, e.1))
}

impl View for HoldOff {
    type V = Seq<(Seq<char>, u64)>;

    open spec fn view(&self) -> Seq<(Seq<char>, u64)> {
        release_views(self.released@)
    }
}

/// No source is there twice.
pub open spec fn releases_ok(v: Seq<(Seq<char>, u64)>) -> bool {
    forall|i: int, j: int|
        0 <= i < j < v.len() ==> path::comps((#[trigger] v[i]).0) != path::comps(
            (#[trigger] v[j]).0,
        )
}

/// The releases with that of `source` at `now`: a later release of the same
/// source takes the place of an earlier one.
pub open spec fn with_release(v: Seq<(Seq<char>, u64)>, source: Seq<char>, now: u64) -> Seq<
    (Seq<char>, u64),
>
    decreases v.len(),
{
    if v.len() == 0 {
        seq![(source, now)]
    } else if path::comps(v[0].0) == path::comps(source) {
        v.update(0, (v[0].0, now))
    } else {
        seq![v[0]] + with_release(v.skip(1), source, now)
    }
}

/// The release still counts: the volume is in the mount table, or the time is
/// not up.
pub open spec fn still_held(e: (Seq<char>, u64), table: Seq<MountEntry>, now: u64) -> bool {
    mounted_at(table, e.0) || now - e.1 < HOLD_OFF_MS
}

/// The releases that still count.
pub open spec fn swept(
    v: Seq<(Seq<char>, u64)>,
    table: Seq<MountEntry>,
    now: u64,
) -> Seq<(Seq<char>, u64)>
    decreases v.len(),
{
    if v.len() == 0 {
        v
    } else {
        let before = swept(v.drop_last(), table, now);
        if still_held(v.last(), table, now) {
            before.push(v.last())
        } else {
            before
        }
    }
}

pub open spec fn sources_of(v: Seq<(Seq<char>, u64)>) -> Seq<Seq<char>> {
    v.map_values(|e: (Seq<char>, u64)| e.0)
}

impl HoldOff {
    pub fn new() -> (r: HoldOff)
        ensures
            r@ == Seq::<(Seq<char>, u64)>::empty(),
    {
        let r = HoldOff { released: Vec::new() };
        assert(r@ =~= Seq::<(Seq<char>, u64)>::empty());
        r
    }
}

/// Records that a source was given up.
pub fn mark_source_released(hold: &mut HoldOff, source: &str, now_ms: u64)
    ensures
        final(hold)@ == with_release(old(hold)@, source@, now_ms),
{
    let ghost all = hold@;
    let ghost goal = with_release(all, source@, now_ms);
    let mut i: usize = 0;
    assert(all.skip(0) =~= all);
    assert(all.take(0) + with_release(all.skip(0), source@, now_ms) =~= goal);
    while i < hold.released.len()
        invariant
            i <= hold.released@.len(),
            all == hold@,
            goal == with_release(old(hold)@, source@, now_ms),
            all.take(i as int) + with_release(all.skip(i as int), source@, now_ms) == goal,
        decreases hold.released@.len() - i,
    {
        assert(all.skip(i as int)[0] == all[i as int]);
        assert(all[i as int].0 == hold.released@[i as int].0@);
        assert(all.skip(i as int).skip(1) =~= all.skip(i + 1));
        if path::path_eq(hold.released[i].0.as_str(), source) {
            hold.released[i].1 = now_ms;
            assert(all.take(i as int) + all.skip(i as int).update(0, (all[i as int].0, now_ms))
                =~= all.update(i as int, (all[i as int].0, now_ms)));
            assert(hold@ =~= goal);
            return;
        }
        let ghost rest = with_release(all.skip(i + 1), source@, now_ms);
        assert(all.take(i as int) + (seq![all[i as int]] + rest) =~= all.take(i + 1) + rest);
        i += 1;
    }
    let ghost before = hold.released@;
    let s = text::owned(source);
    hold.released.push((s, now_ms));
    assert(all.take(i as int) =~= all);
    assert(all.skip(i as int) =~= Seq::<(Seq<char>, u64)>::empty());
    assert(hold@ =~= all + seq![(source@, now_ms)]);
}

/// Drops the releases whose volume is gone and whose time is up.
pub fn sweep_hold_off(hold: &mut HoldOff, table: &[MountEntry], now_ms: u64)
    ensures
        final(hold)@ == swept(old(hold)@, table@, now_ms),
{
    let ghost all = hold@;
    let mut kept: Vec<(String, u64)> = Vec::new();
    assert(release_views(kept@) =~= Seq::<(Seq<char>, u64)>::empty());
    assert(all.take(0) =~= Seq::<(Seq<char>, u64)>::empty());
    let mut i: usize = 0;
    while i < hold.released.len()
        invariant
            i <= hold.released@.len(),
            all == hold@,
            release_views(kept@) == swept(all.take(i as int), table@, now_ms),
        decreases hold.released@.len() - i,
    {
        assert(all.take(i + 1).drop_last() =~= all.take(i as int));
        assert(all.take(i + 1).last() == all[i as int]);
        let since: u64 = hold.released[i].1;
        assert(all[i as int] == (hold.released@[i as int].0@, since));
        let recent = now_ms < since || now_ms - since < HOLD_OFF_MS;
        if is_volume_mounted(table, hold.released[i].0.as_str()) || recent {
            let ghost before = release_views(kept@);
            let s = text::owned(hold.released[i].0.as_str());
            kept.push((s, since));
            assert(release_views(kept@) =~= before.push(all[i as int]));
        }
        i += 1;
    }
    assert(all.take(i as int) =~= all);
    hold.released = kept;
}

/// The sources that must be neither looked at nor mounted: they are being
/// ejected, or were a moment ago.
pub fn held_off_sources(hold: &mut HoldOff, table: &[MountEntry], now_ms: u64) -> (r: Vec<String>)
    ensures
        final(hold)@ == swept(old(hold)@, table@, now_ms),
        text::strs(r@) == sources_of(final(hold)@),
{
    sweep_hold_off(hold, table, now_ms);
    let mut out: Vec<String> = Vec::new();
    let ghost all = sources_of(hold@);
    let mut i: usize = 0;
    while i < hold.released.len()
        invariant
            i <= hold.released@.len(),
            all == sources_of(hold@),
            out@.len() == i,
            forall|j: int| 0 <= j < i ==> (#[trigger] out@[j])@ == all[j],
        decreases hold.released@.len() - i,
    {
        out.push(text::owned(hold.released[i].0.as_str()));
        i += 1;
    }
    assert(text::strs(out@) =~= all);
    out
}

// ───────────────────────── leftovers ─────────────────────────

/// The process of a helper that a dead program left behind, on a line of a
/// process listing: its parent is process 1.
pub open spec fn orphan_on(line: Seq<char>) -> Option<i32> {
    let w = text::words(line, text::Separator::Space);
    if w.len() >= 4 && w[1] == "1"@ && "/makemkvcon"@.is_suffix_of(w[2]) && w[3]
        == "guiserver"@ {
        number::i32_of(w[0])
    } else {
        None
    }
}

pub open spec fn orphans_in(lines: Seq<Seq<char>>) -> Seq<i32>
    decreases lines.len(),
{
    if lines.len() == 0 {
        Seq::empty()
    } else {
        let before = orphans_in(lines.drop_last());
        match orphan_on(lines.last()) {
            Some(pid) => before.push(pid),
            None => before,
        }
    }
}

fn parse_orphan(line: &[char]) -> (r: Option<i32>)
    ensures
        r == orphan_on(line@),
{
    let w = text::split_words(line, text::Separator::Space);
    let ghost t = text::texts(w@);
    assert(forall|i: int| 0 <= i < w@.len() ==> #[trigger] t[i] == w@[i]@);
    if w.len() >= 4 && text::same(w[1].as_slice(), text::chars_of("1").as_slice())
        && text::ends_with(w[2].as_slice(), text::chars_of("/makemkvcon").as_slice())
        && text::same(w[3].as_slice(), text::chars_of("guiserver").as_slice()) {
        number::parse_i32(w[0].as_slice())
    } else {
        None
    }
}

/// The helpers to be killed, from the output of `ps -axo pid=,ppid=,command=`.
pub fn reap_orphaned_helpers(ps: &str) -> (r: Vec<i32>)
    ensures
        r@ == orphans_in(text::line_seq(ps@)),
{
    let c = text::chars_of(ps);
    let lines = text::lines(c.as_slice());
    let ghost all = text::texts(lines@);
    let mut out: Vec<i32> = Vec::new();
    assert(all.take(0) =~= Seq::<Seq<char>>::empty());
    let mut i: usize = 0;
    while i < lines.len()
        invariant
            i <= lines@.len(),
            all == text::texts(lines@),
            out@ == orphans_in(all.take(i as int)),
        decreases lines@.len() - i,
    {
        assert(all.take(i + 1).drop_last() =~= all.take(i as int));
        assert(all.take(i + 1).last() == lines@[i as int]@);
        if let Some(pid) = parse_orphan(lines[i].as_slice()) {
            out.push(pid);
        }
        i += 1;
    }
    assert(all.take(i as int) =~= all);
    out
}

// ───────────────────────── unmounting ─────────────────────────

/// A way to unmount.
#[derive(Clone, Copy, Debug, PartialEq, Eq, Structural)]
pub enum UnmountTool {
    /// `umount`
    Umount,
    /// `umount -f`
    UmountForce,
    /// `diskutil unmount`
    Diskutil,
    /// `diskutil unmount force`
    DiskutilForce,
}

pub open spec fn is_forced(t: UnmountTool) -> bool {
    t == UnmountTool::UmountForce || t == UnmountTool::DiskutilForce
}

/// What to do next to unmount.
#[derive(Clone, Copy, Debug, PartialEq, Eq, Structural)]
pub enum UnmountStep {
    Done,
    Try(UnmountTool),
    Failed,
}

/// The next step to unmount one of our views.
pub open spec fn unmount_step(mounted: bool, results: Seq<bool>) -> UnmountStep {
    if !mounted || results.len() > 0 && results.last() {
        UnmountStep::Done
    } else if results.len() == 0 {
        UnmountStep::Try(UnmountTool::Umount)
    } else if results.len() == 1 {
        UnmountStep::Try(UnmountTool::UmountForce)
    } else if results.len() == 2 {
        UnmountStep::Try(UnmountTool::DiskutilForce)
    } else {
        UnmountStep::Failed
    }
}

/// The next step to unmount a volume of the system.
pub open spec fn polite_step(mounted: bool, results: Seq<Option<bool>>) -> UnmountStep {
    if results.len() > 0 && results.last() == Some(true) {
        UnmountStep::Done
    } else if results.len() == 0 {
        if mounted {
            UnmountStep::Try(UnmountTool::Umount)
        } else {
            UnmountStep::Done
        }
    } else if results.len() == 1 {
        UnmountStep::Try(UnmountTool::Diskutil)
    } else if mounted {
        UnmountStep::Failed
    } else {
        UnmountStep::Done
    }
}

/// Unmounts one of our views, with more and more force. `mounted` tells whether
/// it was mounted at first, `results` how the tools did that were tried.
pub fn unmount_path(mounted: bool, results: &[bool]) -> (r: UnmountStep)
    ensures
        r == if !mounted || results@.len() > 0 && results@.last() {
            UnmountStep::Done
        } else if results@.len() == 0 {
            UnmountStep::Try(UnmountTool::Umount)
        } else if results@.len() == 1 {
            UnmountStep::Try(UnmountTool::UmountForce)
        } else if results@.len() == 2 {
            UnmountStep::Try(UnmountTool::DiskutilForce)
        } else {
            UnmountStep::Failed
        },
        r == unmount_step(mounted, results@),
{
    let n: usize = results.len();
    if !mounted || (n > 0 && results[n - 1]) {
        UnmountStep::Done
    } else if n == 0 {
        UnmountStep::Try(UnmountTool::Umount)
    } else if n == 1 {
        UnmountStep::Try(UnmountTool::UmountForce)
    } else if n == 2 {
        UnmountStep::Try(UnmountTool::DiskutilForce)
    } else {
        UnmountStep::Failed
    }
}

/// Unmounts a volume of the system, never with force. `results` tells how the
/// tools did that were tried, `None` for one that did not come back in time,
/// and `mounted` whether the volume is mounted now.
pub fn unmount_os_volume_polite(mounted: bool, results: &[Option<bool>]) -> (r: UnmountStep)
    ensures
        r == if results@.len() > 0 && results@.last() == Some(true) {
            UnmountStep::Done
        } else if results@.len() == 0 {
            if mounted {
                UnmountStep::Try(UnmountTool::Umount)
            } else {
                UnmountStep::Done
            }
        } else if results@.len() == 1 {
            UnmountStep::Try(UnmountTool::Diskutil)
        } else if mounted {
            UnmountStep::Failed
        } else {
            UnmountStep::Done
        },
        r matches UnmountStep::Try(t) ==> !is_forced(t),
        r == polite_step(mounted, results@),
{
    let n: usize = results.len();
    if n > 0 {
        if let Some(true) = results[n - 1] {
            return UnmountStep::Done;
        }
    }
    if n == 0 {
        if mounted {
            UnmountStep::Try(UnmountTool::Umount)
        } else {
            UnmountStep::Done
        }
    } else if n == 1 {
        UnmountStep::Try(UnmountTool::Diskutil)
    } else if mounted {
        UnmountStep::Failed
    } else {
        UnmountStep::Done
    }
}

// ───────────────────────── mount points ─────────────────────────

/// What to do next to prepare a mount point.
#[derive(Clone, Copy, Debug, PartialEq, Eq, Structural)]
pub enum PrepareStep {
    /// Unmount the view that an earlier run left there.
    Unmount,
    /// Create the directory.
    Create,
    /// Look into the directory.
    List,
    Ready,
    /// The view that was left there cannot be unmounted.
    Stale,
    NotCreated,
    Unreadable,
    NotEmpty,
}

/// The next step to prepare a mount point.
pub open spec fn prepare_step(
    ours: bool,
    unmounted: Option<bool>,
    created: Option<bool>,
    empty: Option<Option<bool>>,
) -> PrepareStep {
    if ours && unmounted is None {
        PrepareStep::Unmount
    } else if ours && unmounted == Some(false) {
        PrepareStep::Stale
    } else if created is None {
        PrepareStep::Create
    } else if created == Some(false) {
        PrepareStep::NotCreated
    } else if empty is None {
        PrepareStep::List
    } else if empty == Some(None::<bool>) {
        PrepareStep::Unreadable
    } else if empty == Some(Some(false)) {
        PrepareStep::NotEmpty
    } else {
        PrepareStep::Ready
    }
}

/// Prepares a mount point: a view of ours that was left there goes, and the
/// directory has to be there and empty. `ours` tells whether there is such a
/// view; the others tell how each step went, once it was made. A directory
/// that could be looked into is empty or not.
pub fn prepare_next(
    ours: bool,
    unmounted: Option<bool>,
    created: Option<bool>,
    empty: Option<Option<bool>>,
) -> (r: PrepareStep)
    ensures
        r == if ours && unmounted is None {
            PrepareStep::Unmount
        } else if ours && unmounted == Some(false) {
            PrepareStep::Stale
        } else if created is None {
            PrepareStep::Create
        } else if created == Some(false) {
            PrepareStep::NotCreated
        } else if empty is None {
            PrepareStep::List
        } else if empty == Some(None::<bool>) {
            PrepareStep::Unreadable
        } else if empty == Some(Some(false)) {
            PrepareStep::NotEmpty
        } else {
            PrepareStep::Ready
        },
        r == prepare_step(ours, unmounted, created, empty),
{
    if ours {
        match unmounted {
            None => {
                return PrepareStep::Unmount;
            },
            Some(false) => {
                return PrepareStep::Stale;
            },
            Some(true) => {},
        }
    }
    match created {
        None => {
            return PrepareStep::Create;
        },
        Some(false) => {
            return PrepareStep::NotCreated;
        },
        Some(true) => {},
    }
    match empty {
        None => PrepareStep::List,
        Some(None) => PrepareStep::Unreadable,
        Some(Some(false)) => PrepareStep::NotEmpty,
        Some(Some(true)) => PrepareStep::Ready,
    }
}

// ───────────────────────── live mounts ─────────────────────────

/// A decrypted disc that is mounted.
pub struct MountedDisc {
    pub source: String,
    pub label: String,
    pub mountpoint: String,
    pub port: u16,
    /// The raw device, so that a release need not ask for it.
    pub raw_device: Option<String>,
    pub flags: MountFlags,
    /// Its number in the registry of live mounts; zero before it has one.
    pub id: u64,
}

#[verifier::ext_equal]
pub struct MountedView {
    pub source: Seq<char>,
    pub label: Seq<char>,
    pub mountpoint: Seq<char>,
    pub port: u16,
    pub raw_device: Option<Seq<char>>,
    pub flags: MountFlags,
    pub id: u64,
}

impl View for MountedDisc {
    type V = MountedView;

    open spec fn view(&self) -> MountedView {
        MountedView {
            source: self.source@,
            label: self.label@,
            mountpoint: self.mountpoint@,
            port: self.port,
            raw_device: idle::opt_string(self.raw_device),
            flags: self.flags,
            id: self.id,
        }
    }
}

/// The mount has its source or its mount point at `p`.
pub open spec fn is_at(m: MountedDisc, p: Seq<char>) -> bool {
    path::comps(m.source@) == path::comps(p) || path::comps(m.mountpoint@) == path::comps(p)
}

/// The first mount at `p`, from `i` on.
pub open spec fn mount_at(mounts: Seq<MountedDisc>, p: Seq<char>, i: int) -> Option<usize>
    decreases mounts.len() - i,
{
    if i < 0 || i >= mounts.len() {
        None
    } else if is_at(mounts[i], p) {
        Some(i as usize)
    } else {
        mount_at(mounts, p, i + 1)
    }
}

/// The live mount whose source or mount point is `p`.
pub fn find_by_path(mounts: &[MountedDisc], p: &str) -> (r: Option<usize>)
    ensures
        r == mount_at(mounts@, p@, 0),
        r matches Some(i) ==> i < mounts@.len(),
{
    let mut i: usize = 0;
    while i < mounts.len()
        invariant
            i <= mounts@.len(),
            mount_at(mounts@, p@, 0) == mount_at(mounts@, p@, i as int),
        decreases mounts@.len() - i,
    {
        if path::path_eq(mounts[i].source.as_str(), p) || path::path_eq(
            mounts[i].mountpoint.as_str(),
            p,
        ) {
            return Some(i);
        }
        i += 1;
    }
    None
}

/// What to do when the system is about to unmount `p`: which mount to release,
/// and whether its view is ours to unmount. Where the view itself goes, the
/// system unmounts it.
pub fn unmount_requested(mounts: &[MountedDisc], p: &str) -> (r: Option<(usize, bool)>)
    ensures
        r == match mount_at(mounts@, p@, 0) {
            None => None,
            Some(i) => Some((i, path::comps(mounts@[i as int].source@) == path::comps(p@))),
        },
{
    match find_by_path(mounts, p) {
        None => None,
        Some(i) => Some((i, path::path_eq(mounts[i].source.as_str(), p))),
    }
}

/// A path of a volume without the separators at its end.
pub open spec fn without_end(s: Seq<char>) -> Seq<char>
    decreases s.len(),
{
    if s.len() > 1 && s.last() == '/' {
        without_end(s.drop_last())
    } else {
        s
    }
}

/// The path of a volume as the system's description gives it.
pub fn volume_path(described: &str) -> (r: String)
    ensures
        r@ == without_end(described@),
{
    let c = text::chars_of(described);
    let mut n: usize = c.len();
    assert(c@.take(n as int) =~= c@);
    while n > 1 && c[n - 1] == '/'
        invariant
            n <= c@.len(),
            without_end(c@) == without_end(c@.take(n as int)),
        decreases n,
    {
        assert(c@.take(n as int).drop_last() =~= c@.take(n - 1));
        assert(c@.take(n as int).last() == c@[n - 1]);
        n -= 1;
    }
    proof {
        if n > 1 {
            assert(c@.take(n as int).last() == c@[n - 1]);
        }
    }
    let part = &c.as_slice()[0..n];
    assert(part@ =~= c@.take(n as int));
    text::string_of(part)
}

/// The source is a device node.
pub open spec fn is_device(source: Seq<char>) -> bool {
    path::comps("/dev/"@).is_prefix_of(path::comps(source))
}

pub fn is_device_path(source: &str) -> (r: bool)
    ensures
        r == is_device(source@),
{
    path::path_starts_with(source, "/dev/")
}

impl MountedDisc {
    pub fn source(&self) -> (r: &str)
        ensures
            r@ == self@.source,
    {
        self.source.as_str()
    }

    pub fn label(&self) -> (r: &str)
        ensures
            r@ == self@.label,
    {
        self.label.as_str()
    }

    pub fn mountpoint(&self) -> (r: &str)
        ensures
            r@ == self@.mountpoint,
    {
        self.mountpoint.as_str()
    }

    pub fn port(&self) -> (r: u16)
        ensures
            r == self@.port,
    {
        self.port
    }

    pub fn raw_device(&self) -> (r: Option<&str>)
        ensures
            idle::opt_view(r) == self@.raw_device,
    {
        match &self.raw_device {
            Some(d) => Some(d.as_str()),
            None => None,
        }
    }

    /// False once the view was released.
    pub fn is_active(&self) -> (r: bool)
        ensures
            r == !self@.flags.torn_down,
    {
        !self.flags.torn_down
    }

    /// Whether the source of the mount is still there: a device by its node, a
    /// volume by the mount table. Nothing of the disc is touched.
    pub fn source_present(&self, node_exists: bool, table: &[MountEntry]) -> (r: bool)
        ensures
            r == present(self@.source, node_exists, table@),
    {
        if is_device_path(self.source.as_str()) {
            node_exists
        } else {
            is_volume_mounted(table, self.source.as_str())
        }
    }

    /// Releases the mount: holds its source off, whether or not it was released
    /// before, and takes it out of the registry of live mounts. With
    /// `unmount_view` false the view is left for the system to unmount.
    pub fn teardown(
        &mut self,
        registry: &mut Registry,
        hold: &mut HoldOff,
        now_ms: u64,
        unmount_view: bool,
    ) -> (r: Teardown)
        ensures
            final(hold)@ == with_release(old(hold)@, old(self)@.source, now_ms),
            (r, final(self)@, final(registry)@) == torn_down(
                old(self)@,
                old(registry)@,
                unmount_view,
            ),
    {
        mark_source_released(hold, self.source.as_str(), now_ms);
        if self.flags.torn_down {
            return Teardown::Nothing;
        }
        registry.unregister(self.id);
        let others_remain = registry.mounts.len() > 0;
        let was_mounted = self.flags.mounted;
        self.flags = MountFlags { mounted: false, torn_down: true };
        Teardown::Release {
            publish: !others_remain,
            unmount: was_mounted && unmount_view,
            release_helpers: !others_remain,
            remove_dir: unmount_view,
        }
    }
}

pub open spec fn mounted_views(v: Seq<MountedDisc>) -> Seq<MountedView> {
    v.map_values(|m: MountedDisc| m@)
}

fn copy_disc(m: &MountedDisc) -> (r: MountedDisc)
    ensures
        r@ == m@,
{
    let raw_device = match &m.raw_device {
        Some(d) => Some(text::owned(d.as_str())),
        None => None,
    };
    let r = MountedDisc {
        source: text::owned(m.source.as_str()),
        label: text::owned(m.label.as_str()),
        mountpoint: text::owned(m.mountpoint.as_str()),
        port: m.port,
        raw_device,
        flags: m.flags,
        id: m.id,
    };
    assert(r@ =~= m@);
    r
}

/// The live mounts. Each gets a number of its own when it is registered.
pub struct Registry {
    mounts: Vec<MountedDisc>,
    next_id: u64,
}

#[verifier::ext_equal]
pub struct RegistryView {
    pub mounts: Seq<MountedView>,
    pub next_id: u64,
}

impl View for Registry {
    type V = RegistryView;

    closed spec fn view(&self) -> RegistryView {
        RegistryView { mounts: mounted_views(self.mounts@), next_id: self.next_id }
    }
}

impl RegistryView {
    /// No two mounts have one number, and none has one that is yet to be given
    /// out.
    pub open spec fn wf(self) -> bool {
        &&& 0 < self.next_id
        &&& forall|i: int| 0 <= i < self.mounts.len() ==> (#[trigger] self.mounts[i]).id
            < self.next_id
        &&& forall|i: int, j: int|
            0 <= i < j < self.mounts.len() ==> (#[trigger] self.mounts[i]).id != (
            #[trigger] self.mounts[j]).id
    }

    /// The mount with a number of its own, and the registry with it.
    pub open spec fn with_mount(self, m: MountedView) -> (MountedView, RegistryView) {
        let n = MountedView { id: self.next_id, ..m };
        (n, RegistryView { mounts: self.mounts.push(n), next_id: (self.next_id + 1) as u64 })
    }

    /// The registry without the mount of this number.
    pub open spec fn without_id(self, id: u64) -> RegistryView {
        RegistryView { mounts: without_id(self.mounts, id), ..self }
    }
}

/// The mounts without the one of this number.
pub open spec fn without_id(v: Seq<MountedView>, id: u64) -> Seq<MountedView>
    decreases v.len(),
{
    if v.len() == 0 {
        v
    } else {
        let before = without_id(v.drop_last(), id);
        if v.last().id == id {
            before
        } else {
            before.push(v.last())
        }
    }
}

impl Registry {
    /// No mounts.
    pub fn new() -> (r: Registry)
        ensures
            r@ == (RegistryView { mounts: Seq::empty(), next_id: 1 }),
            r@.wf(),
    {
        let r = Registry { mounts: Vec::new(), next_id: 1 };
        assert(r@.mounts =~= Seq::<MountedView>::empty());
        r
    }

    /// The live mounts, the oldest first.
    pub fn mounts(&self) -> (r: &[MountedDisc])
        ensures
            mounted_views(r@) == self@.mounts,
    {
        self.mounts.as_slice()
    }

    /// Registers a mount, unless all numbers were given out.
    pub fn register(&mut self, disc: &mut MountedDisc) -> (r: bool)
        ensures
            r == (old(self)@.next_id < u64::MAX),
            r ==> (final(disc)@, final(self)@) == old(self)@.with_mount(old(disc)@),
            !r ==> final(self)@ == old(self)@ && final(disc)@ == old(disc)@,
            old(self)@.wf() ==> final(self)@.wf(),
    {
        if self.next_id == u64::MAX {
            return false;
        }
        disc.id = self.next_id;
        self.next_id = self.next_id + 1;
        let ghost before = mounted_views(self.mounts@);
        let one = copy_disc(disc);
        self.mounts.push(one);
        assert(mounted_views(self.mounts@) =~= before.push(one@));
        assert(self@ =~= old(self)@.with_mount(old(disc)@).1);
        true
    }

    fn unregister(&mut self, id: u64)
        ensures
            final(self)@ == old(self)@.without_id(id),
    {
        let ghost all = mounted_views(self.mounts@);
        let ghost mut k: int = 0;
        let mut i: usize = 0;
        assert(all.take(0) =~= Seq::<MountedView>::empty());
        assert(all.skip(0) =~= all);
        assert(mounted_views(self.mounts@).take(0) =~= without_id(all.take(0), id));
        while i < self.mounts.len()
            invariant
                i <= self.mounts@.len(),
                0 <= k <= all.len(),
                self.next_id == old(self).next_id,
                all.len() - k == self.mounts@.len() - i,
                mounted_views(self.mounts@).take(i as int) == without_id(all.take(k), id),
                mounted_views(self.mounts@).skip(i as int) == all.skip(k),
            decreases self.mounts@.len() - i,
        {
            let ghost views = mounted_views(self.mounts@);
            assert(views.skip(i as int)[0] == all.skip(k)[0]);
            assert(all[k] == self.mounts@[i as int]@);
            assert(all.take(k + 1).drop_last() =~= all.take(k));
            assert(all.take(k + 1).last() == all[k]);
            assert(all.skip(k).skip(1) =~= all.skip(k + 1));
            if self.mounts[i].id == id {
                self.mounts.remove(i);
                assert(mounted_views(self.mounts@).take(i as int) =~= views.take(i as int));
                assert(mounted_views(self.mounts@).skip(i as int) =~= views.skip(i as int).skip(1));
            } else {
                assert(views.take(i + 1) =~= views.take(i as int).push(all[k]));
                assert(views.skip(i + 1) =~= views.skip(i as int).skip(1));
                i += 1;
            }
            proof {
                k = k + 1;
            }
        }
        assert(all.take(k) =~= all);
        assert(mounted_views(self.mounts@).take(i as int) =~= mounted_views(self.mounts@));
    }
}

/// The source of a mount is still there.
pub open spec fn present(source: Seq<char>, node_exists: bool, table: Seq<MountEntry>) -> bool {
    if is_device(source) {
        node_exists
    } else {
        mounted_at(table, source)
    }
}

// ───────────────────────── releasing ─────────────────────────

/// What was done with a mount.
#[derive(Clone, Copy, Debug, PartialEq, Eq, Structural)]
pub struct MountFlags {
    /// The view is mounted and ours to unmount.
    pub mounted: bool,
    /// The mount was released.
    pub torn_down: bool,
}

/// What the release of a mount has to do.
#[derive(Clone, Copy, Debug, PartialEq, Eq, Structural)]
pub enum Teardown {
    /// Nothing: it was released before.
    Nothing,
    /// Stop serving and close the disc, and the rest as the flags say.
    Release {
        /// Publish the state, before and after: no other disc is being served.
        publish: bool,
        /// Unmount the view.
        unmount: bool,
        /// Wait for our helpers to exit: no other disc needs them.
        release_helpers: bool,
        /// Remove the directory it was mounted on.
        remove_dir: bool,
    },
}

/// The release of a mount, and its flags after it.
pub open spec fn torn(f: MountFlags, others_remain: bool, unmount_view: bool) -> (
    Teardown,
    MountFlags,
) {
    if f.torn_down {
        (Teardown::Nothing, f)
    } else {
        (
            Teardown::Release {
                publish: !others_remain,
                unmount: f.mounted && unmount_view,
                release_helpers: !others_remain,
                remove_dir: unmount_view,
            },
            MountFlags { mounted: false, torn_down: true },
        )
    }
}

/// The release of a mount, the mount after it, and the live mounts that are left.
pub open spec fn torn_down(m: MountedView, registry: RegistryView, unmount_view: bool) -> (
    Teardown,
    MountedView,
    RegistryView,
) {
    if m.flags.torn_down {
        (Teardown::Nothing, m, registry)
    } else {
        let others = registry.without_id(m.id);
        let t = torn(m.flags, others.mounts.len() > 0, unmount_view);
        (t.0, MountedView { flags: t.1, ..m }, others)
    }
}

/// The snapshot once the last mount was released: it is safe to eject when
/// neither a file of the disc is left open nor a `makemkvcon` runs.
pub open spec fn released_snapshot(
    m: MountedView,
    seen: idle::Seen,
    pid: u32,
) -> SnapshotView {
    let holders = idle::with_holders(
        idle::holder_views(seen.helpers@),
        idle::holder_views(seen.open@),
    );
    let safe = idle::safe_to_eject(holders, m.source);
    SnapshotView {
        state: if safe {
            State::SafeToEject
        } else {
            State::Stuck
        },
        safe_to_eject: safe,
        label: Some(m.label),
        source: Some(m.source),
        mountpoint: Some(m.mountpoint),
        holders,
        claimed_bsd: text::strs(seen.claimed@),
        mount_pid: Some(pid),
        drives: crate::drives::drive_views(seen.drives@).map_values(
            |d: crate::drives::DriveView| crate::drives::status_of(d, Seq::empty()),
        ),
    }
}

/// Builds the snapshot of a release from what was seen once the wait was over.
pub fn teardown_snapshot(m: &MountedDisc, seen: idle::Seen, pid: u32) -> (r: Snapshot)
    ensures
        r@ == released_snapshot(m@, seen, pid),
{
    let mut snap = idle::observe(
        Some(m.source.as_str()),
        Some(m.mountpoint.as_str()),
        State::Releasing,
        seen,
    );
    snap.label = Some(text::owned(m.label.as_str()));
    snap.mount_pid = Some(pid);
    assert(snap@ =~= released_snapshot(m@, seen, pid));
    snap
}

// ───────────────────────── laws ─────────────────────────

/// A source that was just released is held off, and so is every other one that
/// was.
pub proof fn lemma_released_held(
    v: Seq<(Seq<char>, u64)>,
    source: Seq<char>,
    now: u64,
    table: Seq<MountEntry>,
    later: u64,
)
    requires
        later - now < HOLD_OFF_MS || mounted_at(table, source),
    ensures
        path::has_path(sources_of(swept(with_release(v, source, now), table, later)), source),
{
    lemma_with_release(v, source, now);
    let w = with_release(v, source, now);
    let i = place_of(v, source);
    assert(still_held(w[i], table, later)) by {
        if mounted_at(table, source) {
            let j = choose|j: int|
                0 <= j < table.len() && path::comps((#[trigger] table[j]).mount_point@)
                    == path::comps(source);
            assert(path::comps(table[j].mount_point@) == path::comps(w[i].0));
        }
    }
    lemma_swept_keeps(w, table, later, i);
    let s = swept(w, table, later);
    let k = choose|k: int| 0 <= k < s.len() && #[trigger] s[k] == w[i];
    assert(path::comps(sources_of(s)[k]) == path::comps(source));
}

/// Where the release of `source` stands.
pub open spec fn place_of(v: Seq<(Seq<char>, u64)>, source: Seq<char>) -> int
    decreases v.len(),
{
    if v.len() == 0 || path::comps(v[0].0) == path::comps(source) {
        0
    } else {
        1 + place_of(v.skip(1), source)
    }
}

pub proof fn lemma_with_release(v: Seq<(Seq<char>, u64)>, source: Seq<char>, now: u64)
    ensures
        0 <= place_of(v, source) < with_release(v, source, now).len(),
        path::comps(with_release(v, source, now)[place_of(v, source)].0) == path::comps(source),
        with_release(v, source, now)[place_of(v, source)].1 == now,
    decreases v.len(),
{
    if v.len() > 0 && path::comps(v[0].0) != path::comps(source) {
        lemma_with_release(v.skip(1), source, now);
    }
}

proof fn lemma_swept_keeps(v: Seq<(Seq<char>, u64)>, table: Seq<MountEntry>, now: u64, i: int)
    requires
        0 <= i < v.len(),
        still_held(v[i], table, now),
    ensures
        exists|k: int|
            0 <= k < swept(v, table, now).len() && #[trigger] swept(v, table, now)[k] == v[i],
    decreases v.len(),
{
    let d = v.drop_last();
    let before = swept(d, table, now);
    let s = swept(v, table, now);
    if i == v.len() - 1 {
        assert(s[before.len() as int] == v[i]);
    } else {
        lemma_swept_keeps(d, table, now, i);
        let k = choose|k: int| 0 <= k < before.len() && #[trigger] before[k] == d[i];
        assert(s[k] == v[i]);
    }
}

/// A source is no longer held off once its volume is gone and the time is up.
pub proof fn lemma_hold_off_ends(
    v: Seq<(Seq<char>, u64)>,
    table: Seq<MountEntry>,
    now: u64,
    k: int,
)
    requires
        0 <= k < swept(v, table, now).len(),
    ensures
        still_held(swept(v, table, now)[k], table, now),
    decreases v.len(),
{
    let d = v.drop_last();
    let before = swept(d, table, now);
    if k < before.len() {
        lemma_hold_off_ends(d, table, now, k);
    }
}

/// The live mounts that are left after a release are those that were there, but
/// for the one that was released.
pub proof fn lemma_others_stay(v: Seq<MountedView>, id: u64, x: MountedView)
    ensures
        without_id(v, id).contains(x) == (v.contains(x) && x.id != id),
    decreases v.len(),
{
    if v.len() > 0 {
        let d = v.drop_last();
        let before = without_id(d, id);
        let after = without_id(v, id);
        lemma_others_stay(d, id, x);
        if d.contains(x) {
            let i = choose|i: int| 0 <= i < d.len() && d[i] == x;
            assert(v[i] == x);
        }
        if before.contains(x) {
            let i = choose|i: int| 0 <= i < before.len() && before[i] == x;
            assert(after[i] == x);
        }
        if after.contains(x) && !before.contains(x) {
            let i = choose|i: int| 0 <= i < after.len() && after[i] == x;
            assert(i == before.len());
            assert(v[v.len() - 1] == x);
        }
        if v.contains(x) && !d.contains(x) {
            let i = choose|i: int| 0 <= i < v.len() && v[i] == x;
            if i < d.len() {
                assert(d[i] == x);
            }
            if x.id != id {
                assert(after[before.len() as int] == x);
            }
        }
    }
}

/// A release takes one mount out of the registry, and no other, and keeps it
/// sound.
pub proof fn lemma_one_mount_leaves(r: RegistryView, k: int)
    requires
        r.wf(),
        0 <= k < r.mounts.len(),
    ensures
        r.without_id(r.mounts[k].id).mounts == r.mounts.remove(k),
        r.without_id(r.mounts[k].id).wf(),
{
    lemma_one_leaves(r.mounts, k);
    let n = r.mounts.remove(k);
    assert forall|i: int| 0 <= i < n.len() implies (#[trigger] n[i]).id < r.next_id by {
        assert(n[i] == if i < k {
            r.mounts[i]
        } else {
            r.mounts[i + 1]
        });
    }
    assert forall|i: int, j: int| 0 <= i < j < n.len() implies (#[trigger] n[i]).id != (
    #[trigger] n[j]).id by {
        let a = if i < k {
            i
        } else {
            i + 1
        };
        let b = if j < k {
            j
        } else {
            j + 1
        };
        assert(n[i] == r.mounts[a] && n[j] == r.mounts[b]);
        assert(r.mounts[a].id != r.mounts[b].id);
    }
}

proof fn lemma_one_leaves(v: Seq<MountedView>, k: int)
    requires
        0 <= k < v.len(),
        forall|i: int, j: int|
            0 <= i < j < v.len() ==> (#[trigger] v[i]).id != (#[trigger] v[j]).id,
    ensures
        without_id(v, v[k].id) == v.remove(k),
    decreases v.len(),
{
    let d = v.drop_last();
    let id = v[k].id;
    if k < v.len() - 1 {
        assert forall|i: int, j: int| 0 <= i < j < d.len() implies (#[trigger] d[i]).id != (
        #[trigger] d[j]).id by {
            assert(v[i].id != v[j].id);
        }
        lemma_one_leaves(d, k);
        assert(v[k].id != v[v.len() - 1].id);
        assert(d.remove(k).push(v.last()) =~= v.remove(k));
    } else {
        assert forall|i: int| 0 <= i < d.len() implies (#[trigger] d[i]).id != id by {
            assert(v[i].id != v[k].id);
        }
        lemma_none_leaves(d, id);
        assert(v.remove(k) =~= d);
    }
}

proof fn lemma_none_leaves(v: Seq<MountedView>, id: u64)
    requires
        forall|i: int| 0 <= i < v.len() ==> (#[trigger] v[i]).id != id,
    ensures
        without_id(v, id) == v,
    decreases v.len(),
{
    if v.len() > 0 {
        let d = v.drop_last();
        assert forall|i: int| 0 <= i < d.len() implies (#[trigger] d[i]).id != id by {
            assert(v[i].id != id);
        }
        lemma_none_leaves(d, id);
        assert(v[v.len() - 1].id != id);
        assert(d.push(v.last()) =~= v);
    }
}

/// A mount is released once: after it the mount is inactive and no longer
/// registered, and a second release has nothing to do and changes nothing but
/// the time since which the source is held off.
pub proof fn lemma_teardown_once(
    m: MountedView,
    registry: RegistryView,
    a: bool,
    b: bool,
    i: int,
)
    requires
        !m.flags.torn_down,
    ensures
        ({
            let first = torn_down(m, registry, a);
            &&& first.0 is Release
            &&& first.1.flags.torn_down && !first.1.flags.mounted
            &&& 0 <= i < first.2.mounts.len() ==> first.2.mounts[i].id != m.id
            &&& torn_down(first.1, first.2, b) == (Teardown::Nothing, first.1, first.2)
        }),
{
    let others = without_id(registry.mounts, m.id);
    if 0 <= i < others.len() {
        lemma_others_stay(registry.mounts, m.id, others[i]);
        assert(others.contains(others[i]));
    }
}

/// Whether a mount is released for the first time or again, its source is held
/// off from then on.
pub proof fn lemma_teardown_holds_off(
    hold: Seq<(Seq<char>, u64)>,
    m: MountedView,
    now: u64,
    table: Seq<MountEntry>,
    later: u64,
)
    requires
        later - now < HOLD_OFF_MS || mounted_at(table, m.source),
    ensures
        path::has_path(sources_of(swept(with_release(hold, m.source, now), table, later)), m.source),
{
    lemma_released_held(hold, m.source, now, table, later);
}

proof fn lemma_with_release_from(
    v: Seq<(Seq<char>, u64)>,
    source: Seq<char>,
    now: u64,
    k: int,
)
    requires
        0 <= k < with_release(v, source, now).len(),
    ensures
        path::comps(with_release(v, source, now)[k].0) == path::comps(source) || exists|i: int|
            0 <= i < v.len() && (#[trigger] v[i]).0 == with_release(v, source, now)[k].0,
    decreases v.len(),
{
    if v.len() > 0 && path::comps(v[0].0) != path::comps(source) {
        let rest = v.skip(1);
        if k == 0 {
            assert(v[0].0 == with_release(v, source, now)[0].0);
        } else {
            lemma_with_release_from(rest, source, now, k - 1);
            let w = with_release(rest, source, now)[k - 1];
            if path::comps(w.0) != path::comps(source) {
                let i = choose|i: int| 0 <= i < rest.len() && (#[trigger] rest[i]).0 == w.0;
                assert(v[i + 1].0 == w.0);
            }
        }
    } else if v.len() > 0 && k > 0 {
        assert(v[k].0 == with_release(v, source, now)[k].0);
    }
}

/// A source is recorded once, however often it is released.
pub proof fn lemma_released_once(v: Seq<(Seq<char>, u64)>, source: Seq<char>, now: u64)
    requires
        releases_ok(v),
    ensures
        releases_ok(with_release(v, source, now)),
    decreases v.len(),
{
    let w = with_release(v, source, now);
    if v.len() == 0 {
    } else if path::comps(v[0].0) == path::comps(source) {
        assert forall|i: int, j: int| 0 <= i < j < w.len() implies path::comps(
            (#[trigger] w[i]).0,
        ) != path::comps((#[trigger] w[j]).0) by {
            assert(w[i].0 == v[i].0 && w[j].0 == v[j].0);
            assert(path::comps(v[i].0) != path::comps(v[j].0));
        }
    } else {
        let rest = v.skip(1);
        let r = with_release(rest, source, now);
        assert forall|i: int, j: int| 0 <= i < j < rest.len() implies path::comps(
            (#[trigger] rest[i]).0,
        ) != path::comps((#[trigger] rest[j]).0) by {
            assert(path::comps(v[i + 1].0) != path::comps(v[j + 1].0));
        }
        lemma_released_once(rest, source, now);
        assert forall|i: int, j: int| 0 <= i < j < w.len() implies path::comps(
            (#[trigger] w[i]).0,
        ) != path::comps((#[trigger] w[j]).0) by {
            assert(w[j] == r[j - 1]);
            if i > 0 {
                assert(w[i] == r[i - 1]);
            } else {
                assert(w[0] == v[0]);
                lemma_with_release_from(rest, source, now, j - 1);
                if path::comps(r[j - 1].0) != path::comps(source) {
                    let n = choose|n: int|
                        0 <= n < rest.len() && (#[trigger] rest[n]).0 == r[j - 1].0;
                    assert(path::comps(v[0].0) != path::comps(v[n + 1].0));
                }
            }
        }
    }
}

} // verus!
