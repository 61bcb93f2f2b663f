//! What holds of mounts, of their release and of the sources that are left alone.

use vstd::prelude::*;

use super::run::{
    dir_char, dir_name, disc_of, new_run, raw_node, stepped, target_of, ActionView, Event,
    MountError, RunView, Stage, TreeFacts,
};
use super::{
    base_dir_at, is_at, is_device, mount_at, orphan_on, orphans_in, our_mounts, present,
    released_snapshot, still_held, swept, torn_down, with_release, without_end, without_id,
    MountEntry, MountOptions, MountedDisc, MountedView, RegistryView, Teardown,
};
use crate::disc::VolumeFacts;
use crate::idle::law::in_the_way;
use crate::idle::{holder_views, opt_string, with_holders, Seen, State};
use crate::number;
use crate::path;
use crate::path::law::lemma_dots;
use crate::rawudf::node::{digits, disk, node, tail_ok};
use crate::text;

verus! {

broadcast use vstd::string::group_string_axioms;

// ───────────────────────── the mount table ─────────────────────────

/// Our own views are the entries that are NFS from this machine, and no others.
pub proof fn lemma_our_mounts(table: Seq<MountEntry>, p: Seq<char>)
    ensures
        our_mounts(table).contains(p) <==> exists|i: int|
            0 <= i < table.len() && (#[trigger] table[i]).mount_point@ == p && table[i].fs_type@
                == "nfs"@ && (table[i].from@ == "127.0.0.1:/"@ || table[i].from@ == "localhost:/"@),
    decreases table.len(),
{
    if table.len() > 0 {
        let d = table.drop_last();
        let last = table.len() - 1;
        let before = our_mounts(d);
        let n = our_mounts(table);
        lemma_our_mounts(d, p);
        if before.contains(p) {
            let k = choose|k: int| 0 <= k < before.len() && before[k] == p;
            assert(n[k] == p);
            let i = choose|i: int|
                0 <= i < d.len() && (#[trigger] d[i]).mount_point@ == p && d[i].fs_type@ == "nfs"@
                    && (d[i].from@ == "127.0.0.1:/"@ || d[i].from@ == "localhost:/"@);
            assert(table[i] == d[i]);
        }
        if n.contains(p) && !before.contains(p) {
            let k = choose|k: int| 0 <= k < n.len() && n[k] == p;
            if k < before.len() {
                assert(before[k] == p);
            }
            assert(table[last].mount_point@ == p);
        }
        if exists|i: int|
            0 <= i < table.len() && (#[trigger] table[i]).mount_point@ == p && table[i].fs_type@
                == "nfs"@ && (table[i].from@ == "127.0.0.1:/"@ || table[i].from@
                == "localhost:/"@) {
            let i = choose|i: int|
                0 <= i < table.len() && (#[trigger] table[i]).mount_point@ == p && table[i].fs_type@
                    == "nfs"@ && (table[i].from@ == "127.0.0.1:/"@ || table[i].from@
                    == "localhost:/"@);
            if i < last {
                assert(d[i] == table[i]);
            } else {
                assert(n[before.len() as int] == p);
            }
        }
    }
}

/// Views go to where the environment says, or into the home directory.
pub proof fn lemma_base_dir(p: &str, home: Option<&str>)
    ensures
        base_dir_at(Some(p), home) == p@,
        home matches Some(h) ==> base_dir_at(None, home) == path::joined(h@, "BluRay Decrypted"@),
        base_dir_at(None, None) == path::joined("/tmp"@, "BluRay Decrypted"@),
{
}

// ───────────────────────── hold-off ─────────────────────────

/// A release counts as long as the volume is mounted, and for fifteen seconds;
/// then it is forgotten. No release is lost before that, and none made up.
pub proof fn lemma_held(
    v: Seq<(Seq<char>, u64)>,
    table: Seq<MountEntry>,
    now: u64,
    e: (Seq<char>, u64),
)
    ensures
        swept(v, table, now).contains(e) <==> v.contains(e) && (now < e.1 + 15_000 || exists|i: int|
            0 <= i < table.len() && path::comps((#[trigger] table[i]).mount_point@) == path::comps(
                e.0,
            )),
    decreases v.len(),
{
    if v.len() > 0 {
        let d = v.drop_last();
        let before = swept(d, table, now);
        let n = swept(v, table, now);
        let last = v.len() - 1;
        lemma_held(d, table, now, e);
        assert(v =~= d.push(v.last()));
        if d.contains(e) {
            let i = choose|i: int| 0 <= i < d.len() && d[i] == e;
            assert(v[i] == e);
        }
        if before.contains(e) {
            let k = choose|k: int| 0 <= k < before.len() && before[k] == e;
            assert(n[k] == e);
        }
        if n.contains(e) && !before.contains(e) {
            let k = choose|k: int| 0 <= k < n.len() && n[k] == e;
            if k < before.len() {
                assert(before[k] == e);
            }
            assert(v[last] == e);
        }
        if v.contains(e) && !d.contains(e) {
            let i = choose|i: int| 0 <= i < v.len() && v[i] == e;
            if i < d.len() {
                assert(d[i] == e);
            }
            if still_held(e, table, now) {
                assert(n[before.len() as int] == e);
            }
        }
    }
}

/// The release of a source does not touch that of another.
pub proof fn lemma_release_leaves(
    v: Seq<(Seq<char>, u64)>,
    source: Seq<char>,
    now: u64,
    e: (Seq<char>, u64),
)
    requires
        path::comps(e.0) != path::comps(source),
    ensures
        with_release(v, source, now).contains(e) <==> v.contains(e),
    decreases v.len(),
{
    let w = with_release(v, source, now);
    if v.len() > 0 {
        let rest = v.skip(1);
        if path::comps(v[0].0) == path::comps(source) {
            if v.contains(e) {
                let i = choose|i: int| 0 <= i < v.len() && v[i] == e;
                assert(w[i] == e);
            }
            if w.contains(e) {
                let i = choose|i: int| 0 <= i < w.len() && w[i] == e;
                assert(i > 0);
                assert(v[i] == e);
            }
        } else {
            let r = with_release(rest, source, now);
            lemma_release_leaves(rest, source, now, e);
            if v.contains(e) {
                let i = choose|i: int| 0 <= i < v.len() && v[i] == e;
                if i == 0 {
                    assert(w[0] == e);
                } else {
                    assert(rest[i - 1] == e);
                    let k = choose|k: int| 0 <= k < r.len() && r[k] == e;
                    assert(w[k + 1] == e);
                }
            }
            if w.contains(e) {
                let i = choose|i: int| 0 <= i < w.len() && w[i] == e;
                if i == 0 {
                    assert(v[0] == e);
                } else {
                    assert(r[i - 1] == e);
                    let k = choose|k: int| 0 <= k < rest.len() && rest[k] == e;
                    assert(v[k + 1] == e);
                }
            }
        }
    } else {
        assert(w[0] == (source, now));
    }
}

// ───────────────────────── leftovers ─────────────────────────

/// A helper was left behind if its parent is process 1, its program is a
/// `makemkvcon` and its first argument is `guiserver`.
pub proof fn lemma_orphan(line: Seq<char>)
    ensures
        ({
            let w = text::words(line, text::Separator::Space);
            orphan_on(line) == if w.len() >= 4 && w[1] == seq!['1'] && "/makemkvcon"@.is_suffix_of(
                w[2],
            ) && w[3] == "guiserver"@ {
                number::i32_of(w[0])
            } else {
                None
            }
        }),
{
    reveal_strlit("1");
    assert("1"@ =~= seq!['1']);
}

/// All helpers that were left behind are killed, and no others.
pub proof fn lemma_orphans(lines: Seq<Seq<char>>, pid: i32)
    ensures
        orphans_in(lines).contains(pid) <==> exists|i: int|
            0 <= i < lines.len() && orphan_on(#[trigger] lines[i]) == Some(pid),
    decreases lines.len(),
{
    if lines.len() > 0 {
        let d = lines.drop_last();
        let before = orphans_in(d);
        let n = orphans_in(lines);
        let last = lines.len() - 1;
        lemma_orphans(d, pid);
        if before.contains(pid) {
            let k = choose|k: int| 0 <= k < before.len() && before[k] == pid;
            assert(n[k] == pid);
            let i = choose|i: int| 0 <= i < d.len() && orphan_on(#[trigger] d[i]) == Some(pid);
            assert(orphan_on(lines[i]) == Some(pid));
        }
        if n.contains(pid) && !before.contains(pid) {
            let k = choose|k: int| 0 <= k < n.len() && n[k] == pid;
            if k < before.len() {
                assert(before[k] == pid);
            }
            assert(orphan_on(lines[last]) == Some(pid));
        }
        if exists|i: int| 0 <= i < lines.len() && orphan_on(#[trigger] lines[i]) == Some(pid) {
            let i = choose|i: int|
                0 <= i < lines.len() && orphan_on(#[trigger] lines[i]) == Some(pid);
            if i < last {
                assert(orphan_on(d[i]) == Some(pid));
            } else {
                assert(n[before.len() as int] == pid);
            }
        }
    }
}

// ───────────────────────── live mounts ─────────────────────────

/// The mount at a path is the first that has its source or its view there.
pub proof fn lemma_mount_at(mounts: Seq<MountedDisc>, p: Seq<char>, from: int)
    requires
        0 <= from,
        mounts.len() <= usize::MAX,
    ensures
        match mount_at(mounts, p, from) {
            Some(k) => {
                &&& from <= k < mounts.len()
                &&& path::comps(mounts[k as int].source@) == path::comps(p) || path::comps(
                    mounts[k as int].mountpoint@,
                ) == path::comps(p)
                &&& forall|j: int|
                    from <= j < k ==> path::comps((#[trigger] mounts[j]).source@) != path::comps(p)
                        && path::comps(mounts[j].mountpoint@) != path::comps(p)
            },
            None => forall|j: int|
                from <= j < mounts.len() ==> path::comps((#[trigger] mounts[j]).source@)
                    != path::comps(p) && path::comps(mounts[j].mountpoint@) != path::comps(p),
        },
    decreases mounts.len() - from,
{
    if from < mounts.len() && !is_at(mounts[from], p) {
        lemma_mount_at(mounts, p, from + 1);
    }
}

proof fn lemma_dev_comps()
    ensures
        path::comps("/dev/"@) == seq![seq!['/'], seq!['d', 'e', 'v']],
        path::comps("/dev/r"@) == seq![seq!['/'], seq!['d', 'e', 'v'], seq!['r']],
{
    reveal_strlit("/dev/");
    reveal_strlit("/dev/r");
    lemma_dots();
    let slash = seq!['/'];
    let dev = seq!['d', 'e', 'v'];
    let top = seq!['/', 'd', 'e', 'v'];
    let r = seq!['r'];
    let none = Seq::<char>::empty();
    text::law::lemma_words(none, '/', none, text::Separator::Slash);
    assert(none.push('/') + none =~= slash);
    assert(path::comps(slash) =~= seq![slash]) by {
        reveal(Seq::filter);
    }
    path::law::lemma_entry_path(slash, dev);
    assert(path::joined(slash, dev) =~= top);
    path::law::lemma_slashes(top, none);
    assert(top.push('/') =~= "/dev/"@);
    assert(path::law::plain_name(r)) by {
        assert(r[0] == 'r');
        assert(seq!['.'][0] == '.');
        assert(r.len() != seq!['.', '.'].len());
    }
    path::law::lemma_entry_path(top, r);
    assert(top.push('/') + r =~= "/dev/r"@);
    assert(path::comps("/dev/"@) =~= seq![slash, dev]);
    assert(path::comps("/dev/r"@) =~= seq![slash, dev, r]);
}

/// A source is a device just when its path is in `/dev`. It is there while its
/// node is; a volume is there while it is mounted.
pub proof fn lemma_device_source(source: Seq<char>, node_exists: bool, table: Seq<MountEntry>)
    ensures
        is_device(source) <==> path::comps(source).len() >= 2 && path::comps(source)[0] == seq!['/']
            && path::comps(source)[1] == seq!['d', 'e', 'v'],
        is_device(source) ==> present(source, node_exists, table) == node_exists,
        !is_device(source) ==> (present(source, node_exists, table) <==> exists|i: int|
            0 <= i < table.len() && path::comps((#[trigger] table[i]).mount_point@) == path::comps(
                source,
            )),
{
    lemma_dev_comps();
    let c = path::comps(source);
    let dev = seq![seq!['/'], seq!['d', 'e', 'v']];
    if is_device(source) {
        assert(c.take(2) == dev);
        assert(c.take(2)[0] == c[0] && c.take(2)[1] == c[1]);
    }
    if c.len() >= 2 && c[0] == seq!['/'] && c[1] == seq!['d', 'e', 'v'] {
        assert(c.take(2) =~= dev);
    }
}

/// The path of a volume loses the slashes at its end and nothing else.
pub proof fn lemma_volume_path(s: Seq<char>)
    ensures
        without_end(s).is_prefix_of(s),
        without_end(s).len() > 1 ==> without_end(s).last() != '/',
        s.len() > 0 ==> without_end(s).len() > 0,
        forall|i: int| without_end(s).len() <= i < s.len() ==> #[trigger] s[i] == '/',
    decreases s.len(),
{
    if s.len() > 1 && s.last() == '/' {
        let d = s.drop_last();
        lemma_volume_path(d);
        let w = without_end(s);
        assert(s.take(w.len() as int) =~= d.take(w.len() as int));
        assert forall|i: int| w.len() <= i < s.len() implies #[trigger] s[i] == '/' by {
            if i < d.len() {
                assert(d[i] == s[i]);
            }
        }
    } else {
        assert(s.take(s.len() as int) =~= s);
    }
}

// ───────────────────────── releasing ─────────────────────────

proof fn lemma_without_empty(v: Seq<MountedView>, id: u64)
    ensures
        without_id(v, id).len() == 0 <==> forall|i: int|
            0 <= i < v.len() ==> (#[trigger] v[i]).id == id,
    decreases v.len(),
{
    if v.len() > 0 {
        let d = v.drop_last();
        lemma_without_empty(d, id);
        if without_id(v, id).len() == 0 {
            assert forall|i: int| 0 <= i < v.len() implies (#[trigger] v[i]).id == id by {
                if i < d.len() {
                    assert(d[i] == v[i]);
                }
            }
        }
        if forall|i: int| 0 <= i < v.len() ==> (#[trigger] v[i]).id == id {
            assert forall|i: int| 0 <= i < d.len() implies (#[trigger] d[i]).id == id by {
                assert(v[i] == d[i]);
            }
            assert(v[v.len() - 1].id == id);
        }
    }
}

/// What the release of a mount does: the first time the view is unmounted if it
/// is mounted and ours to unmount, its directory goes with it, and where no other
/// disc is served the helpers are waited for and the state is published. The mount
/// then counts as released and no longer as mounted, and is otherwise the same.
pub proof fn lemma_teardown(m: MountedView, registry: RegistryView, unmount_view: bool)
    ensures
        ({
            let t = torn_down(m, registry, unmount_view);
            let alone = forall|i: int|
                0 <= i < registry.mounts.len() ==> (#[trigger] registry.mounts[i]).id == m.id;
            &&& m.flags.torn_down ==> t == (Teardown::Nothing, m, registry)
            &&& !m.flags.torn_down ==> {
                &&& t.0 == Teardown::Release {
                    publish: alone,
                    unmount: m.flags.mounted && unmount_view,
                    release_helpers: alone,
                    remove_dir: unmount_view,
                }
                &&& t.1.flags.torn_down && !t.1.flags.mounted
                &&& t.2.next_id == registry.next_id
            }
            &&& t.1.source == m.source && t.1.label == m.label && t.1.mountpoint == m.mountpoint
            &&& t.1.port == m.port && t.1.raw_device == m.raw_device && t.1.id == m.id
        }),
{
    lemma_without_empty(registry.mounts, m.id);
}

/// Once a mount was released, the disc is safe to eject just when none of the
/// helpers and of the processes with open files is in the way; else it is stuck.
pub proof fn lemma_released_snapshot(m: MountedView, seen: Seen, pid: u32)
    ensures
        ({
            let s = released_snapshot(m, seen, pid);
            &&& s.holders == with_holders(holder_views(seen.helpers@), holder_views(seen.open@))
            &&& s.safe_to_eject <==> forall|i: int|
                0 <= i < s.holders.len() ==> !in_the_way(#[trigger] s.holders[i], m.source)
            &&& s.safe_to_eject ==> s.state == State::SafeToEject
            &&& !s.safe_to_eject ==> s.state == State::Stuck
            &&& s.label == Some(m.label) && s.source == Some(m.source)
            &&& s.mountpoint == Some(m.mountpoint) && s.mount_pid == Some(pid)
        }),
{
    crate::idle::law::lemma_safe(released_snapshot(m, seen, pid).holders, m.source);
}

// ───────────────────────── the course of a mount ─────────────────────────

/// The directory of a view is called like the disc: slashes, colons and zeros are
/// underscores, and there is no white space at its ends. It stands where it was
/// asked for, or in the directory for views.
pub proof fn lemma_view_dir(base: Seq<char>, explicit: Option<Seq<char>>, label: Seq<char>)
    ensures
        ({
            let m = Seq::new(
                label.len(),
                |i: int|
                    if label[i] == '/' || label[i] == ':' || label[i] == '\0' {
                        '_'
                    } else {
                        label[i]
                    },
            );
            let name = if text::trimmed(m).len() > 0 {
                text::trimmed(m)
            } else {
                seq!['B', 'l', 'u', 'R', 'a', 'y']
            };
            &&& dir_name(label) == name
            &&& target_of(base, explicit, label) == match explicit {
                Some(p) => p,
                None => path::joined(base, name),
            }
        }),
{
    reveal_strlit("BluRay");
    let m = Seq::new(
        label.len(),
        |i: int|
            if label[i] == '/' || label[i] == ':' || label[i] == '\0' {
                '_'
            } else {
                label[i]
            },
    );
    assert(label.map_values(|c: char| dir_char(c)) =~= m);
    assert("BluRay"@ =~= seq!['B', 'l', 'u', 'R', 'a', 'y']);
}

/// The raw device of a node of `/dev` is the raw node of the same name.
pub proof fn lemma_raw_node(raw: bool, d: Seq<char>, tail: Seq<char>)
    requires
        digits(d),
        tail_ok(tail),
    ensures
        raw_node(node(true, raw, d, tail)) == node(true, true, d, tail),
        is_device(node(true, raw, d, tail)),
{
    reveal_strlit("/dev/r");
    let p = node(true, raw, d, tail);
    lemma_dev_comps();
    crate::rawudf::node::lemma_node_parts(true, raw, d, tail);
    let c = path::comps(p);
    assert(c.take(2) =~= seq![seq!['/'], seq!['d', 'e', 'v']]);
    if path::comps("/dev/r"@).is_prefix_of(c) {
        assert(c.take(3)[2] == c[2]);
        assert(node(false, raw, d, tail).len() > 1);
    }
    assert("/dev/r"@ + (disk(d) + tail) =~= node(true, true, d, tail));
}

/// The mount of a device: its raw volume is opened and read, then the disc is
/// opened in MakeMKV under the same device, served, and mounted where it is to go,
/// from the port that is listened on. The live disc tells all of this.
pub proof fn lemma_device_course(source: Seq<char>, opts: MountOptions, t: TreeFacts, port: u16)
    requires
        is_device(source),
    ensures
        ({
            let r0 = new_run(source, opts);
            let (r1, a1) = stepped(r0, Event::Scanned(Some(t)));
            let (r2, a2) = stepped(r1, Event::DiscReady(true));
            let (r3, a3) = stepped(r2, Event::Serving(Some(port)));
            let (r4, a4) = stepped(r3, Event::Prepared(true));
            let (r5, a5) = stepped(r4, Event::Attached(true));
            let at = target_of(opts.base_dir@, opt_string(opts.mountpoint), t.label@);
            &&& a1 == (ActionView::OpenDisc { source })
            &&& a2 == ActionView::Serve
            &&& a3 == (ActionView::Prepare { mountpoint: at })
            &&& a4 == (ActionView::Attach { port, mountpoint: at })
            &&& a5 == ActionView::Live
            &&& disc_of(r5).source == source && disc_of(r5).label == t.label@
            &&& disc_of(r5).mountpoint == at && disc_of(r5).port == port
            &&& disc_of(r5).raw_device == Some(raw_node(source))
            &&& disc_of(r5).flags.mounted && !disc_of(r5).flags.torn_down
            &&& disc_of(r5).id == 0
        }),
{
}

/// The mount of a volume: it is resolved, its device is asked for, it has to be a
/// Blu-ray, its tree is read, and the disc is opened in MakeMKV if it is protected
/// or holds an encrypted stream. From there on it goes as that of a device.
pub proof fn lemma_volume_course(
    source: Seq<char>,
    opts: MountOptions,
    p: String,
    info: Option<String>,
    facts: VolumeFacts,
    t: TreeFacts,
)
    requires
        !is_device(source),
        path::file_name(p@) is Some,
    ensures
        ({
            let r0 = new_run(source, opts);
            let (r1, a1) = stepped(r0, Event::Resolved(Some(p)));
            let (r2, a2) = stepped(r1, Event::DeviceInfo(info));
            let (r3, a3) = stepped(r2, Event::Looked(facts));
            let (r4, a4) = stepped(r3, Event::Scanned(Some(t)));
            &&& a1 == (ActionView::AskDevice { volume: p@ })
            &&& a2 == (ActionView::Look { volume: p@ })
            &&& a3 == if facts.has_index {
                ActionView::Scan { volume: p@ }
            } else {
                ActionView::Fail(MountError::NotBluRay)
            }
            &&& facts.has_index ==> a4 == if facts.has_aacs || t.encrypted_count > 0 {
                ActionView::OpenDisc { source: p@ }
            } else {
                ActionView::StartEngine
            }
            &&& facts.has_index ==> r4.stage == Stage::Disc && r4.source == p@ && r4.label
                == t.label@ && r4.base_dir == opts.base_dir@ && r4.explicit == opt_string(
                opts.mountpoint,
            )
            &&& info is None ==> r4.raw_device is None
            &&& info matches Some(i) ==> r4.raw_device == crate::disc::raw_device_in(i@)
        }),
{
}

/// A mount fails for what failed.
pub proof fn lemma_mount_fails(r: RunView)
    ensures
        r.stage == Stage::Resolve ==> stepped(r, Event::Resolved(None)).1 == ActionView::Fail(
            MountError::NoSource,
        ),
        r.stage == Stage::Raw || r.stage == Stage::Scan ==> stepped(r, Event::Scanned(None)).1
            == ActionView::Fail(MountError::Unreadable),
        r.stage == Stage::Disc ==> stepped(r, Event::DiscReady(false)).1 == ActionView::Fail(
            MountError::NoDisc,
        ),
        r.stage == Stage::Serve ==> stepped(r, Event::Serving(None)).1 == ActionView::Fail(
            MountError::NoServer,
        ),
        r.stage == Stage::Prepare ==> stepped(r, Event::Prepared(false)).1 == ActionView::Fail(
            MountError::NotPrepared,
        ),
{
}

/// The view is mounted read-only and hard, from the port that is listened on.
pub proof fn lemma_nfs_options(port: u16)
    ensures
        ({
            let o = super::run::nfs_options_text(port);
            let p = number::decimal(port as nat);
            &&& "ro,nolocks,vers=3,tcp,hard,intr,rsize=131072,readahead=16,actimeo=3600,timeo=600,port="@.is_prefix_of(
                o,
            )
            &&& (p + ",mountport="@ + p).is_suffix_of(o)
        }),
{
    let o = super::run::nfs_options_text(port);
    let p = number::decimal(port as nat);
    let a =
        "ro,nolocks,vers=3,tcp,hard,intr,rsize=131072,readahead=16,actimeo=3600,timeo=600,port="@;
    let b = p + ",mountport="@ + p;
    assert(o =~= a + b);
    assert(o.take(a.len() as int) =~= a);
    assert(o.skip(o.len() - b.len()) =~= b);
}

/// A mount that is registered gets the next number, which no other has, and is
/// added to those that were there.
pub proof fn lemma_registered(r: RegistryView, m: MountedView, i: int)
    requires
        r.wf(),
        r.next_id < u64::MAX,
    ensures
        ({
            let (n, s) = r.with_mount(m);
            &&& n.id == r.next_id && s.next_id == r.next_id + 1
            &&& n.source == m.source && n.label == m.label && n.mountpoint == m.mountpoint
            &&& n.port == m.port && n.raw_device == m.raw_device && n.flags == m.flags
            &&& s.mounts.len() == r.mounts.len() + 1 && s.mounts.last() == n
            &&& 0 <= i < r.mounts.len() ==> s.mounts[i] == r.mounts[i] && s.mounts[i].id != n.id
        }),
{
}

// ───────────────────────── unmounting ─────────────────────────

/// One of our views is unmounted by one tool after the other, the first time
/// without force and then with it, until one succeeds; after the third it is given
/// up. One that is not mounted is done.
pub proof fn lemma_unmount_course(results: Seq<bool>)
    requires
        forall|i: int| 0 <= i < results.len() ==> !#[trigger] results[i],
    ensures
        super::unmount_step(false, results) == super::UnmountStep::Done,
        super::unmount_step(true, results.push(true)) == super::UnmountStep::Done,
        results.len() == 0 ==> super::unmount_step(true, results) == super::UnmountStep::Try(
            super::UnmountTool::Umount,
        ),
        results.len() == 1 ==> super::unmount_step(true, results) == super::UnmountStep::Try(
            super::UnmountTool::UmountForce,
        ),
        results.len() == 2 ==> super::unmount_step(true, results) == super::UnmountStep::Try(
            super::UnmountTool::DiskutilForce,
        ),
        results.len() >= 3 ==> super::unmount_step(true, results) == super::UnmountStep::Failed,
{
    if results.len() > 0 {
        assert(!results[results.len() - 1]);
    }
    assert(results.push(true).last());
}

/// A volume of the system is never unmounted with force. It is tried twice, and is
/// done when a tool says so or when it is no longer mounted.
pub proof fn lemma_polite_course(mounted: bool, results: Seq<Option<bool>>)
    requires
        forall|i: int| 0 <= i < results.len() ==> #[trigger] results[i] != Some(true),
    ensures
        super::polite_step(mounted, results.push(Some(true))) == super::UnmountStep::Done,
        super::polite_step(mounted, results) != super::UnmountStep::Try(
            super::UnmountTool::UmountForce,
        ),
        super::polite_step(mounted, results) != super::UnmountStep::Try(
            super::UnmountTool::DiskutilForce,
        ),
        results.len() == 0 && mounted ==> super::polite_step(mounted, results)
            == super::UnmountStep::Try(super::UnmountTool::Umount),
        results.len() == 0 && !mounted ==> super::polite_step(mounted, results)
            == super::UnmountStep::Done,
        results.len() == 1 ==> super::polite_step(mounted, results) == super::UnmountStep::Try(
            super::UnmountTool::Diskutil,
        ),
        results.len() >= 2 && mounted ==> super::polite_step(mounted, results)
            == super::UnmountStep::Failed,
        results.len() >= 2 && !mounted ==> super::polite_step(mounted, results)
            == super::UnmountStep::Done,
{
    if results.len() > 0 {
        assert(results[results.len() - 1] != Some(true));
    }
    assert(results.push(Some(true)).last() == Some(true));
}

/// A mount point is ready once a view that was left there is unmounted, the
/// directory is there and it is empty; in this order, and not before.
pub proof fn lemma_prepare_course(
    ours: bool,
    unmounted: Option<bool>,
    created: Option<bool>,
    empty: Option<Option<bool>>,
)
    ensures
        super::prepare_step(ours, unmounted, created, empty) == super::PrepareStep::Ready <==> (ours
            ==> unmounted == Some(true)) && created == Some(true) && empty == Some(Some(true)),
        super::prepare_step(ours, unmounted, created, empty) == super::PrepareStep::Unmount <==> ours
            && unmounted is None,
        super::prepare_step(ours, unmounted, created, empty) == super::PrepareStep::Create <==> (ours
            ==> unmounted == Some(true)) && created is None,
        super::prepare_step(ours, unmounted, created, empty) == super::PrepareStep::List <==> (ours
            ==> unmounted == Some(true)) && created == Some(true) && empty is None,
        super::prepare_step(ours, unmounted, created, empty) == super::PrepareStep::NotEmpty <==> (
        ours ==> unmounted == Some(true)) && created == Some(true) && empty == Some(Some(false)),
        super::prepare_step(ours, unmounted, created, empty) == super::PrepareStep::Stale <==> ours
            && unmounted == Some(false),
{
    assert(unmounted is None || unmounted == Some(true) || unmounted == Some(false)) by {
        if let Some(x) = unmounted {
            assert(x == true || x == false);
        }
    }
    assert(created is None || created == Some(true) || created == Some(false)) by {
        if let Some(x) = created {
            assert(x == true || x == false);
        }
    }
    assert(empty is None || empty == Some(None::<bool>) || empty == Some(Some(true)) || empty
        == Some(Some(false))) by {
        if let Some(Some(x)) = empty {
            assert(x == true || x == false);
        }
    }
}

} // verus!
