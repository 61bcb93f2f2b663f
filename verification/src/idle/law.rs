//! Who holds a disc, and what is said of it.

use vstd::prelude::*;

use super::{
    blocks_eject, drive_clear, entry_paths, hard_holder, helper_on, helpers_in, holder_views,
    holds, holds_any, lsof_read, other_node, our_pids, release_paths, safe_to_eject,
    snapshot_of, status_at, still_busy, table_paths, table_volumes, watched_paths, with_holders,
    HelperView, HolderView, Seen, State,
};
use crate::mount::MountEntry;
use crate::number;
use crate::path;
use crate::text;
use crate::text::law::{alike, lemma_case, unbroken};

verus! {

broadcast use vstd::string::group_string_axioms;

// ───────────────────────── who holds a disc ─────────────────────────

/// The holder keeps the disc at `source` from being ejected: it is MakeMKV's
/// helper or HandBrake, or has the helper, an optical device, a decrypted view or
/// something on the disc open.
pub open spec fn in_the_way(h: HolderView, source: Seq<char>) -> bool {
    ||| h.name == "makemkvcon"@
    ||| alike(h.name, "HandBrake"@)
    ||| alike(h.name, "HandBrakeCLI"@)
    ||| text::contains(h.path, "makemkvcon"@)
    ||| text::contains(h.path, "BluRay Decrypted"@)
    ||| "/dev/disk"@.is_prefix_of(h.path)
    ||| "/dev/rdisk"@.is_prefix_of(h.path)
    ||| source.is_prefix_of(h.path)
}

/// A disc is safe to eject just when no holder is in the way.
pub proof fn lemma_safe(holders: Seq<HolderView>, source: Seq<char>)
    ensures
        safe_to_eject(holders, source) <==> forall|i: int|
            0 <= i < holders.len() ==> !in_the_way(#[trigger] holders[i], source),
{
    assert forall|i: int| 0 <= i < holders.len() implies blocks_eject(#[trigger] holders[i], source)
        == in_the_way(holders[i], source) by {
        lemma_case(holders[i].name, "HandBrake"@);
        lemma_case(holders[i].name, "HandBrakeCLI"@);
    }
    if safe_to_eject(holders, source) {
        assert forall|i: int| 0 <= i < holders.len() implies !in_the_way(
            #[trigger] holders[i],
            source,
        ) by {
            assert(!blocks_eject(holders[i], source));
        }
    }
}

proof fn lemma_low(n: Seq<char>, word: Seq<char>)
    requires
        text::lower(word) == word,
    ensures
        text::lower(n) == word <==> alike(n, word),
{
    lemma_case(n, word);
}

/// A volume must not be taken from a scan or a player: MakeMKV's helper,
/// HandBrake, VLC, IINA, mpv or Infuse, or whoever has the helper or an optical
/// device open. Anyone else may be asked to let go.
pub proof fn lemma_hard_holder(h: HolderView)
    ensures
        hard_holder(h) <==> alike(h.name, "makemkvcon"@) || alike(h.name, "handbrake"@) || alike(
            h.name,
            "handbrakecli"@,
        ) || alike(h.name, "vlc"@) || alike(h.name, "iina"@) || alike(h.name, "mpv"@) || alike(
            h.name,
            "infuse"@,
        ) || text::contains(h.path, "makemkvcon"@) || "/dev/disk"@.is_prefix_of(h.path)
            || "/dev/rdisk"@.is_prefix_of(h.path),
{
    reveal_strlit("makemkvcon");
    reveal_strlit("handbrake");
    reveal_strlit("handbrakecli");
    reveal_strlit("vlc");
    reveal_strlit("iina");
    reveal_strlit("mpv");
    reveal_strlit("infuse");
    assert(text::lower("makemkvcon"@) =~= "makemkvcon"@);
    assert(text::lower("handbrake"@) =~= "handbrake"@);
    assert(text::lower("handbrakecli"@) =~= "handbrakecli"@);
    assert(text::lower("vlc"@) =~= "vlc"@);
    assert(text::lower("iina"@) =~= "iina"@);
    assert(text::lower("mpv"@) =~= "mpv"@);
    assert(text::lower("infuse"@) =~= "infuse"@);
    lemma_low(h.name, "makemkvcon"@);
    lemma_low(h.name, "handbrake"@);
    lemma_low(h.name, "handbrakecli"@);
    lemma_low(h.name, "vlc"@);
    lemma_low(h.name, "iina"@);
    lemma_low(h.name, "mpv"@);
    lemma_low(h.name, "infuse"@);
}

/// A wait for a disc goes on just while a holder has a device or something on the
/// disc open.
pub proof fn lemma_busy(holders: Seq<HolderView>, source: Seq<char>)
    ensures
        still_busy(holders, source) <==> exists|i: int|
            0 <= i < holders.len() && ("/dev/"@.is_prefix_of((#[trigger] holders[i]).path)
                || source.is_prefix_of(holders[i].path)),
{
}

// ───────────────────────── helpers ─────────────────────────

/// A line of a process listing that tells of a `makemkvcon`: its process, its
/// parent and its command, word by word.
pub proof fn lemma_helper_line(pid: u32, ppid: u32, cmd: Seq<Seq<char>>)
    requires
        cmd.len() > 0,
        forall|i: int|
            0 <= i < cmd.len() ==> (#[trigger] cmd[i]).len() > 0 && unbroken(
                cmd[i],
                text::Separator::Space,
            ),
    ensures
        ({
            let a = number::decimal(pid as nat);
            let b = number::decimal(ppid as nat);
            let line = a + " "@ + b + " "@ + text::joined_with(cmd, " "@);
            helper_on(line) == if text::contains(cmd[0], "makemkvcon"@) {
                Some(HelperView { pid, ppid, cmd: text::joined_with(cmd, " "@) })
            } else {
                None
            }
        }),
{
    reveal_strlit(" ");
    let sep = text::Separator::Space;
    let a = number::decimal(pid as nat);
    let b = number::decimal(ppid as nat);
    let c = text::joined_with(cmd, " "@);
    number::lemma_decimal_reads(pid as nat);
    number::lemma_decimal_reads(ppid as nat);
    assert forall|i: int| 0 <= i < a.len() implies !text::law::ends_piece(sep, #[trigger] a[i]) by {
        assert(number::is_digit(a[i]));
    }
    assert forall|i: int| 0 <= i < b.len() implies !text::law::ends_piece(sep, #[trigger] b[i]) by {
        assert(number::is_digit(b[i]));
    }
    lemma_words_of(cmd);
    text::law::lemma_words(b, ' ', c, sep);
    text::law::lemma_words(a, ' ', b.push(' ') + c, sep);
    let line = a + " "@ + b + " "@ + c;
    assert(" "@ =~= seq![' ']);
    assert(line =~= a.push(' ') + (b.push(' ') + c));
    let w = text::words(line, sep);
    assert(w =~= seq![a, b] + cmd);
    assert(w[2] == cmd[0]);
    assert(w.skip(2) =~= cmd);
}

proof fn lemma_words_of(v: Seq<Seq<char>>)
    requires
        forall|i: int|
            0 <= i < v.len() ==> (#[trigger] v[i]).len() > 0 && unbroken(
                v[i],
                text::Separator::Space,
            ),
    ensures
        text::words(text::joined_with(v, " "@), text::Separator::Space) == v,
    decreases v.len(),
{
    reveal_strlit(" ");
    let sep = text::Separator::Space;
    let none = Seq::<char>::empty();
    if v.len() == 0 {
        text::law::lemma_words(none, ' ', none, sep);
        assert(v =~= Seq::<Seq<char>>::empty());
    } else {
        let d = v.drop_last();
        let t = v.last();
        assert(t == v[v.len() - 1]);
        assert forall|i: int| 0 <= i < d.len() implies (#[trigger] d[i]).len() > 0 && unbroken(
            d[i],
            sep,
        ) by {
            assert(d[i] == v[i]);
        }
        text::law::lemma_words(t, ' ', none, sep);
        if v.len() == 1 {
            assert(v =~= seq![t]);
        } else {
            lemma_words_of(d);
            let s = text::joined_with(d, " "@);
            text::law::lemma_words(s, ' ', t, sep);
            assert(s + " "@ + t =~= s.push(' ') + t);
            assert(d + seq![t] =~= v);
        }
    }
}

/// The helpers are those of all lines.
pub proof fn lemma_helpers(lines: Seq<Seq<char>>, h: HelperView)
    ensures
        helpers_in(lines).contains(h) <==> exists|i: int|
            0 <= i < lines.len() && helper_on(#[trigger] lines[i]) == Some(h),
    decreases lines.len(),
{
    if lines.len() > 0 {
        let d = lines.drop_last();
        let before = helpers_in(d);
        let n = helpers_in(lines);
        let last = lines.len() - 1;
        lemma_helpers(d, h);
        if before.contains(h) {
            let k = choose|k: int| 0 <= k < before.len() && before[k] == h;
            assert(n[k] == h);
            let i = choose|i: int| 0 <= i < d.len() && helper_on(#[trigger] d[i]) == Some(h);
            assert(helper_on(lines[i]) == Some(h));
        }
        if n.contains(h) && !before.contains(h) {
            let k = choose|k: int| 0 <= k < n.len() && n[k] == h;
            if k < before.len() {
                assert(before[k] == h);
            }
            assert(helper_on(lines[last]) == Some(h));
        }
        if exists|i: int| 0 <= i < lines.len() && helper_on(#[trigger] lines[i]) == Some(h) {
            let i = choose|i: int|
                0 <= i < lines.len() && helper_on(#[trigger] lines[i]) == Some(h);
            if i < last {
                assert(helper_on(d[i]) == Some(h));
            } else {
                assert(n[before.len() as int] == h);
            }
        }
    }
}

/// All helpers that are children of ours are waited for and killed at last, and so
/// are those whose parent died, if they are servers; no other is.
pub proof fn lemma_killed(v: Seq<HelperView>, us: u32, pid: u32)
    ensures
        our_pids(v, us).contains(pid) <==> exists|i: int|
            0 <= i < v.len() && (#[trigger] v[i]).pid == pid && (v[i].ppid == us || v[i].ppid == 1
                && text::contains(v[i].cmd, "guiserver"@)),
    decreases v.len(),
{
    if v.len() > 0 {
        let d = v.drop_last();
        let before = our_pids(d, us);
        let n = our_pids(v, us);
        let last = v.len() - 1;
        lemma_killed(d, us, pid);
        if before.contains(pid) {
            let k = choose|k: int| 0 <= k < before.len() && before[k] == pid;
            assert(n[k] == pid);
            let i = choose|i: int|
                0 <= i < d.len() && (#[trigger] d[i]).pid == pid && (d[i].ppid == us || d[i].ppid
                    == 1 && text::contains(d[i].cmd, "guiserver"@));
            assert(v[i].pid == pid);
        }
        if n.contains(pid) && !before.contains(pid) {
            let k = choose|k: int| 0 <= k < n.len() && n[k] == pid;
            if k < before.len() {
                assert(before[k] == pid);
            }
            assert(v[last].pid == pid);
        }
        if exists|i: int|
            0 <= i < v.len() && (#[trigger] v[i]).pid == pid && (v[i].ppid == us || v[i].ppid == 1
                && text::contains(v[i].cmd, "guiserver"@)) {
            let i = choose|i: int|
                0 <= i < v.len() && (#[trigger] v[i]).pid == pid && (v[i].ppid == us || v[i].ppid
                    == 1 && text::contains(v[i].cmd, "guiserver"@));
            if i < last {
                assert(d[i].pid == pid);
            } else {
                assert(n[before.len() as int] == pid);
            }
        }
    }
}

// ───────────────────────── open files ─────────────────────────

/// A file in a listing of open files is held by the process that was named last,
/// under its name: a field `p` names a process, a field `c` its name and a field
/// `n` a file. The lister's own files do not count.
pub proof fn lemma_open_file(
    before: Seq<Seq<char>>,
    pid: u32,
    name: Seq<char>,
    file: Seq<char>,
    other: Seq<char>,
)
    requires
        pid > 0,
        file.len() > 0,
        other.len() > 0,
    ensures
        ({
            let p = seq!['p'] + number::decimal(pid as nat);
            let c = seq!['c'] + name;
            let f = seq!['n'] + file;
            let g = seq!['n'] + other;
            let old_found = lsof_read(before).flushed().found;
            let one = HolderView { pid, name, path: file };
            let two = HolderView { pid, name, path: other };
            &&& lsof_read(before.push(p).push(c).push(f)).flushed().found == if name == "lsof"@ {
                old_found
            } else {
                old_found.push(one)
            }
            &&& lsof_read(before.push(p).push(c).push(f).push(g)).flushed().found == if name
                == "lsof"@ {
                old_found
            } else {
                old_found.push(one).push(two)
            }
        }),
{
    number::lemma_decimal_reads(pid as nat);
    let p = seq!['p'] + number::decimal(pid as nat);
    let c = seq!['c'] + name;
    let f = seq!['n'] + file;
    let g = seq!['n'] + other;
    assert(p.skip(1) =~= number::decimal(pid as nat));
    assert(c.skip(1) =~= name);
    assert(f.skip(1) =~= file);
    assert(g.skip(1) =~= other);
    let s0 = lsof_read(before);
    assert(before.push(p).drop_last() =~= before);
    assert(before.push(p).push(c).drop_last() =~= before.push(p));
    assert(before.push(p).push(c).push(f).drop_last() =~= before.push(p).push(c));
    assert(before.push(p).push(c).push(f).push(g).drop_last() =~= before.push(p).push(c).push(f));
    let s1 = lsof_read(before.push(p));
    assert(s1 == s0.with_field(p));
    assert(s1.pid == pid && s1.path.len() == 0 && s1.found == s0.flushed().found);
    let s2 = lsof_read(before.push(p).push(c));
    assert(s2 == s1.with_field(c));
    assert(s2.flushed() == s2);
    let s3 = lsof_read(before.push(p).push(c).push(f));
    assert(s3 == s2.with_field(f));
    assert(s3.pid == pid && s3.name == name && s3.path == file && s3.found == s2.found);
    let s4 = lsof_read(before.push(p).push(c).push(f).push(g));
    assert(s4 == s3.with_field(g));
}

/// The lists of holders are put together without a holder twice: a process with
/// the same file counts once, and none is lost.
pub proof fn lemma_with_holders(base: Seq<HolderView>, more: Seq<HolderView>, h: HolderView)
    ensures
        base.is_prefix_of(with_holders(base, more)),
        with_holders(base, more).contains(h) ==> base.contains(h) || more.contains(h),
        more.contains(h) ==> exists|i: int|
            0 <= i < with_holders(base, more).len() && (#[trigger] with_holders(base, more)[i]).pid
                == h.pid && with_holders(base, more)[i].path == h.path,
    decreases more.len(),
{
    let n = with_holders(base, more);
    if more.len() > 0 {
        let d = more.drop_last();
        let before = with_holders(base, d);
        lemma_with_holders(base, d, h);
        assert(n.take(base.len() as int) =~= before.take(base.len() as int));
        if d.contains(h) {
            let i = choose|i: int| 0 <= i < d.len() && d[i] == h;
            assert(more[i] == h);
            let k = choose|k: int|
                0 <= k < before.len() && (#[trigger] before[k]).pid == h.pid && before[k].path
                    == h.path;
            assert(n[k] == before[k]);
        }
        if n.contains(h) && !before.contains(h) {
            let k = choose|k: int| 0 <= k < n.len() && n[k] == h;
            if k < before.len() {
                assert(before[k] == h);
            }
            assert(more[more.len() - 1] == h);
        }
        if more.contains(h) && !d.contains(h) {
            let i = choose|i: int| 0 <= i < more.len() && more[i] == h;
            if i < d.len() {
                assert(d[i] == h);
            }
            if holds(before, h) {
                let k = choose|k: int|
                    0 <= k < before.len() && (#[trigger] before[k]).pid == h.pid && before[k].path
                        == h.path;
                assert(n[k] == before[k]);
            } else {
                assert(n[before.len() as int] == h);
            }
        }
    } else {
        assert(base.take(base.len() as int) =~= base);
    }
}

// ───────────────────────── paths ─────────────────────────

/// A device has a raw and a buffered node, and each is the other one's other.
pub proof fn lemma_other_node(x: Seq<char>)
    ensures
        other_node("/dev/r"@ + x) == Some("/dev/"@ + x),
        x.len() > 0 && x[0] != 'r' ==> other_node("/dev/"@ + x) == Some("/dev/r"@ + x),
        !"/dev/"@.is_prefix_of(x) ==> other_node(x) is None,
{
    reveal_strlit("/dev/r");
    reveal_strlit("/dev/");
    let a = "/dev/r"@ + x;
    let b = "/dev/"@ + x;
    assert(a.take(6) =~= "/dev/r"@);
    assert(a.skip(6) =~= x);
    assert(b.take(5) =~= "/dev/"@);
    assert(b.skip(5) =~= x);
    assert("/dev/r"@.is_prefix_of(a));
    assert("/dev/"@.is_prefix_of(b));
    if x.len() > 0 && x[0] != 'r' && "/dev/r"@.is_prefix_of(b) {
        assert(b.take(6)[5] == x[0]);
    }
    if "/dev/r"@.is_prefix_of(x) {
        assert(x.take(5) =~= "/dev/"@) by {
            assert(x.take(6) == "/dev/r"@);
            assert forall|i: int| 0 <= i < 5 implies x.take(5)[i] == "/dev/"@[i] by {
                assert(x.take(6)[i] == x[i]);
            }
        }
        assert("/dev/"@.is_prefix_of(x));
    }
}

/// A disc is watched by its source, its device and the device's other node, and by
/// the place where its view is mounted.
pub proof fn lemma_watched(
    source: Seq<char>,
    x: Seq<char>,
    mountpoint: Seq<char>,
    table: Seq<MountEntry>,
)
    ensures
        ({
            let raw = "/dev/r"@ + x;
            let w = watched_paths(Some(source), Some(mountpoint), Some(raw), table);
            let r = release_paths(source, Some(raw), Some(mountpoint));
            &&& w == seq![source, raw, "/dev/"@ + x, mountpoint]
            &&& r == w || r == seq![source, raw, "/dev/"@ + x] && path::has_path(r, mountpoint)
            &&& watched_paths(Some(source), None, None, table) == seq![source]
        }),
{
    lemma_other_node(x);
    let raw = "/dev/r"@ + x;
    assert(seq![source, raw, "/dev/"@ + x].push(mountpoint) =~= seq![
        source,
        raw,
        "/dev/"@ + x,
        mountpoint,
    ]);
}

/// The entry is an optical volume of the system: under `/Volumes`, with one of the
/// file systems of discs, on a disk.
pub open spec fn optical_volume(m: MountEntry) -> bool {
    &&& path::comps("/Volumes"@).is_prefix_of(path::comps(m.mount_point@))
    &&& m.fs_type@ == "udf"@ || m.fs_type@ == "cd9660"@
    &&& "/dev/disk"@.is_prefix_of(m.from@)
}

/// The optical volumes of the mount table are all of its entries that are such;
/// where no disc is named, their places, devices and raw devices are watched.
pub proof fn lemma_volumes(table: Seq<MountEntry>, i: int, p: Seq<char>)
    requires
        0 <= i < table.len(),
    ensures
        optical_volume(table[i]) ==> table_volumes(table).contains(table[i].mount_point@)
            && table_paths(table).contains(table[i].mount_point@) && table_paths(table).contains(
            table[i].from@,
        ) && table_paths(table).contains("/dev/r"@ + table[i].from@.skip(5)),
        table_volumes(table).contains(p) ==> exists|k: int|
            0 <= k < table.len() && optical_volume(#[trigger] table[k]) && table[k].mount_point@ == p,
    decreases table.len(),
{
    let d = table.drop_last();
    let last = table.len() - 1;
    let before = table_volumes(d);
    let n = table_volumes(table);
    let pb = table_paths(d);
    let pn = table_paths(table);
    let e = entry_paths(table.last());
    if i < last {
        lemma_volumes(d, i, p);
        assert(d[i] == table[i]);
        if optical_volume(table[i]) {
            let k = choose|k: int| 0 <= k < before.len() && before[k] == table[i].mount_point@;
            assert(n[k] == table[i].mount_point@);
            lemma_contains_left(pb, e, table[i].mount_point@);
            lemma_contains_left(pb, e, table[i].from@);
            lemma_contains_left(pb, e, "/dev/r"@ + table[i].from@.skip(5));
        }
    } else {
        if last > 0 {
            lemma_volumes(d, 0, p);
        }
        if optical_volume(table[i]) {
            assert(n[before.len() as int] == table[i].mount_point@);
            assert(pn[pb.len() as int] == e[0]);
            assert(pn[(pb.len() + 1) as int] == e[1]);
            assert(pn[(pb.len() + 2) as int] == e[2]);
        }
    }
    if n.contains(p) {
        let k = choose|k: int| 0 <= k < n.len() && n[k] == p;
        if k < before.len() {
            assert(before[k] == p);
            let j = choose|j: int|
                0 <= j < d.len() && optical_volume(#[trigger] d[j]) && d[j].mount_point@ == p;
            assert(optical_volume(table[j]));
        } else {
            assert(optical_volume(table[last]));
        }
    }
}

proof fn lemma_contains_left(a: Seq<Seq<char>>, b: Seq<Seq<char>>, x: Seq<char>)
    requires
        a.contains(x),
    ensures
        (a + b).contains(x),
{
    let i = choose|i: int| 0 <= i < a.len() && a[i] == x;
    assert((a + b)[i] == x);
}

/// The status is kept where the environment says, or in the home directory, or
/// where there is none in `/tmp`.
pub proof fn lemma_status_path(p: &str, home: Option<&str>)
    ensures
        status_at(Some(p), home) == p@,
        home matches Some(h) ==> status_at(None, home) == path::joined(
            h@,
            "Library/Application Support/bdmount/status.json"@,
        ),
        status_at(None, None) == path::joined(
            "/tmp"@,
            "Library/Application Support/bdmount/status.json"@,
        ),
{
}

// ───────────────────────── snapshots ─────────────────────────

/// What a snapshot says: a disc is safe to eject just when it is neither being
/// opened nor served nor stuck, and nothing is in the way: of the disc, or where
/// none is named, no helper and nothing that has an optical device or volume open.
/// A disc that is being released becomes safe or stuck. All holders that were seen
/// are listed.
pub proof fn lemma_snapshot(
    source: Option<Seq<char>>,
    mountpoint: Option<Seq<char>>,
    state: State,
    seen: Seen,
)
    ensures
        ({
            let s = snapshot_of(source, mountpoint, state, seen);
            let volumes = text::strs(seen.volumes@);
            let clear = forall|i: int|
                0 <= i < s.holders.len() ==> !(match source {
                    Some(src) => in_the_way(#[trigger] s.holders[i], src),
                    None => s.holders[i].name == "makemkvcon"@ || "/dev/disk"@.is_prefix_of(
                        s.holders[i].path,
                    ) || "/dev/rdisk"@.is_prefix_of(s.holders[i].path) || exists|k: int|
                        0 <= k < volumes.len() && (#[trigger] volumes[k]).is_prefix_of(
                            s.holders[i].path,
                        ),
                });
            &&& s.safe_to_eject <==> clear && (state == State::Idle || state == State::Releasing
                || state == State::SafeToEject)
            &&& s.state == if state == State::Releasing {
                if clear {
                    State::SafeToEject
                } else {
                    State::Stuck
                }
            } else {
                state
            }
            &&& s.source == source && s.mountpoint == mountpoint
            &&& source matches Some(src) ==> s.label == path::file_name(src)
            &&& source is None ==> s.label is None
            &&& holder_views(seen.helpers@).is_prefix_of(s.holders)
            &&& s.claimed_bsd == text::strs(seen.claimed@)
            &&& s.mount_pid is None
            &&& s.drives.len() == seen.drives@.len()
        }),
{
    let s = snapshot_of(source, mountpoint, state, seen);
    let volumes = text::strs(seen.volumes@);
    let helpers = holder_views(seen.helpers@);
    lemma_with_holders(
        helpers,
        holder_views(seen.open@),
        HolderView { pid: 0, name: Seq::empty(), path: Seq::empty() },
    );
    match source {
        Some(src) => {
            lemma_safe(s.holders, src);
        },
        None => {
            if drive_clear(s.holders, source, volumes) {
                assert forall|i: int| 0 <= i < s.holders.len() implies !holds_any(
                    #[trigger] s.holders[i],
                    volumes,
                ) by {}
            }
        },
    }
}

// ───────────────────────── reports ─────────────────────────

/// The holders of a listing are those of its fields, which a zero or a line feed
/// ends.
pub proof fn lemma_listing(raw: Seq<char>)
    ensures
        super::lsof_holders(raw) == lsof_read(
            text::pieces(raw, text::Separator::Field),
        ).flushed().found,
{
}

/// A line about a holder tells its process, its name and its file.
pub proof fn lemma_holder_line(h: HolderView)
    ensures
        super::holder_text(h) == "  pid "@ + text::at_right(number::decimal(h.pid as nat), 6)
            + "  "@ + text::at_left(h.name, 16) + "  "@ + h.path,
        h.path.is_suffix_of(super::holder_text(h)),
{
    let t = super::holder_text(h);
    assert(t.skip(t.len() - h.path.len()) =~= h.path);
}

/// The user is told that a disc is safe just when it is, and else by whom it is
/// held.
pub proof fn lemma_verdict(holders: Seq<HolderView>, source: Seq<char>, i: int)
    ensures
        ({
            let v = super::verdict(holders, source);
            let safe =
                "SAFE TO EJECT. Run `bdmount eject` (Disk Utility is a backup). Do not unplug the drive."@;
            let held = "NOT safe to eject yet. Still holding the drive:"@;
            &&& v.len() >= 2
            &&& safe_to_eject(holders, source) ==> v.len() == 2 && v[1] == safe
            &&& !safe_to_eject(holders, source) ==> v.len() == holders.len() + 3 && v[1] == held
                && (0 <= i < holders.len() ==> v[i + 2] == super::holder_text(holders[i]))
        }),
{
}

/// A field of any other kind, or an empty one, tells nothing.
pub proof fn lemma_other_field(before: Seq<Seq<char>>, field: Seq<char>)
    requires
        field.len() > 0 ==> field[0] != 'p' && field[0] != 'c' && field[0] != 'n',
    ensures
        lsof_read(before.push(field)) == lsof_read(before),
        lsof_read(Seq::<Seq<char>>::empty()).flushed().found.len() == 0,
{
    assert(before.push(field).drop_last() =~= before);
}

} // verus!
