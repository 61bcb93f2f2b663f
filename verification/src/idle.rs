//! Who is holding a disc, and whether it is idle enough to eject.
//!
//! A disc is safe to eject only when no `makemkvcon` is running and nothing has
//! the volume or the raw optical device open. Other programs that hold the
//! decrypted folder are reported too, so that a user can see why.

pub mod law;

use vstd::prelude::*;

use crate::mount::MountEntry;
use crate::number;
use crate::path;
use crate::text;

verus! {

broadcast use vstd::string::group_string_axioms;

/// How long to wait after a release for helpers and open files to go, in
/// milliseconds.
pub const IDLE_WAIT_MS: u64 = 20_000;

/// A process that holds a disc.
#[derive(Debug, PartialEq, Eq)]
pub struct Holder {
    pub pid: u32,
    pub name: String,
    pub path: String,
}

#[verifier::ext_equal]
pub struct HolderView {
    pub pid: u32,
    pub name: Seq<char>,
    pub path: Seq<char>,
}

impl View for Holder {
    type V = HolderView;

    open spec fn view(&self) -> HolderView {
        HolderView { pid: self.pid, name: self.name@, path: self.path@ }
    }
}

pub open spec fn holder_views(v: Seq<Holder>) -> Seq<HolderView> {
    v.map_values(|h: Holder| h@)
}

pub broadcast proof fn lemma_holder_views_push(v: Seq<Holder>, h: Holder)
    ensures
        #[trigger] holder_views(v.push(h)) == holder_views(v).push(h@),
{
    assert(holder_views(v.push(h)) =~= holder_views(v).push(h@));
}

fn copy_holder(h: &Holder) -> (r: Holder)
    ensures
        r@ == h@,
{
    Holder {
        pid: h.pid,
        name: text::owned(h.name.as_str()),
        path: text::owned(h.path.as_str()),
    }
}

#[derive(Clone, Copy, Debug, PartialEq, Eq, Structural)]
pub enum State {
    Idle,
    Opening,
    Serving,
    Releasing,
    SafeToEject,
    Stuck,
}

// ───────────────────────── paths ─────────────────────────

/// Where the state of the program is kept: where the environment says, or in the
/// home directory.
pub open spec fn status_at(from_env: Option<&str>, home: Option<&str>) -> Seq<char> {
    match from_env {
        Some(p) => p@,
        None => path::joined(
            match home {
                Some(h) => h@,
                None => "/tmp"@,
            },
            "Library/Application Support/bdmount/status.json"@,
        ),
    }
}

pub fn status_path(from_env: Option<&str>, home: Option<&str>) -> (r: String)
    ensures
        r@ == status_at(from_env, home),
{
    match from_env {
        Some(p) => text::owned(p),
        None => {
            let base = match home {
                Some(h) => h,
                None => "/tmp",
            };
            path::join(base, "Library/Application Support/bdmount/status.json")
        },
    }
}

/// Where a request to eject is left for a running program, beside its status.
pub fn eject_request_path(status: &str) -> (r: String)
    ensures
        r@ == path::renamed(status@, "eject-request.json"@),
{
    path::with_file_name(status, "eject-request.json")
}

/// Where a new status is written before it takes the place of the old one.
pub fn status_temp_path(status: &str) -> (r: String)
    ensures
        r@ == path::extended(status@, "json.tmp"@),
{
    path::with_extension(status, "json.tmp")
}

/// The device without the `r` of a raw node, or with it.
pub open spec fn other_node(raw: Seq<char>) -> Option<Seq<char>> {
    if "/dev/r"@.is_prefix_of(raw) {
        Some("/dev/"@ + raw.skip(6))
    } else if "/dev/"@.is_prefix_of(raw) {
        Some("/dev/r"@ + raw.skip(5))
    } else {
        None
    }
}

/// The paths that, if open, mean that the drive is still busy: the source, the
/// device and its other node.
pub open spec fn busy_paths(source: Seq<char>, raw: Option<Seq<char>>) -> Seq<Seq<char>> {
    match raw {
        None => seq![source],
        Some(r) => match other_node(r) {
            None => seq![source, r],
            Some(o) => seq![source, r, o],
        },
    }
}

pub open spec fn opt_view(s: Option<&str>) -> Option<Seq<char>> {
    match s {
        Some(x) => Some(x@),
        None => None,
    }
}

pub open spec fn opt_string(s: Option<String>) -> Option<Seq<char>> {
    match s {
        Some(x) => Some(x@),
        None => None,
    }
}

pub fn optical_paths(source: &str, raw_device: Option<&str>) -> (r: Vec<String>)
    ensures
        text::strs(r@) == busy_paths(source@, opt_view(raw_device)),
{
    let mut v: Vec<String> = Vec::new();
    v.push(text::owned(source));
    if let Some(raw) = raw_device {
        proof {
            reveal_strlit("/dev/r");
            reveal_strlit("/dev/");
        }
        v.push(text::owned(raw));
        let c = text::chars_of(raw);
        let with_r = text::chars_of("/dev/r");
        let dev = text::chars_of("/dev/");
        if let Some(block) = text::strip_prefix(c.as_slice(), with_r.as_slice()) {
            v.push(text::concat("/dev/", text::string_of(block).as_str()));
        } else if let Some(block) = text::strip_prefix(c.as_slice(), dev.as_slice()) {
            v.push(text::concat("/dev/r", text::string_of(block).as_str()));
        }
    }
    assert(text::strs(v@) =~= busy_paths(source@, opt_view(raw_device)));
    v
}

/// How to tell whether a path is there without waiting for a wedged volume.
#[derive(Clone, Copy, Debug, PartialEq, Eq, Structural)]
pub enum Presence {
    /// A device node may be looked at.
    LookAtNode,
    /// A volume is looked for in the mount table.
    MountTable,
    Assume,
}

pub fn presence_check(p: &str) -> (r: Presence)
    ensures
        r == if path::comps("/dev/"@).is_prefix_of(path::comps(p@)) {
            Presence::LookAtNode
        } else if path::comps("/Volumes"@).is_prefix_of(path::comps(p@)) {
            Presence::MountTable
        } else {
            Presence::Assume
        },
{
    if path::path_starts_with(p, "/dev/") {
        Presence::LookAtNode
    } else if path::path_starts_with(p, "/Volumes") {
        Presence::MountTable
    } else {
        Presence::Assume
    }
}

// ───────────────────────── helpers ─────────────────────────

/// A `makemkvcon` process.
pub struct HelperProc {
    pub pid: u32,
    pub ppid: u32,
    pub cmd: String,
}

#[verifier::ext_equal]
pub struct HelperView {
    pub pid: u32,
    pub ppid: u32,
    pub cmd: Seq<char>,
}

impl View for HelperProc {
    type V = HelperView;

    open spec fn view(&self) -> HelperView {
        HelperView { pid: self.pid, ppid: self.ppid, cmd: self.cmd@ }
    }
}

pub open spec fn helper_views(v: Seq<HelperProc>) -> Seq<HelperView> {
    v.map_values(|h: HelperProc| h@)
}

pub broadcast proof fn lemma_helper_views_push(v: Seq<HelperProc>, h: HelperProc)
    ensures
        #[trigger] helper_views(v.push(h)) == helper_views(v).push(h@),
{
    assert(helper_views(v.push(h)) =~= helper_views(v).push(h@));
}

impl HelperView {
    /// A child of the process `us`, or left over from one that died. Never a
    /// helper that MakeMKV itself still owns.
    pub open spec fn ours(self, us: u32) -> bool {
        self.ppid == us || self.ppid == 1 && text::contains(self.cmd, "guiserver"@)
    }

    pub open spec fn holder(self) -> HolderView {
        HolderView { pid: self.pid, name: "makemkvcon"@, path: self.cmd }
    }
}

impl HelperProc {
    /// Whether the helper belongs to the process `us`.
    pub fn is_ours(&self, us: u32) -> (r: bool)
        ensures
            r == self@.ours(us),
    {
        self.ppid == us || (self.ppid == 1 && text::str_has(self.cmd.as_str(), "guiserver"))
    }

    pub fn as_holder(&self) -> (r: Holder)
        ensures
            r@ == self@.holder(),
    {
        Holder {
            pid: self.pid,
            name: text::owned("makemkvcon"),
            path: text::owned(self.cmd.as_str()),
        }
    }
}

/// The helper on a line of a process listing: process, parent and command.
pub open spec fn helper_on(line: Seq<char>) -> Option<HelperView> {
    let w = text::words(line, text::Separator::Space);
    if w.len() < 3 || !text::contains(w[2], "makemkvcon"@) {
        None
    } else {
        match (number::u32_of(w[0]), number::u32_of(w[1])) {
            (Some(pid), Some(ppid)) => Some(
                HelperView { pid, ppid, cmd: text::joined_with(w.skip(2), " "@) },
            ),
            _ => None,
        }
    }
}

pub open spec fn helpers_in(lines: Seq<Seq<char>>) -> Seq<HelperView>
    decreases lines.len(),
{
    if lines.len() == 0 {
        Seq::empty()
    } else {
        let before = helpers_in(lines.drop_last());
        match helper_on(lines.last()) {
            Some(h) => before.push(h),
            None => before,
        }
    }
}

fn parse_helper(line: &[char]) -> (r: Option<HelperProc>)
    ensures
        match r {
            Some(h) => helper_on(line@) == Some(h@),
            None => helper_on(line@) is None,
        },
{
    let w = text::split_words(line, text::Separator::Space);
    let ghost t = text::texts(w@);
    assert(forall|i: int| 0 <= i < w@.len() ==> #[trigger] t[i] == w@[i]@);
    if w.len() < 3 || !text::has(w[2].as_slice(), text::chars_of("makemkvcon").as_slice()) {
        return None;
    }
    match (number::parse_u32(w[0].as_slice()), number::parse_u32(w[1].as_slice())) {
        (Some(pid), Some(ppid)) => Some(
            HelperProc { pid, ppid, cmd: text::join_texts(w.as_slice(), 2, " ") },
        ),
        _ => None,
    }
}

/// The `makemkvcon` processes in the output of `ps -axo pid=,ppid=,command=`.
pub fn list_makemkvcon(ps: &str) -> (r: Vec<HelperProc>)
    ensures
        helper_views(r@) == helpers_in(text::line_seq(ps@)),
{
    broadcast use lemma_helper_views_push;

    let c = text::chars_of(ps);
    let lines = text::lines(c.as_slice());
    let ghost all = text::texts(lines@);
    let mut out: Vec<HelperProc> = Vec::new();
    assert(helper_views(out@) =~= Seq::<HelperView>::empty());
    assert(all.take(0) =~= Seq::<Seq<char>>::empty());
    let mut i: usize = 0;
    while i < lines.len()
        invariant
            i <= lines@.len(),
            all == text::texts(lines@),
            helper_views(out@) == helpers_in(all.take(i as int)),
        decreases lines@.len() - i,
    {
        assert(all.take(i + 1).drop_last() =~= all.take(i as int));
        assert(all.take(i + 1).last() == lines@[i as int]@);
        if let Some(h) = parse_helper(lines[i].as_slice()) {
            let ghost before = helper_views(out@);
            out.push(h);
            assert(helper_views(out@) == before.push(h@));
        }
        i += 1;
    }
    assert(all.take(i as int) =~= all);
    out
}

pub open spec fn as_holders(v: Seq<HelperView>) -> Seq<HolderView> {
    v.map_values(|h: HelperView| h.holder())
}

/// `makemkvcon` processes (ours, leftovers, and MakeMKV's own) as holders.
pub fn makemkvcon_helpers(ps: &str) -> (r: Vec<Holder>)
    ensures
        holder_views(r@) == as_holders(helpers_in(text::line_seq(ps@))),
{
    let helpers = list_makemkvcon(ps);
    let ghost all = as_holders(helper_views(helpers@));
    let mut out: Vec<Holder> = Vec::new();
    let mut i: usize = 0;
    while i < helpers.len()
        invariant
            i <= helpers@.len(),
            all == as_holders(helper_views(helpers@)),
            out@.len() == i,
            forall|j: int| 0 <= j < i ==> (#[trigger] out@[j])@ == all[j],
        decreases helpers@.len() - i,
    {
        out.push(helpers[i].as_holder());
        i += 1;
    }
    assert(holder_views(out@) =~= all);
    out
}

/// The processes of `us` among the helpers.
pub open spec fn our_pids(v: Seq<HelperView>, us: u32) -> Seq<u32>
    decreases v.len(),
{
    if v.len() == 0 {
        Seq::empty()
    } else {
        let before = our_pids(v.drop_last(), us);
        if v.last().ours(us) {
            before.push(v.last().pid)
        } else {
            before
        }
    }
}

/// What to do about helpers that have not exited.
pub enum HelperStep {
    /// There are none.
    Gone,
    /// Time is up: these have to be killed.
    Kill(Vec<u32>),
    /// Look again after a pause.
    Again,
}

/// After a disc was closed: waits for our own helpers to exit, and only then
/// names the leftovers. A helper that MakeMKV itself owns is never named.
pub fn release_our_helpers(ps: &str, us: u32, expired: bool) -> (r: HelperStep)
    ensures
        ({
            let pids = our_pids(helpers_in(text::line_seq(ps@)), us);
            match r {
                HelperStep::Gone => pids.len() == 0,
                HelperStep::Kill(v) => pids.len() > 0 && expired && v@ == pids,
                HelperStep::Again => pids.len() > 0 && !expired,
            }
        }),
{
    let helpers = list_makemkvcon(ps);
    let ghost all = helper_views(helpers@);
    let mut pids: Vec<u32> = Vec::new();
    let mut i: usize = 0;
    assert(all.take(0) =~= Seq::<HelperView>::empty());
    while i < helpers.len()
        invariant
            i <= helpers@.len(),
            all == helper_views(helpers@),
            pids@ == our_pids(all.take(i as int), us),
        decreases helpers@.len() - i,
    {
        assert(all.take(i + 1).drop_last() =~= all.take(i as int));
        assert(all.take(i + 1).last() == helpers@[i as int]@);
        if helpers[i].is_ours(us) {
            pids.push(helpers[i].pid);
        }
        i += 1;
    }
    assert(all.take(i as int) =~= all);
    if pids.len() == 0 {
        HelperStep::Gone
    } else if expired {
        HelperStep::Kill(pids)
    } else {
        HelperStep::Again
    }
}

// ───────────────────────── open files ─────────────────────────

/// What was read of a listing of open files.
#[verifier::ext_equal]
pub struct LsofState {
    pub found: Seq<HolderView>,
    pub pid: u32,
    pub name: Seq<char>,
    pub path: Seq<char>,
}

impl LsofState {
    /// The file at hand is reported, if there is one. The lister itself is not.
    pub open spec fn flushed(self) -> LsofState {
        if self.pid == 0 || self.path.len() == 0 || self.name == "lsof"@ {
            self
        } else {
            LsofState {
                found: self.found.push(
                    HolderView { pid: self.pid, name: self.name, path: self.path },
                ),
                ..self
            }
        }
    }

    /// A field says by its first character what it holds: a process, its name
    /// or a file that it has open.
    pub open spec fn with_field(self, field: Seq<char>) -> LsofState {
        if field.len() == 0 {
            self
        } else if field[0] == 'p' {
            LsofState {
                pid: match number::u32_of(field.skip(1)) {
                    Some(n) => n,
                    None => 0,
                },
                path: Seq::empty(),
                ..self.flushed()
            }
        } else if field[0] == 'c' {
            LsofState { name: field.skip(1), ..self }
        } else if field[0] == 'n' {
            LsofState { path: field.skip(1), ..self.flushed() }
        } else {
            self
        }
    }
}

pub open spec fn lsof_read(fields: Seq<Seq<char>>) -> LsofState
    decreases fields.len(),
{
    if fields.len() == 0 {
        LsofState { found: Seq::empty(), pid: 0, name: Seq::empty(), path: Seq::empty() }
    } else {
        lsof_read(fields.drop_last()).with_field(fields.last())
    }
}

/// The holders in a listing of open files.
pub open spec fn lsof_holders(raw: Seq<char>) -> Seq<HolderView> {
    lsof_read(text::pieces(raw, text::Separator::Field)).flushed().found
}

fn flush(out: &mut Vec<Holder>, pid: u32, name: &Vec<char>, file: &Vec<char>)
    ensures
        holder_views(final(out)@) == (LsofState {
            found: holder_views(old(out)@),
            pid,
            name: name@,
            path: file@,
        }).flushed().found,
{
    broadcast use lemma_holder_views_push;

    if pid == 0 || file.len() == 0 || text::same(
        name.as_slice(),
        text::chars_of("lsof").as_slice(),
    ) {
        return;
    }
    let h = Holder {
        pid,
        name: text::string_of(name.as_slice()),
        path: text::string_of(file.as_slice()),
    };
    out.push(h);
}

/// Reads the output of `lsof -F pcn0`, whose fields end in NUL. Fields that end
/// in a newline are accepted too.
pub fn parse_lsof_f(raw: &str) -> (r: Vec<Holder>)
    ensures
        holder_views(r@) == lsof_holders(raw@),
{
    let c = text::chars_of(raw);
    let fields = text::split(c.as_slice(), text::Separator::Field);
    let ghost all = text::texts(fields@);
    let mut out: Vec<Holder> = Vec::new();
    let mut pid: u32 = 0;
    let mut name: Vec<char> = Vec::new();
    let mut file: Vec<char> = Vec::new();
    let mut i: usize = 0;
    proof {
        assert(all.take(0) =~= Seq::<Seq<char>>::empty());
        let s = LsofState { found: holder_views(out@), pid, name: name@, path: file@ };
        assert(s =~= lsof_read(all.take(0)));
    }
    while i < fields.len()
        invariant
            i <= fields@.len(),
            all == text::texts(fields@),
            (LsofState { found: holder_views(out@), pid, name: name@, path: file@ }) == lsof_read(
                all.take(i as int),
            ),
        decreases fields@.len() - i,
    {
        let ghost s0 = lsof_read(all.take(i as int));
        assert(all.take(i + 1).drop_last() =~= all.take(i as int));
        assert(all.take(i + 1).last() == fields@[i as int]@);
        let f = &fields[i];
        if f.len() > 0 {
            let rest = &f.as_slice()[1..f.len()];
            assert(rest@ =~= f@.skip(1));
            if f[0] == 'p' {
                flush(&mut out, pid, &name, &file);
                file = Vec::new();
                assert(file@ =~= Seq::<char>::empty());
                pid = match number::parse_u32(rest) {
                    Some(n) => n,
                    None => 0,
                };
            } else if f[0] == 'c' {
                name = vstd::slice::slice_to_vec(rest);
            } else if f[0] == 'n' {
                flush(&mut out, pid, &name, &file);
                file = vstd::slice::slice_to_vec(rest);
            }
        }
        i += 1;
        proof {
            let s = LsofState { found: holder_views(out@), pid, name: name@, path: file@ };
            assert(s =~= s0.with_field(f@));
        }
    }
    assert(all.take(i as int) =~= all);
    flush(&mut out, pid, &name, &file);
    out
}

// ───────────────────────── verdicts ─────────────────────────

pub open spec fn same_word(a: Seq<char>, b: Seq<char>) -> bool {
    text::lower(a) == text::lower(b)
}

/// The holder keeps a disc at `source` from being ejected.
pub open spec fn blocks_eject(h: HolderView, source: Seq<char>) -> bool {
    ||| h.name == "makemkvcon"@
    ||| same_word(h.name, "HandBrake"@)
    ||| same_word(h.name, "HandBrakeCLI"@)
    ||| text::contains(h.path, "makemkvcon"@)
    ||| "/dev/disk"@.is_prefix_of(h.path)
    ||| "/dev/rdisk"@.is_prefix_of(h.path)
    ||| text::contains(h.path, "BluRay Decrypted"@)
    ||| source.is_prefix_of(h.path)
}

pub open spec fn safe_to_eject(holders: Seq<HolderView>, source: Seq<char>) -> bool {
    forall|i: int| 0 <= i < holders.len() ==> !blocks_eject(#[trigger] holders[i], source)
}

fn word_is(a: &str, b: &str) -> (r: bool)
    ensures
        r == same_word(a@, b@),
{
    text::eq_ignore_ascii_case(text::chars_of(a).as_slice(), text::chars_of(b).as_slice())
}

fn holder_blocks_eject(h: &Holder, source: &str) -> (r: bool)
    ensures
        r == blocks_eject(h@, source@),
{
    let p = h.path.as_str();
    let n = h.name.as_str();
    text::str_same(n, "makemkvcon") || word_is(n, "HandBrake") || word_is(n, "HandBrakeCLI")
        || text::str_has(p, "makemkvcon") || text::str_starts_with(p, "/dev/disk")
        || text::str_starts_with(p, "/dev/rdisk") || text::str_has(p, "BluRay Decrypted")
        || text::str_starts_with(p, source)
}

pub fn is_safe_to_eject(holders: &[Holder], source: &str) -> (r: bool)
    ensures
        r == safe_to_eject(holder_views(holders@), source@),
{
    let mut i: usize = 0;
    while i < holders.len()
        invariant
            i <= holders@.len(),
            forall|j: int|
                0 <= j < i ==> !blocks_eject(#[trigger] holder_views(holders@)[j], source@),
        decreases holders@.len() - i,
    {
        assert(holder_views(holders@)[i as int] == holders@[i as int]@);
        if holder_blocks_eject(&holders[i], source) {
            return false;
        }
        i += 1;
    }
    true
}

/// The holder means that a live volume of the system must not be touched: a scan
/// or a player. The Finder and Spotlight are no such holders.
pub open spec fn hard_holder(h: HolderView) -> bool {
    let n = text::lower(h.name);
    ||| n == "makemkvcon"@
    ||| n == "handbrake"@
    ||| n == "handbrakecli"@
    ||| n == "vlc"@
    ||| n == "iina"@
    ||| n == "mpv"@
    ||| n == "infuse"@
    ||| text::contains(h.path, "makemkvcon"@)
    ||| "/dev/disk"@.is_prefix_of(h.path)
    ||| "/dev/rdisk"@.is_prefix_of(h.path)
}

pub fn is_hard_os_udf_holder(h: &Holder) -> (r: bool)
    ensures
        r == hard_holder(h@),
{
    let low = text::string_of(
        text::to_lower(text::chars_of(h.name.as_str()).as_slice()).as_slice(),
    );
    let n = low.as_str();
    let p = h.path.as_str();
    text::str_same(n, "makemkvcon") || text::str_same(n, "handbrake") || text::str_same(
        n,
        "handbrakecli",
    ) || text::str_same(n, "vlc") || text::str_same(n, "iina") || text::str_same(n, "mpv")
        || text::str_same(n, "infuse") || text::str_has(p, "makemkvcon") || text::str_starts_with(
        p,
        "/dev/disk",
    ) || text::str_starts_with(p, "/dev/rdisk")
}

/// A line about a holder: its process, its name and what it holds, in columns.
pub open spec fn holder_text(h: HolderView) -> Seq<char> {
    "  pid "@ + text::at_right(number::decimal(h.pid as nat), 6) + "  "@ + text::at_left(h.name, 16)
        + "  "@ + h.path
}

pub fn holder_line(h: &Holder) -> (r: String)
    ensures
        r@ == holder_text(h@),
{
    let mut out = text::chars_of("  pid ");
    let mut pid = text::pad_right(number::to_decimal(h.pid as u64).as_slice(), 6);
    let mut gap = text::chars_of("  ");
    let mut name = text::pad_left(text::chars_of(h.name.as_str()).as_slice(), 16);
    let mut gap2 = text::chars_of("  ");
    let mut file = text::chars_of(h.path.as_str());
    out.append(&mut pid);
    out.append(&mut gap);
    out.append(&mut name);
    out.append(&mut gap2);
    out.append(&mut file);
    assert(out@ =~= holder_text(h@));
    text::string_of(out.as_slice())
}

/// The lines that tell whether a disc may be ejected.
pub open spec fn verdict(holders: Seq<HolderView>, source: Seq<char>) -> Seq<Seq<char>> {
    if safe_to_eject(holders, source) {
        seq![
            ""@,
            "SAFE TO EJECT. Run `bdmount eject` (Disk Utility is a backup). Do not unplug the drive."@,
        ]
    } else {
        seq![""@, "NOT safe to eject yet. Still holding the drive:"@] + holders.map_values(
            |h: HolderView| holder_text(h),
        ).push(
            "Quit HandBrake and retry `bdmount eject`. Do not unplug the USB enclosure."@,
        )
    }
}

pub fn eject_verdict(holders: &[Holder], source: &str) -> (r: Vec<String>)
    ensures
        text::strs(r@) == verdict(holder_views(holders@), source@),
{
    let mut out: Vec<String> = Vec::new();
    let ghost hv = holder_views(holders@);
    let ghost lines = hv.map_values(|h: HolderView| holder_text(h));
    out.push(text::owned(""));
    if is_safe_to_eject(holders, source) {
        out.push(
            text::owned(
                "SAFE TO EJECT. Run `bdmount eject` (Disk Utility is a backup). Do not unplug the drive.",
            ),
        );
        assert(text::strs(out@) =~= verdict(hv, source@));
        return out;
    }
    out.push(text::owned("NOT safe to eject yet. Still holding the drive:"));
    let ghost head = seq![""@, "NOT safe to eject yet. Still holding the drive:"@];
    assert(text::strs(out@) =~= head + lines.take(0));
    let mut i: usize = 0;
    while i < holders.len()
        invariant
            i <= holders@.len(),
            hv == holder_views(holders@),
            lines == hv.map_values(|h: HolderView| holder_text(h)),
            head == seq![""@, "NOT safe to eject yet. Still holding the drive:"@],
            text::strs(out@) == head + lines.take(i as int),
        decreases holders@.len() - i,
    {
        let ghost before = text::strs(out@);
        let one = holder_line(&holders[i]);
        out.push(one);
        assert(one@ == lines[i as int]);
        assert(text::strs(out@) =~= before.push(one@));
        i += 1;
        assert(text::strs(out@) =~= head + lines.take(i as int));
    }
    let ghost before = text::strs(out@);
    out.push(
        text::owned("Quit HandBrake and retry `bdmount eject`. Do not unplug the USB enclosure."),
    );
    assert(lines.take(i as int) =~= lines);
    assert(text::strs(out@) =~= before.push(
        "Quit HandBrake and retry `bdmount eject`. Do not unplug the USB enclosure."@,
    ));
    assert(text::strs(out@) =~= verdict(hv, source@));
    out
}

// ───────────────────────── snapshots ─────────────────────────

/// What an optical drive is doing.
#[derive(Debug, PartialEq, Eq)]
pub struct DriveStatus {
    pub id: String,
    pub device: String,
    pub bus: String,
    pub media_class: String,
    pub media: bool,
    pub bd_capable: bool,
    pub label: Option<String>,
    pub mountpoint: Option<String>,
    pub state: String,
    pub safe_to_eject: bool,
}

#[verifier::ext_equal]
pub struct DriveStatusView {
    pub id: Seq<char>,
    pub device: Seq<char>,
    pub bus: Seq<char>,
    pub media_class: Seq<char>,
    pub media: bool,
    pub bd_capable: bool,
    pub label: Option<Seq<char>>,
    pub mountpoint: Option<Seq<char>>,
    pub state: Seq<char>,
    pub safe_to_eject: bool,
}

impl View for DriveStatus {
    type V = DriveStatusView;

    open spec fn view(&self) -> DriveStatusView {
        DriveStatusView {
            id: self.id@,
            device: self.device@,
            bus: self.bus@,
            media_class: self.media_class@,
            media: self.media,
            bd_capable: self.bd_capable,
            label: opt_string(self.label),
            mountpoint: opt_string(self.mountpoint),
            state: self.state@,
            safe_to_eject: self.safe_to_eject,
        }
    }
}

pub open spec fn status_views(v: Seq<DriveStatus>) -> Seq<DriveStatusView> {
    v.map_values(|d: DriveStatus| d@)
}

/// A request to eject, left for a running program.
#[derive(Debug, PartialEq, Eq)]
pub struct EjectRequest {
    pub device: Option<String>,
    pub all: bool,
}

impl Default for EjectRequest {
    fn default() -> (r: EjectRequest)
        ensures
            r.device is None && !r.all,
    {
        EjectRequest { device: None, all: false }
    }
}

/// The state of the program, for others to read.
pub struct Snapshot {
    pub state: State,
    pub safe_to_eject: bool,
    pub label: Option<String>,
    pub source: Option<String>,
    pub mountpoint: Option<String>,
    pub holders: Vec<Holder>,
    /// BSD names whose mount was refused.
    pub claimed_bsd: Vec<String>,
    /// The process that serves the discs, if it wrote this.
    pub mount_pid: Option<u32>,
    /// Every optical drive.
    pub drives: Vec<DriveStatus>,
}

#[verifier::ext_equal]
pub struct SnapshotView {
    pub state: State,
    pub safe_to_eject: bool,
    pub label: Option<Seq<char>>,
    pub source: Option<Seq<char>>,
    pub mountpoint: Option<Seq<char>>,
    pub holders: Seq<HolderView>,
    pub claimed_bsd: Seq<Seq<char>>,
    pub mount_pid: Option<u32>,
    pub drives: Seq<DriveStatusView>,
}

impl View for Snapshot {
    type V = SnapshotView;

    open spec fn view(&self) -> SnapshotView {
        SnapshotView {
            state: self.state,
            safe_to_eject: self.safe_to_eject,
            label: opt_string(self.label),
            source: opt_string(self.source),
            mountpoint: opt_string(self.mountpoint),
            holders: holder_views(self.holders@),
            claimed_bsd: text::strs(self.claimed_bsd@),
            mount_pid: self.mount_pid,
            drives: status_views(self.drives@),
        }
    }
}

/// The entry is an optical volume of the system.
pub open spec fn is_optical_entry(m: MountEntry) -> bool {
    &&& path::comps("/Volumes"@).is_prefix_of(path::comps(m.mount_point@))
    &&& m.fs_type@ == "udf"@ || m.fs_type@ == "cd9660"@
    &&& "/dev/disk"@.is_prefix_of(m.from@)
}

fn is_optical(m: &MountEntry) -> (r: bool)
    ensures
        r == is_optical_entry(*m),
{
    let fs = m.fs_type.as_str();
    path::path_starts_with(m.mount_point.as_str(), "/Volumes") && (text::str_same(fs, "udf")
        || text::str_same(fs, "cd9660")) && text::str_starts_with(m.from.as_str(), "/dev/disk")
}

/// The mount points of the optical volumes in `table`.
pub open spec fn table_volumes(table: Seq<MountEntry>) -> Seq<Seq<char>>
    decreases table.len(),
{
    if table.len() == 0 {
        Seq::empty()
    } else {
        let before = table_volumes(table.drop_last());
        if is_optical_entry(table.last()) {
            before.push(table.last().mount_point@)
        } else {
            before
        }
    }
}

/// The mount points of the optical volumes in the mount table.
pub fn optical_volumes(table: &[MountEntry]) -> (r: Vec<String>)
    ensures
        text::strs(r@) == table_volumes(table@),
{
    broadcast use text::lemma_strs_push;

    let mut out: Vec<String> = Vec::new();
    assert(text::strs(out@) =~= Seq::<Seq<char>>::empty());
    assert(table@.take(0) =~= Seq::<MountEntry>::empty());
    let mut i: usize = 0;
    while i < table.len()
        invariant
            i <= table@.len(),
            text::strs(out@) == table_volumes(table@.take(i as int)),
        decreases table@.len() - i,
    {
        assert(table@.take(i + 1).drop_last() =~= table@.take(i as int));
        assert(table@.take(i + 1).last() == table@[i as int]);
        if is_optical(&table[i]) {
            let ghost before = text::strs(out@);
            let p = text::owned(table[i].mount_point.as_str());
            out.push(p);
            assert(text::strs(out@) == before.push(p@));
        }
        i += 1;
    }
    assert(table@.take(i as int) =~= table@);
    out
}

/// The optical volume of the mount table entry, its device and its raw device.
pub open spec fn entry_paths(m: MountEntry) -> Seq<Seq<char>> {
    if is_optical_entry(m) {
        seq![m.mount_point@, m.from@, "/dev/r"@ + m.from@.skip(5)]
    } else {
        Seq::empty()
    }
}

pub open spec fn table_paths(table: Seq<MountEntry>) -> Seq<Seq<char>>
    decreases table.len(),
{
    if table.len() == 0 {
        Seq::empty()
    } else {
        table_paths(table.drop_last()) + entry_paths(table.last())
    }
}

/// The paths whose open files matter: those of the source, or of every optical
/// volume where there is none, and the decrypted folder.
pub open spec fn watched_paths(
    source: Option<Seq<char>>,
    mountpoint: Option<Seq<char>>,
    raw: Option<Seq<char>>,
    table: Seq<MountEntry>,
) -> Seq<Seq<char>> {
    let base = match source {
        Some(s) => busy_paths(s, raw),
        None => table_paths(table),
    };
    match mountpoint {
        Some(m) => base.push(m),
        None => base,
    }
}

/// The paths that [`observe`] needs the open files of.
pub fn observed_paths(
    source: Option<&str>,
    mountpoint: Option<&str>,
    raw_device: Option<&str>,
    table: &[MountEntry],
) -> (r: Vec<String>)
    ensures
        text::strs(r@) == watched_paths(
            opt_view(source),
            opt_view(mountpoint),
            opt_view(raw_device),
            table@,
        ),
{
    broadcast use text::lemma_strs_push;

    let mut paths: Vec<String> = Vec::new();
    match source {
        Some(s) => {
            paths = optical_paths(s, raw_device);
        },
        None => {
            proof {
                reveal_strlit("/dev/");
                reveal_strlit("/dev/disk");
            }
            let mut i: usize = 0;
            assert(text::strs(paths@) =~= Seq::<Seq<char>>::empty());
            assert(table@.take(0) =~= Seq::<MountEntry>::empty());
            while i < table.len()
                invariant
                    i <= table@.len(),
                    text::strs(paths@) == table_paths(table@.take(i as int)),
                decreases table@.len() - i,
            {
                assert(table@.take(i + 1).drop_last() =~= table@.take(i as int));
                assert(table@.take(i + 1).last() == table@[i as int]);
                let m = &table[i];
                let ghost before = text::strs(paths@);
                if is_optical(m) {
                    proof {
                        reveal_strlit("/dev/disk");
                    }
                    let c = text::chars_of(m.from.as_str());
                    let rest = &c.as_slice()[5..c.len()];
                    assert(rest@ =~= m.from@.skip(5));
                    let p = text::owned(m.mount_point.as_str());
                    let from = text::owned(m.from.as_str());
                    let raw = text::concat("/dev/r", text::string_of(rest).as_str());
                    paths.push(p);
                    paths.push(from);
                    paths.push(raw);
                    assert(text::strs(paths@) =~= before + seq![p@, from@, raw@]);
                } else {
                    assert(before + Seq::<Seq<char>>::empty() =~= before);
                }
                i += 1;
            }
            assert(table@.take(i as int) =~= table@);
        },
    }
    if let Some(mp) = mountpoint {
        let ghost before = text::strs(paths@);
        let p = text::owned(mp);
        paths.push(p);
        assert(text::strs(paths@) == before.push(p@));
    }
    paths
}

/// `base` with those of `more` behind it that it does not hold: the same process
/// with the same path.
pub open spec fn with_holders(base: Seq<HolderView>, more: Seq<HolderView>) -> Seq<HolderView>
    decreases more.len(),
{
    if more.len() == 0 {
        base
    } else {
        let before = with_holders(base, more.drop_last());
        if holds(before, more.last()) {
            before
        } else {
            before.push(more.last())
        }
    }
}

pub open spec fn holds(list: Seq<HolderView>, h: HolderView) -> bool {
    exists|i: int|
        0 <= i < list.len() && (#[trigger] list[i]).pid == h.pid && list[i].path == h.path
}

fn list_holds(list: &Vec<Holder>, h: &Holder) -> (r: bool)
    ensures
        r == holds(holder_views(list@), h@),
{
    let mut i: usize = 0;
    while i < list.len()
        invariant
            i <= list@.len(),
            forall|j: int|
                0 <= j < i ==> !((#[trigger] holder_views(list@)[j]).pid == h@.pid && holder_views(
                    list@,
                )[j].path == h@.path),
        decreases list@.len() - i,
    {
        assert(holder_views(list@)[i as int] == list@[i as int]@);
        if list[i].pid == h.pid && text::str_same(list[i].path.as_str(), h.path.as_str()) {
            return true;
        }
        i += 1;
    }
    false
}

fn merge_holders(base: Vec<Holder>, more: &[Holder]) -> (r: Vec<Holder>)
    ensures
        holder_views(r@) == with_holders(holder_views(base@), holder_views(more@)),
{
    broadcast use lemma_holder_views_push;

    let ghost start = holder_views(base@);
    let ghost all = holder_views(more@);
    let mut out = base;
    let mut i: usize = 0;
    assert(all.take(0) =~= Seq::<HolderView>::empty());
    while i < more.len()
        invariant
            i <= more@.len(),
            all == holder_views(more@),
            holder_views(out@) == with_holders(start, all.take(i as int)),
        decreases more@.len() - i,
    {
        assert(all.take(i + 1).drop_last() =~= all.take(i as int));
        assert(all.take(i + 1).last() == more@[i as int]@);
        if !list_holds(&out, &more[i]) {
            let ghost before = holder_views(out@);
            let h = copy_holder(&more[i]);
            out.push(h);
            assert(holder_views(out@) == before.push(h@));
        }
        i += 1;
    }
    assert(all.take(i as int) =~= all);
    out
}

/// One of `volumes` is where the path starts.
pub open spec fn on_volume(p: Seq<char>, volumes: Seq<Seq<char>>) -> bool {
    exists|i: int| 0 <= i < volumes.len() && (#[trigger] volumes[i]).is_prefix_of(p)
}

/// The holder keeps every drive from being ejected: it is a helper, or it has an
/// optical device or a file of one of `volumes` open.
pub open spec fn holds_any(h: HolderView, volumes: Seq<Seq<char>>) -> bool {
    ||| h.name == "makemkvcon"@
    ||| "/dev/disk"@.is_prefix_of(h.path)
    ||| "/dev/rdisk"@.is_prefix_of(h.path)
    ||| on_volume(h.path, volumes)
}

/// Nothing holds the drive: no holder blocks the source, or, where there is
/// none, no holder is on any of the optical volumes or devices.
pub open spec fn drive_clear(
    holders: Seq<HolderView>,
    source: Option<Seq<char>>,
    volumes: Seq<Seq<char>>,
) -> bool {
    match source {
        Some(s) => safe_to_eject(holders, s),
        None => forall|i: int| 0 <= i < holders.len() ==> !holds_any(#[trigger] holders[i], volumes),
    }
}

fn is_on_volume(p: &str, volumes: &[String]) -> (r: bool)
    ensures
        r == on_volume(p@, text::strs(volumes@)),
{
    let mut i: usize = 0;
    while i < volumes.len()
        invariant
            i <= volumes@.len(),
            forall|j: int|
                0 <= j < i ==> !(#[trigger] text::strs(volumes@)[j]).is_prefix_of(p@),
        decreases volumes@.len() - i,
    {
        assert(text::strs(volumes@)[i as int] == volumes@[i as int]@);
        if text::str_starts_with(p, volumes[i].as_str()) {
            return true;
        }
        i += 1;
    }
    false
}

fn is_clear(holders: &[Holder], source: Option<&str>, volumes: &[String]) -> (r: bool)
    ensures
        r == drive_clear(holder_views(holders@), opt_view(source), text::strs(volumes@)),
{
    match source {
        Some(s) => is_safe_to_eject(holders, s),
        None => {
            let mut i: usize = 0;
            while i < holders.len()
                invariant
                    i <= holders@.len(),
                    source is None,
                    forall|j: int|
                        0 <= j < i ==> !holds_any(
                            #[trigger] holder_views(holders@)[j],
                            text::strs(volumes@),
                        ),
                decreases holders@.len() - i,
            {
                assert(holder_views(holders@)[i as int] == holders@[i as int]@);
                let p = holders[i].path.as_str();
                if text::str_same(holders[i].name.as_str(), "makemkvcon")
                    || text::str_starts_with(p, "/dev/disk") || text::str_starts_with(
                    p,
                    "/dev/rdisk",
                ) || is_on_volume(p, volumes) {
                    return false;
                }
                i += 1;
            }
            true
        },
    }
}

/// The state to be shown, and whether it is safe to eject.
pub open spec fn verdict_on(state: State, clear: bool) -> (State, bool) {
    match state {
        State::Opening => (State::Opening, false),
        State::Serving => (State::Serving, false),
        State::Releasing => if clear {
            (State::SafeToEject, true)
        } else {
            (State::Stuck, false)
        },
        State::SafeToEject => (State::SafeToEject, clear),
        State::Stuck => (State::Stuck, false),
        State::Idle => (State::Idle, clear),
    }
}

/// What was seen of the system.
pub struct Seen {
    /// The `makemkvcon` processes.
    pub helpers: Vec<Holder>,
    /// The processes with an open file on one of [`observed_paths`].
    pub open: Vec<Holder>,
    /// The mount points of the system's optical volumes: [`optical_volumes`].
    pub volumes: Vec<String>,
    pub claimed: Vec<String>,
    pub drives: Vec<crate::drives::OpticalDrive>,
}

/// The snapshot of a system in which `seen` was seen.
pub open spec fn snapshot_of(
    source: Option<Seq<char>>,
    mountpoint: Option<Seq<char>>,
    state: State,
    seen: Seen,
) -> SnapshotView {
    let holders = with_holders(holder_views(seen.helpers@), holder_views(seen.open@));
    let v = verdict_on(state, drive_clear(holders, source, text::strs(seen.volumes@)));
    SnapshotView {
        state: v.0,
        safe_to_eject: v.1,
        label: match source {
            Some(s) => path::file_name(s),
            None => None,
        },
        source,
        mountpoint,
        holders,
        claimed_bsd: text::strs(seen.claimed@),
        mount_pid: None,
        drives: crate::drives::drive_views(seen.drives@).map_values(
            |d: crate::drives::DriveView| crate::drives::status_of(d, Seq::empty()),
        ),
    }
}

fn own(s: Option<&str>) -> (r: Option<String>)
    ensures
        opt_string(r) == opt_view(s),
{
    match s {
        Some(x) => Some(text::owned(x)),
        None => None,
    }
}

/// Builds a snapshot of the live system.
pub fn observe(source: Option<&str>, mountpoint: Option<&str>, state: State, seen: Seen) -> (r:
    Snapshot)
    ensures
        r@ == snapshot_of(opt_view(source), opt_view(mountpoint), state, seen),
{
    let drives = crate::drives::drive_statuses(seen.drives.as_slice(), &[]);
    let holders = merge_holders(seen.helpers, seen.open.as_slice());
    let clear = is_clear(holders.as_slice(), source, seen.volumes.as_slice());
    let (shown, safe) = match state {
        State::Opening | State::Serving => (state, false),
        State::Releasing => if clear {
            (State::SafeToEject, true)
        } else {
            (State::Stuck, false)
        },
        State::SafeToEject => (State::SafeToEject, clear),
        State::Stuck => (State::Stuck, false),
        State::Idle => (State::Idle, clear),
    };
    let label = match source {
        Some(s) => path::path_file_name(s),
        None => None,
    };
    let r = Snapshot {
        state: shown,
        safe_to_eject: safe,
        label,
        source: own(source),
        mountpoint: own(mountpoint),
        holders,
        claimed_bsd: seen.claimed,
        mount_pid: None,
        drives,
    };
    assert(r@.label == match source {
        Some(s) => path::file_name(s@),
        None => None,
    });
    assert(r@ =~= snapshot_of(opt_view(source), opt_view(mountpoint), state, seen));
    r
}

/// Brings the drives of a snapshot up to date with the discs that are served.
pub fn attach_drives(
    snap: &mut Snapshot,
    drives: &[crate::drives::OpticalDrive],
    live: &[crate::drives::Live],
)
    ensures
        final(snap)@ == (SnapshotView {
            drives: crate::drives::drive_views(drives@).map_values(
                |d: crate::drives::DriveView| crate::drives::status_of(d, live@),
            ),
            ..old(snap)@
        }),
{
    snap.drives = crate::drives::drive_statuses(drives, live);
}

// ───────────────────────── waiting ─────────────────────────

/// The paths whose open files keep a released disc busy.
pub open spec fn release_paths(
    source: Seq<char>,
    raw: Option<Seq<char>>,
    mountpoint: Option<Seq<char>>,
) -> Seq<Seq<char>> {
    let base = busy_paths(source, raw);
    match mountpoint {
        Some(m) => if path::has_path(base, m) {
            base
        } else {
            base.push(m)
        },
        None => base,
    }
}

/// The paths that a wait for a released disc needs the open files of.
pub fn idle_paths(source: &str, raw_device: Option<&str>, mountpoint: Option<&str>) -> (r: Vec<
    String,
>)
    ensures
        text::strs(r@) == release_paths(source@, opt_view(raw_device), opt_view(mountpoint)),
{
    broadcast use text::lemma_strs_push;

    let mut v = optical_paths(source, raw_device);
    if let Some(mp) = mountpoint {
        if !path::list_has_path(v.as_slice(), mp) {
            let ghost before = text::strs(v@);
            let p = text::owned(mp);
            v.push(p);
            assert(text::strs(v@) == before.push(p@));
        }
    }
    v
}

/// A holder has a file of the disc at `source`, or a device, open.
pub open spec fn still_busy(holders: Seq<HolderView>, source: Seq<char>) -> bool {
    exists|i: int|
        0 <= i < holders.len() && ("/dev/"@.is_prefix_of((#[trigger] holders[i]).path)
            || source.is_prefix_of(holders[i].path))
}

/// Whether the wait for the disc at `source` is over: only files of this disc
/// keep it up, so that one tray can open while another disc is being served.
/// The holders that are left tell whether it is safe to eject.
pub fn wait_until_idle(source: &str, holders: &[Holder], expired: bool) -> (r: bool)
    ensures
        r == (expired || !still_busy(holder_views(holders@), source@)),
{
    if expired {
        return true;
    }
    let mut i: usize = 0;
    while i < holders.len()
        invariant
            i <= holders@.len(),
            !expired,
            forall|j: int|
                0 <= j < i ==> !("/dev/"@.is_prefix_of((#[trigger] holder_views(holders@)[j]).path)
                    || source@.is_prefix_of(holder_views(holders@)[j].path)),
        decreases holders@.len() - i,
    {
        assert(holder_views(holders@)[i as int] == holders@[i as int]@);
        let p = holders[i].path.as_str();
        if text::str_starts_with(p, "/dev/") || text::str_starts_with(p, source) {
            return false;
        }
        i += 1;
    }
    true
}

// ───────────────────────── laws ─────────────────────────

/// A snapshot that calls a disc safe to eject shows that no `makemkvcon` runs.
pub proof fn lemma_safe_means_no_helper(
    source: Option<Seq<char>>,
    mountpoint: Option<Seq<char>>,
    state: State,
    seen: Seen,
    i: int,
)
    requires
        snapshot_of(source, mountpoint, state, seen).safe_to_eject,
        0 <= i < snapshot_of(source, mountpoint, state, seen).holders.len(),
    ensures
        snapshot_of(source, mountpoint, state, seen).holders[i].name != "makemkvcon"@,
{
}

/// A snapshot that calls a disc safe to eject shows that nothing has an optical
/// device open, nor the volume of the disc; where no disc is named, nor any
/// optical volume.
pub proof fn lemma_safe_means_not_open(
    source: Option<Seq<char>>,
    mountpoint: Option<Seq<char>>,
    state: State,
    seen: Seen,
    i: int,
)
    requires
        snapshot_of(source, mountpoint, state, seen).safe_to_eject,
        0 <= i < snapshot_of(source, mountpoint, state, seen).holders.len(),
    ensures
        ({
            let h = snapshot_of(source, mountpoint, state, seen).holders[i];
            &&& match source {
                Some(s) => !s.is_prefix_of(h.path),
                None => !on_volume(h.path, text::strs(seen.volumes@)),
            }
            &&& !"/dev/disk"@.is_prefix_of(h.path)
            &&& !"/dev/rdisk"@.is_prefix_of(h.path)
        }),
{
}

/// Every optical volume is among the paths whose open files are asked for where
/// no disc is named.
pub proof fn lemma_volumes_watched(
    table: Seq<MountEntry>,
    mountpoint: Option<Seq<char>>,
    raw: Option<Seq<char>>,
    k: int,
)
    requires
        0 <= k < table_volumes(table).len(),
    ensures
        watched_paths(None, mountpoint, raw, table).contains(table_volumes(table)[k]),
{
    lemma_volumes_in_paths(table, k);
    let base = table_paths(table);
    let i = choose|i: int| 0 <= i < base.len() && base[i] == table_volumes(table)[k];
    assert(watched_paths(None, mountpoint, raw, table)[i] == base[i]);
}

proof fn lemma_volumes_in_paths(table: Seq<MountEntry>, k: int)
    requires
        0 <= k < table_volumes(table).len(),
    ensures
        table_paths(table).contains(table_volumes(table)[k]),
    decreases table.len(),
{
    let d = table.drop_last();
    let before = table_volumes(d);
    let paths = table_paths(d);
    if k < before.len() {
        lemma_volumes_in_paths(d, k);
        let i = choose|i: int| 0 <= i < paths.len() && paths[i] == before[k];
        assert(table_paths(table)[i] == before[k]);
    } else {
        assert(table_paths(table)[paths.len() as int] == table.last().mount_point@);
    }
}

/// A snapshot of a disc that is being opened or served is never safe.
pub proof fn lemma_serving_is_unsafe(
    source: Option<Seq<char>>,
    mountpoint: Option<Seq<char>>,
    state: State,
    seen: Seen,
)
    requires
        state == State::Opening || state == State::Serving,
    ensures
        !snapshot_of(source, mountpoint, state, seen).safe_to_eject,
        snapshot_of(source, mountpoint, state, seen).state == state,
{
}

/// A disc with no holders is safe to eject, and the fewer the holders the safer.
pub proof fn lemma_fewer_holders_safer(
    a: Seq<HolderView>,
    b: Seq<HolderView>,
    source: Seq<char>,
)
    requires
        forall|i: int| 0 <= i < a.len() ==> b.contains(#[trigger] a[i]),
        safe_to_eject(b, source),
    ensures
        safe_to_eject(a, source),
        safe_to_eject(Seq::empty(), source),
{
    assert forall|i: int| 0 <= i < a.len() implies !blocks_eject(#[trigger] a[i], source) by {
        assert(b.contains(a[i]));
    }
}

/// Every helper that is named to be killed is a child of ours, or a leftover that
/// the system took over. A helper that MakeMKV itself owns is neither.
pub proof fn lemma_only_ours_killed(v: Seq<HelperView>, us: u32, k: int)
    requires
        0 <= k < our_pids(v, us).len(),
    ensures
        exists|i: int|
            0 <= i < v.len() && (#[trigger] v[i]).ours(us) && v[i].pid == our_pids(v, us)[k],
    decreases v.len(),
{
    let d = v.drop_last();
    let before = our_pids(d, us);
    if k < before.len() {
        lemma_only_ours_killed(d, us, k);
        let i = choose|i: int| 0 <= i < d.len() && (#[trigger] d[i]).ours(us) && d[i].pid
            == before[k];
        assert(v[i].ours(us) && v[i].pid == our_pids(v, us)[k]);
    } else {
        let i = v.len() - 1;
        assert(v[i].ours(us) && v[i].pid == our_pids(v, us)[k]);
    }
}

} // verus!
