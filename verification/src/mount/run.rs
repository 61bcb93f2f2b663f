//! The course of a mount, from a source to a live view.
//!
//! Nothing here touches a disc or the system. A [`MountRun`] says what to do
//! next and is told how that went.

use vstd::prelude::*;

use super::{is_device, is_device_path, MountFlags, MountOptions, MountedDisc, MountedView};
use crate::disc;
use crate::disc::VolumeFacts;
use crate::idle::opt_string;
use crate::number;
use crate::path;
use crate::text;

verus! {

broadcast use vstd::string::group_string_axioms;

// ───────────────────────── names ─────────────────────────

pub open spec fn dir_char(c: char) -> char {
    if c == '/' || c == ':' || c == '\0' {
        '_'
    } else {
        c
    }
}

/// A label that can stand as the name of a directory.
pub open spec fn dir_name(label: Seq<char>) -> Seq<char> {
    let t = text::trimmed(label.map_values(|c: char| dir_char(c)));
    if t.len() == 0 {
        "BluRay"@
    } else {
        t
    }
}

/// Makes a label safe to use as the name of a directory.
pub fn sanitize(label: &str) -> (r: String)
    ensures
        r@ == dir_name(label@),
{
    let c = text::chars_of(label);
    let mut out: Vec<char> = Vec::new();
    let mut i: usize = 0;
    while i < c.len()
        invariant
            i <= c@.len(),
            out@ == c@.take(i as int).map_values(|c: char| dir_char(c)),
        decreases c@.len() - i,
    {
        let x: char = c[i];
        out.push(
            if x == '/' || x == ':' || x == '\0' {
                '_'
            } else {
                x
            },
        );
        i += 1;
        assert(out@ =~= c@.take(i as int).map_values(|c: char| dir_char(c)));
    }
    assert(c@.take(i as int) =~= c@);
    let t = text::trim(out.as_slice());
    if t.len() == 0 {
        text::owned("BluRay")
    } else {
        text::string_of(t)
    }
}

/// Where a disc called `label` is mounted.
pub open spec fn target_of(base: Seq<char>, explicit: Option<Seq<char>>, label: Seq<char>) -> Seq<
    char,
> {
    match explicit {
        Some(p) => p,
        None => path::joined(base, dir_name(label)),
    }
}

/// The raw device of a device node.
pub open spec fn raw_node(source: Seq<char>) -> Seq<char> {
    if path::comps("/dev/r"@).is_prefix_of(path::comps(source)) {
        source
    } else {
        "/dev/r"@ + text::without_prefixes(path::file_name(source)->0, "r"@)
    }
}

/// The raw device of a device node can be told: it is raw already, or it has a
/// name.
pub open spec fn has_raw_node(source: Seq<char>) -> bool {
    path::comps("/dev/r"@).is_prefix_of(path::comps(source)) || path::file_name(source) is Some
}

fn raw_node_of(source: &str) -> (r: String)
    requires
        has_raw_node(source@),
    ensures
        r@ == raw_node(source@),
{
    if path::path_starts_with(source, "/dev/r") {
        return text::owned(source);
    }
    let name = match path::path_file_name(source) {
        Some(n) => n,
        None => String::new(),
    };
    let c = text::chars_of(name.as_str());
    let r = text::chars_of("r");
    let rest = text::string_of(text::trim_start_matches(c.as_slice(), r.as_slice()));
    text::concat("/dev/r", rest.as_str())
}

/// The options of `mount_nfs` for a server on `port`. A read of a disc can take
/// many seconds, so the mount is a hard one.
pub open spec fn nfs_options_text(port: u16) -> Seq<char> {
    "ro,nolocks,vers=3,tcp,hard,intr,rsize=131072,readahead=16,actimeo=3600,timeo=600,port="@
        + number::decimal(port as nat) + ",mountport="@ + number::decimal(port as nat)
}

pub fn nfs_options(port: u16) -> (r: String)
    ensures
        r@ == nfs_options_text(port),
{
    let n = text::string_of(number::to_decimal(port as u64).as_slice());
    let a = text::concat(
        "ro,nolocks,vers=3,tcp,hard,intr,rsize=131072,readahead=16,actimeo=3600,timeo=600,port=",
        n.as_str(),
    );
    let b = text::concat(a.as_str(), ",mountport=");
    text::concat(b.as_str(), n.as_str())
}

/// Whether the complaint of `mount_nfs` is that it lacks the right to mount.
pub fn lacks_permission(stderr: &str) -> (r: bool)
    ensures
        r == (text::contains(stderr@, "Operation not permitted"@) || text::contains(
            stderr@,
            "Permission denied"@,
        )),
{
    text::str_has(stderr, "Operation not permitted") || text::str_has(stderr, "Permission denied")
}

// ───────────────────────── the course of a mount ─────────────────────────

/// Why there is no mount.
#[derive(Clone, Copy, Debug, PartialEq, Eq, Structural)]
pub enum MountError {
    /// The source cannot be accessed.
    NoSource,
    /// The volume holds no `BDMV/index.bdmv`.
    NotBluRay,
    /// The disc's directories cannot be read.
    Unreadable,
    /// MakeMKV could not open the disc.
    NoDisc,
    /// The server could not be started.
    NoServer,
    /// The mount point could not be prepared.
    NotPrepared,
    /// The view could not be mounted.
    NotAttached,
    /// The answer is not one to what was asked.
    OutOfTurn,
}

#[derive(Clone, Copy, Debug, PartialEq, Eq, Structural)]
pub enum Stage {
    Resolve,
    Device,
    Look,
    Raw,
    Scan,
    Disc,
    Serve,
    Prepare,
    Attach,
    Undo,
    Live,
    Failed,
}

/// What is known of a disc's tree.
pub struct TreeFacts {
    pub label: String,
    pub encrypted_count: usize,
}

/// How the last action went.
pub enum Event {
    /// The source without links, if it can be accessed.
    Resolved(Option<String>),
    /// What `diskutil info -plist` says of the volume.
    DeviceInfo(Option<String>),
    Looked(VolumeFacts),
    Scanned(Option<TreeFacts>),
    DiscReady(bool),
    /// The port that is listened on.
    Serving(Option<u16>),
    Prepared(bool),
    Attached(bool),
    Undone,
}

/// What to do next.
pub enum Action {
    Resolve { source: String },
    AskDevice { volume: String },
    Look { volume: String },
    /// Open the raw volume and read its tree.
    OpenRaw { device: String },
    /// Read the tree of the mounted volume.
    Scan { volume: String },
    /// Open the disc in MakeMKV.
    OpenDisc { source: String },
    /// Start MakeMKV without a disc: there is nothing to decrypt.
    StartEngine,
    Serve,
    Prepare { mountpoint: String },
    Attach { port: u16, mountpoint: String },
    /// Stop the server, close the disc and remove the mount point.
    Undo { mountpoint: String },
    /// The view is mounted: register it and publish the state.
    Live,
    Fail(MountError),
}

pub enum ActionView {
    Resolve { source: Seq<char> },
    AskDevice { volume: Seq<char> },
    Look { volume: Seq<char> },
    OpenRaw { device: Seq<char> },
    Scan { volume: Seq<char> },
    OpenDisc { source: Seq<char> },
    StartEngine,
    Serve,
    Prepare { mountpoint: Seq<char> },
    Attach { port: u16, mountpoint: Seq<char> },
    Undo { mountpoint: Seq<char> },
    Live,
    Fail(MountError),
}

impl View for Action {
    type V = ActionView;

    open spec fn view(&self) -> ActionView {
        match *self {
            Action::Resolve { source } => ActionView::Resolve { source: source@ },
            Action::AskDevice { volume } => ActionView::AskDevice { volume: volume@ },
            Action::Look { volume } => ActionView::Look { volume: volume@ },
            Action::OpenRaw { device } => ActionView::OpenRaw { device: device@ },
            Action::Scan { volume } => ActionView::Scan { volume: volume@ },
            Action::OpenDisc { source } => ActionView::OpenDisc { source: source@ },
            Action::StartEngine => ActionView::StartEngine,
            Action::Serve => ActionView::Serve,
            Action::Prepare { mountpoint } => ActionView::Prepare { mountpoint: mountpoint@ },
            Action::Attach { port, mountpoint } => ActionView::Attach {
                port,
                mountpoint: mountpoint@,
            },
            Action::Undo { mountpoint } => ActionView::Undo { mountpoint: mountpoint@ },
            Action::Live => ActionView::Live,
            Action::Fail(e) => ActionView::Fail(e),
        }
    }
}

/// A mount under way.
pub struct MountRun {
    source: String,
    raw_device: Option<String>,
    label: String,
    mountpoint: String,
    port: u16,
    stage: Stage,
    protected: bool,
    base_dir: String,
    explicit: Option<String>,
}

#[verifier::ext_equal]
pub struct RunView {
    pub source: Seq<char>,
    pub raw_device: Option<Seq<char>>,
    pub label: Seq<char>,
    pub mountpoint: Seq<char>,
    pub port: u16,
    pub stage: Stage,
    pub protected: bool,
    pub base_dir: Seq<char>,
    pub explicit: Option<Seq<char>>,
}

impl View for MountRun {
    type V = RunView;

    closed spec fn view(&self) -> RunView {
        RunView {
            source: self.source@,
            raw_device: opt_string(self.raw_device),
            label: self.label@,
            mountpoint: self.mountpoint@,
            port: self.port,
            stage: self.stage,
            protected: self.protected,
            base_dir: self.base_dir@,
            explicit: opt_string(self.explicit),
        }
    }
}

/// A mount that has not begun: a device is read raw, a volume is resolved first.
pub open spec fn new_run(source: Seq<char>, opts: MountOptions) -> RunView {
    RunView {
        source,
        raw_device: if is_device(source) {
            Some(raw_node(source))
        } else {
            None
        },
        label: Seq::empty(),
        mountpoint: Seq::empty(),
        port: 0,
        stage: if is_device(source) {
            Stage::Raw
        } else {
            Stage::Resolve
        },
        protected: false,
        base_dir: opts.base_dir@,
        explicit: opt_string(opts.mountpoint),
    }
}

pub open spec fn failed(r: RunView, e: MountError) -> (RunView, ActionView) {
    (RunView { stage: Stage::Failed, ..r }, ActionView::Fail(e))
}

/// The course of a mount: what it is and needs after `event`.
pub open spec fn stepped(r: RunView, event: Event) -> (RunView, ActionView) {
    match (r.stage, event) {
        (Stage::Resolve, Event::Resolved(p)) => match p {
            None => failed(r, MountError::NoSource),
            Some(source) => (
                RunView { source: source@, stage: Stage::Device, ..r },
                ActionView::AskDevice { volume: source@ },
            ),
        },
        (Stage::Device, Event::DeviceInfo(info)) => (
            RunView {
                raw_device: match info {
                    Some(text) => disc::raw_device_in(text@),
                    None => None,
                },
                stage: Stage::Look,
                ..r
            },
            ActionView::Look { volume: r.source },
        ),
        (Stage::Look, Event::Looked(facts)) => match disc::volume_at(r.source, facts) {
            None => failed(r, MountError::NotBluRay),
            Some(v) => (
                RunView { protected: v.protected, stage: Stage::Scan, ..r },
                ActionView::Scan { volume: r.source },
            ),
        },
        (Stage::Raw, Event::Scanned(tree)) => match tree {
            None => failed(r, MountError::Unreadable),
            Some(t) => (
                RunView { label: t.label@, stage: Stage::Disc, ..r },
                ActionView::OpenDisc { source: r.source },
            ),
        },
        (Stage::Scan, Event::Scanned(tree)) => match tree {
            None => failed(r, MountError::Unreadable),
            Some(t) => (
                RunView { label: t.label@, stage: Stage::Disc, ..r },
                if r.protected || t.encrypted_count > 0 {
                    ActionView::OpenDisc { source: r.source }
                } else {
                    ActionView::StartEngine
                },
            ),
        },
        (Stage::Disc, Event::DiscReady(ok)) => if ok {
            (RunView { stage: Stage::Serve, ..r }, ActionView::Serve)
        } else {
            failed(r, MountError::NoDisc)
        },
        (Stage::Serve, Event::Serving(p)) => match p {
            None => failed(r, MountError::NoServer),
            Some(port) => {
                let mountpoint = target_of(r.base_dir, r.explicit, r.label);
                (
                    RunView { port, mountpoint, stage: Stage::Prepare, ..r },
                    ActionView::Prepare { mountpoint },
                )
            },
        },
        (Stage::Prepare, Event::Prepared(ok)) => if ok {
            (
                RunView { stage: Stage::Attach, ..r },
                ActionView::Attach { port: r.port, mountpoint: r.mountpoint },
            )
        } else {
            failed(r, MountError::NotPrepared)
        },
        (Stage::Attach, Event::Attached(ok)) => if ok {
            (RunView { stage: Stage::Live, ..r }, ActionView::Live)
        } else {
            (
                RunView { stage: Stage::Undo, ..r },
                ActionView::Undo { mountpoint: r.mountpoint },
            )
        },
        (Stage::Undo, Event::Undone) => failed(r, MountError::NotAttached),
        _ => failed(r, MountError::OutOfTurn),
    }
}

/// The disc that a mount is about.
pub open spec fn disc_of(r: RunView) -> MountedView {
    MountedView {
        source: r.source,
        label: r.label,
        mountpoint: r.mountpoint,
        port: r.port,
        raw_device: r.raw_device,
        flags: MountFlags { mounted: r.stage == Stage::Live, torn_down: false },
        id: 0,
    }
}

impl MountedDisc {
    /// Begins a mount of `source`, and says what to do first.
    pub fn mount(source: &str, opts: &MountOptions) -> (r: (MountRun, Action))
        requires
            is_device(source@) ==> has_raw_node(source@),
        ensures
            r.0@ == new_run(source@, *opts),
            r.1@ == if is_device(source@) {
                ActionView::OpenRaw { device: source@ }
            } else {
                ActionView::Resolve { source: source@ }
            },
    {
        let device = is_device_path(source);
        let raw_device = if device {
            Some(raw_node_of(source))
        } else {
            None
        };
        let explicit = match &opts.mountpoint {
            Some(p) => Some(text::owned(p.as_str())),
            None => None,
        };
        let run = MountRun {
            source: text::owned(source),
            raw_device,
            label: String::new(),
            mountpoint: String::new(),
            port: 0,
            stage: if device {
                Stage::Raw
            } else {
                Stage::Resolve
            },
            protected: false,
            base_dir: text::owned(opts.base_dir.as_str()),
            explicit,
        };
        assert(run@.label =~= Seq::<char>::empty());
        assert(run@.mountpoint =~= Seq::<char>::empty());
        assert(run@ =~= new_run(source@, *opts));
        let action = if device {
            Action::OpenRaw { device: text::owned(source) }
        } else {
            Action::Resolve { source: text::owned(source) }
        };
        (run, action)
    }
}

impl MountRun {
    /// The disc, as far as it got. Once live, its view is ours to unmount.
    pub fn disc(&self) -> (r: MountedDisc)
        ensures
            r@ == disc_of(self@),
    {
        let raw_device = match &self.raw_device {
            Some(d) => Some(text::owned(d.as_str())),
            None => None,
        };
        let r = MountedDisc {
            source: text::owned(self.source.as_str()),
            label: text::owned(self.label.as_str()),
            mountpoint: text::owned(self.mountpoint.as_str()),
            port: self.port,
            raw_device,
            flags: MountFlags { mounted: self.stage == Stage::Live, torn_down: false },
            id: 0,
        };
        assert(r@ =~= disc_of(self@));
        r
    }

    fn fail(&mut self, e: MountError) -> (r: Action)
        ensures
            (final(self)@, r@) == failed(old(self)@, e),
    {
        self.stage = Stage::Failed;
        Action::Fail(e)
    }

    fn own_source(&self) -> (r: String)
        ensures
            r@ == self@.source,
    {
        text::owned(self.source.as_str())
    }

    /// Takes in how the last action went, and says what to do next.
    pub fn step(&mut self, event: Event) -> (r: Action)
        ensures
            (final(self)@, r@) == stepped(old(self)@, event),
    {
        match (self.stage, event) {
            (Stage::Resolve, Event::Resolved(p)) => match p {
                None => self.fail(MountError::NoSource),
                Some(source) => {
                    self.source = source;
                    self.stage = Stage::Device;
                    Action::AskDevice { volume: self.own_source() }
                },
            },
            (Stage::Device, Event::DeviceInfo(info)) => {
                self.raw_device = match info {
                    Some(text) => disc::raw_device_for_volume(text.as_str()),
                    None => None,
                };
                self.stage = Stage::Look;
                Action::Look { volume: self.own_source() }
            },
            (Stage::Look, Event::Looked(facts)) => match disc::inspect_volume(
                self.source.as_str(),
                facts,
            ) {
                None => self.fail(MountError::NotBluRay),
                Some(v) => {
                    self.protected = v.protected;
                    self.stage = Stage::Scan;
                    Action::Scan { volume: self.own_source() }
                },
            },
            (Stage::Raw, Event::Scanned(tree)) => match tree {
                None => self.fail(MountError::Unreadable),
                Some(t) => {
                    self.label = t.label;
                    self.stage = Stage::Disc;
                    Action::OpenDisc { source: self.own_source() }
                },
            },
            (Stage::Scan, Event::Scanned(tree)) => match tree {
                None => self.fail(MountError::Unreadable),
                Some(t) => {
                    self.label = t.label;
                    self.stage = Stage::Disc;
                    if self.protected || t.encrypted_count > 0 {
                        Action::OpenDisc { source: self.own_source() }
                    } else {
                        Action::StartEngine
                    }
                },
            },
            (Stage::Disc, Event::DiscReady(ok)) => if ok {
                self.stage = Stage::Serve;
                Action::Serve
            } else {
                self.fail(MountError::NoDisc)
            },
            (Stage::Serve, Event::Serving(p)) => match p {
                None => self.fail(MountError::NoServer),
                Some(port) => {
                    let target = match &self.explicit {
                        Some(p) => text::owned(p.as_str()),
                        None => {
                            let name = sanitize(self.label.as_str());
                            path::join(self.base_dir.as_str(), name.as_str())
                        },
                    };
                    self.port = port;
                    self.mountpoint = text::owned(target.as_str());
                    self.stage = Stage::Prepare;
                    Action::Prepare { mountpoint: target }
                },
            },
            (Stage::Prepare, Event::Prepared(ok)) => if ok {
                self.stage = Stage::Attach;
                Action::Attach {
                    port: self.port,
                    mountpoint: text::owned(self.mountpoint.as_str()),
                }
            } else {
                self.fail(MountError::NotPrepared)
            },
            (Stage::Attach, Event::Attached(ok)) => if ok {
                self.stage = Stage::Live;
                Action::Live
            } else {
                self.stage = Stage::Undo;
                Action::Undo { mountpoint: text::owned(self.mountpoint.as_str()) }
            },
            (Stage::Undo, Event::Undone) => self.fail(MountError::NotAttached),
            _ => self.fail(MountError::OutOfTurn),
        }
    }
}

// ───────────────────────── laws ─────────────────────────

/// The stage is one of a mount that reads a raw device.
pub open spec fn raw_stage(s: Stage) -> bool {
    s != Stage::Resolve && s != Stage::Device && s != Stage::Look && s != Stage::Scan
}

/// The mount of a device never touches a mounted volume.
pub proof fn lemma_device_stays_raw(r: RunView, event: Event)
    requires
        raw_stage(r.stage),
    ensures
        raw_stage(stepped(r, event).0.stage),
        match stepped(r, event).1 {
            ActionView::Resolve { .. } => false,
            ActionView::AskDevice { .. } => false,
            ActionView::Look { .. } => false,
            ActionView::Scan { .. } => false,
            _ => true,
        },
        stepped(r, event).0.source == r.source,
        stepped(r, event).0.raw_device == r.raw_device,
{
}

/// A mount goes live only when its view was mounted, where it was to go.
pub proof fn lemma_live_when_attached(r: RunView, event: Event)
    requires
        stepped(r, event).1 is Live,
    ensures
        r.stage == Stage::Attach,
        event == Event::Attached(true),
{
}

/// A view that could not be mounted is undone before the mount fails.
pub proof fn lemma_failed_attach_undone(r: RunView)
    requires
        r.stage == Stage::Attach,
    ensures
        stepped(r, Event::Attached(false)).1 == (ActionView::Undo { mountpoint: r.mountpoint }),
        stepped(stepped(r, Event::Attached(false)).0, Event::Undone).1 == ActionView::Fail(
            MountError::NotAttached,
        ),
{
}

/// A mount that is over stays over.
pub proof fn lemma_over_is_over(r: RunView, event: Event)
    requires
        r.stage == Stage::Live || r.stage == Stage::Failed,
    ensures
        stepped(r, event).1 == ActionView::Fail(MountError::OutOfTurn),
{
}

/// The name of the directory that a disc is mounted on holds no separator.
pub proof fn lemma_dir_name_is_one_name(label: Seq<char>, i: int)
    requires
        0 <= i < dir_name(label).len(),
    ensures
        dir_name(label)[i] != '/',
        dir_name(label)[i] != ':',
        dir_name(label).len() > 0,
{
    reveal_strlit("BluRay");
    let m = label.map_values(|c: char| dir_char(c));
    let t = text::trimmed(m);
    text::lemma_trim_front_part(m);
    text::lemma_trim_back_part(text::trim_front(m));
    if t.len() > 0 {
        let f = text::trim_front(m);
        assert(t[i] == f[i]);
        assert(f[i] == m[m.len() - f.len() + i]);
    }
}

} // verus!
