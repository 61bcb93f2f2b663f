//! The walk over a disc that builds its tree.
//!
//! Nothing here touches a disc. The walk says which directory to list and which
//! entry to look at next, and takes in what was found there.

use vstd::prelude::*;
use vstd::utf8::encode_utf8;

use super::{
    flags_of, node_views, DiscTree, KindView, Node, NodeId, NodeKind, NodeView, Timestamp, TreeView,
    ROOT_ID,
};
use crate::order;
use crate::path;
use crate::rawudf::device;
use crate::rawudf::log::{Known, ReadLog, Step};
use crate::rawudf::space;
use crate::rawudf::volume::{RawUdf, RawUdfView};
use crate::text;

verus! {

broadcast use vstd::string::group_string_axioms;

// ───────────────────────── what is left out ─────────────────────────

/// A name at the root of a disc that is left out of the decrypted view.
pub open spec fn hidden_at_root(n: Seq<char>) -> bool {
    let low = text::lower(n);
    ||| low == text::lower("AACS"@)
    ||| low == text::lower("BDSVM"@)
    ||| low == text::lower("MAKEMKV"@)
    ||| low == text::lower(".Spotlight-V100"@)
    ||| low == text::lower(".fseventsd"@)
    ||| low == text::lower(".Trashes"@)
    ||| low == text::lower(".TemporaryItems"@)
    ||| low == text::lower(".DS_Store"@)
    ||| low == text::lower("$RECYCLE.BIN"@)
    ||| low == text::lower("System Volume Information"@)
}

fn same_word(n: &[char], word: &str) -> (r: bool)
    ensures
        r == (text::lower(n@) == text::lower(word@)),
{
    text::eq_ignore_ascii_case(n, text::chars_of(word).as_slice())
}

fn is_hidden_at_root(name: &str) -> (r: bool)
    ensures
        r == hidden_at_root(name@),
{
    let c = text::chars_of(name);
    let n = c.as_slice();
    same_word(n, "AACS") || same_word(n, "BDSVM") || same_word(n, "MAKEMKV") || same_word(
        n,
        ".Spotlight-V100",
    ) || same_word(n, ".fseventsd") || same_word(n, ".Trashes") || same_word(n, ".TemporaryItems")
        || same_word(n, ".DS_Store") || same_word(n, "$RECYCLE.BIN") || same_word(
        n,
        "System Volume Information",
    )
}

// ───────────────────────── the state of a walk ─────────────────────────

/// An entry of a directory that was listed.
pub struct Entry {
    pub name: Vec<u8>,
    /// Known from the listing of a raw volume; elsewhere a look at the entry
    /// tells.
    pub is_dir: bool,
}

pub struct EntryView {
    pub name: Seq<u8>,
    pub is_dir: bool,
}

impl View for Entry {
    type V = EntryView;

    open spec fn view(&self) -> EntryView {
        EntryView { name: self.name@, is_dir: self.is_dir }
    }
}

pub open spec fn entry_views(v: Seq<Entry>) -> Seq<EntryView> {
    v.map_values(|e: Entry| e@)
}

/// A directory that the walk is in.
pub struct Frame {
    /// Where its node stands.
    index: usize,
    path: Vec<u8>,
    listed: bool,
    entries: Vec<Entry>,
    /// The next entry.
    at: usize,
}

#[verifier::ext_equal]
pub struct FrameView {
    pub index: int,
    pub path: Seq<u8>,
    pub listed: bool,
    pub entries: Seq<EntryView>,
    pub at: int,
}

impl View for Frame {
    type V = FrameView;

    closed spec fn view(&self) -> FrameView {
        FrameView {
            index: self.index as int,
            path: self.path@,
            listed: self.listed,
            entries: entry_views(self.entries@),
            at: self.at as int,
        }
    }
}

pub open spec fn frame_views(v: Seq<Frame>) -> Seq<FrameView> {
    v.map_values(|f: Frame| f@)
}

/// A tree that is being built.
pub struct TreeBuilder {
    tree: DiscTree,
    /// The root of the disc, as the paths of its files have it.
    root: String,
    /// The disc is a raw volume.
    raw: bool,
    next_id: u64,
    stack: Vec<Frame>,
}

#[verifier::ext_equal]
pub struct BuilderView {
    pub tree: TreeView,
    pub root: Seq<char>,
    pub raw: bool,
    pub next_id: int,
    pub stack: Seq<FrameView>,
}

impl View for TreeBuilder {
    type V = BuilderView;

    closed spec fn view(&self) -> BuilderView {
        BuilderView {
            tree: self.tree@,
            root: self.root@,
            raw: self.raw,
            next_id: self.next_id as int,
            stack: frame_views(self.stack@),
        }
    }
}

pub open spec fn frame_ok(f: FrameView, nodes: Seq<NodeView>) -> bool {
    &&& 0 <= f.index < nodes.len()
    &&& nodes[f.index].kind is Dir
    &&& 0 <= f.at <= f.entries.len()
}

impl BuilderView {
    pub open spec fn wf(self) -> bool {
        &&& self.tree.nodes.len() > 0
        &&& 0 <= self.tree.encrypted_count <= self.tree.file_count < self.tree.nodes.len()
        &&& forall|i: int|
            0 <= i < self.stack.len() ==> frame_ok(#[trigger] self.stack[i], self.tree.nodes)
    }

    /// The directory is the root of the disc.
    pub open spec fn at_root(self, dir: Seq<u8>) -> bool {
        if self.raw {
            dir.len() == 0
        } else {
            path::comps(text::text_of(dir)) == path::comps(self.root)
        }
    }

    /// The entry belongs to the decrypted view.
    pub open spec fn shows(self, dir: Seq<u8>, name: Seq<u8>) -> bool {
        let n = text::text_of(name);
        !(self.at_root(dir) && hidden_at_root(n)) && n != ".DS_Store"@
    }

    /// The path of an entry of a directory.
    pub open spec fn child_path(self, dir: Seq<u8>, name: Seq<u8>) -> Seq<u8> {
        if !self.raw {
            path::joined_bytes(dir, name)
        } else if dir.len() == 0 {
            name
        } else {
            dir.push(47) + name
        }
    }

    /// The state with `f` in place of the innermost directory.
    pub open spec fn with_top(self, f: FrameView) -> BuilderView {
        BuilderView { stack: self.stack.drop_last().push(f), ..self }
    }

    /// The state with the next entry done.
    pub open spec fn stepped_over(self) -> BuilderView {
        let f = self.stack.last();
        self.with_top(FrameView { at: f.at + 1, ..f })
    }

    pub open spec fn entry(self) -> EntryView {
        self.stack.last().entries[self.stack.last().at]
    }

    pub open spec fn entry_path(self) -> Seq<u8> {
        self.child_path(self.stack.last().path, self.entry().name)
    }

    /// The walk waits for a look at its next entry.
    pub open spec fn waits_for_look(self) -> bool {
        &&& self.stack.len() > 0
        &&& self.stack.last().listed
        &&& self.stack.last().at < self.stack.last().entries.len()
    }

    /// The walk waits for a listing.
    pub open spec fn waits_for_listing(self) -> bool {
        self.stack.len() > 0 && !self.stack.last().listed
    }
}

/// How many moves a walk can make on what it knows.
pub open spec fn moves_left(stack: Seq<FrameView>) -> nat
    decreases stack.len(),
{
    if stack.len() == 0 {
        0
    } else {
        let f = stack.last();
        moves_left(stack.drop_last()) + 1 + (if f.at < f.entries.len() {
            f.entries.len() - f.at
        } else {
            0
        }) as nat
    }
}

/// The walk brought to where it needs something: directories that are done are
/// left, and entries that do not show are passed over.
pub open spec fn rested(b: BuilderView) -> BuilderView
    decreases moves_left(b.stack),
    via rested_ends
{
    if b.stack.len() == 0 || !b.stack.last().listed {
        b
    } else if b.stack.last().at >= b.stack.last().entries.len() {
        rested(BuilderView { stack: b.stack.drop_last(), ..b })
    } else if !b.shows(b.stack.last().path, b.entry().name) {
        rested(b.stepped_over())
    } else {
        b
    }
}

#[via_fn]
proof fn rested_ends(b: BuilderView) {
    if b.stack.len() > 0 {
        assert(b.stepped_over().stack.drop_last() =~= b.stack.drop_last());
    }
}

/// What a walk needs next.
pub enum WalkNeed {
    /// The entries of this directory.
    List { path: Vec<u8> },
    /// A look at this entry.
    Look { path: Vec<u8>, is_dir: bool },
    /// Nothing: the tree is done.
    Nothing,
}

pub enum NeedView {
    List { path: Seq<u8> },
    Look { path: Seq<u8>, is_dir: bool },
    Nothing,
}

impl View for WalkNeed {
    type V = NeedView;

    open spec fn view(&self) -> NeedView {
        match *self {
            WalkNeed::List { path } => NeedView::List { path: path@ },
            WalkNeed::Look { path, is_dir } => NeedView::Look { path: path@, is_dir },
            WalkNeed::Nothing => NeedView::Nothing,
        }
    }
}

/// What a walk that is at rest needs.
pub open spec fn needed(b: BuilderView) -> NeedView {
    if b.stack.len() == 0 {
        NeedView::Nothing
    } else if !b.stack.last().listed {
        NeedView::List { path: b.stack.last().path }
    } else {
        NeedView::Look { path: b.entry_path(), is_dir: b.entry().is_dir }
    }
}

pub open spec fn name_rank() -> spec_fn(EntryView, EntryView) -> order::Rank {
    |a: EntryView, b: EntryView| order::bytes_rank(a.name, b.name)
}

/// The walk with the listing of its innermost directory: in the volume's own
/// order on a raw volume, else by name.
pub open spec fn with_listing(b: BuilderView, entries: Seq<EntryView>) -> BuilderView {
    let f = b.stack.last();
    b.with_top(
        FrameView {
            listed: true,
            entries: if b.raw {
                entries
            } else {
                order::sorted(entries, name_rank())
            },
            at: 0,
            ..f
        },
    )
}

/// What a look at an entry shows.
#[derive(Clone, Copy, Debug, PartialEq, Eq, Structural)]
pub enum Look {
    /// It cannot be looked at.
    Gone,
    Dir { mtime: Timestamp },
    File { size: u64, mtime: Timestamp },
    /// Neither a directory nor a file.
    Other,
}

/// Why there is no tree.
#[derive(Clone, Copy, Debug, PartialEq, Eq, Structural)]
pub enum ScanError {
    /// There is no `BDMV/index.bdmv`.
    NotBluRay,
    /// There are more entries than numbers for them.
    TooMany,
}

/// The nodes with `n` behind them, entered into its directory.
pub open spec fn with_node(nodes: Seq<NodeView>, dir: int, n: NodeView) -> Seq<NodeView> {
    let d = nodes[dir];
    nodes.update(
        dir,
        NodeView {
            kind: KindView::Dir { children: d.kind->children.push(n.id) },
            ..d
        },
    ).push(n)
}

/// The kind of a file.
pub open spec fn file_kind(root: Seq<char>, p: Seq<u8>, name: Seq<u8>) -> KindView {
    match flags_of(root, text::text_of(p), text::text_of(name)) {
        Some(name_flags) => KindView::Encrypted { name_flags },
        None => KindView::Passthrough,
    }
}

/// The node that a look at the next entry gives.
pub open spec fn new_node(b: BuilderView, look: Look) -> NodeView {
    let f = b.stack.last();
    let (size, mtime) = match look {
        Look::File { size, mtime } => (size, mtime),
        Look::Dir { mtime } => (0, mtime),
        _ => arbitrary(),
    };
    NodeView {
        id: b.next_id as u64,
        parent: b.tree.nodes[f.index].id,
        name: b.entry().name,
        path: b.entry_path(),
        size,
        mtime,
        kind: if look is Dir {
            KindView::Dir { children: Seq::empty() }
        } else {
            file_kind(b.root, b.entry_path(), b.entry().name)
        },
    }
}

/// The walk after a look at its next entry.
pub open spec fn with_look(b: BuilderView, look: Look) -> BuilderView {
    let f = b.stack.last();
    let next = b.stepped_over();
    let n = new_node(b, look);
    let nodes = with_node(b.tree.nodes, f.index, n);
    match look {
        Look::Gone => next,
        Look::Other => BuilderView { next_id: b.next_id + 1, ..next },
        Look::Dir { .. } => BuilderView {
            tree: TreeView { nodes, ..b.tree },
            next_id: b.next_id + 1,
            stack: next.stack.push(
                FrameView {
                    index: b.tree.nodes.len() as int,
                    path: b.entry_path(),
                    listed: false,
                    entries: Seq::empty(),
                    at: 0,
                },
            ),
            ..next
        },
        Look::File { .. } => BuilderView {
            tree: TreeView {
                nodes,
                file_count: b.tree.file_count + 1,
                encrypted_count: b.tree.encrypted_count + if n.kind is Encrypted {
                    1int
                } else {
                    0int
                },
                ..b.tree
            },
            next_id: b.next_id + 1,
            ..next
        },
    }
}

/// A walk that has not begun.
pub open spec fn new_walk(
    source: Seq<char>,
    label: Seq<char>,
    node_path: Seq<char>,
    root: Seq<char>,
    mtime: Timestamp,
    raw: bool,
) -> BuilderView {
    BuilderView {
        tree: TreeView {
            source,
            label,
            nodes: seq![
                NodeView {
                    id: ROOT_ID,
                    parent: ROOT_ID,
                    name: seq![47u8],
                    path: encode_utf8(node_path),
                    size: 0,
                    mtime,
                    kind: KindView::Dir { children: Seq::empty() },
                },
            ],
            encrypted_count: 0,
            file_count: 0,
        },
        root,
        raw,
        next_id: 2,
        stack: seq![
            FrameView {
                index: 0,
                path: encode_utf8(root),
                listed: false,
                entries: Seq::empty(),
                at: 0,
            },
        ],
    }
}

pub open spec fn epoch() -> Timestamp {
    Timestamp { secs: 0, nanos: 0 }
}

fn begin(
    source: String,
    label: String,
    node_path: String,
    root: String,
    mtime: Timestamp,
    raw: bool,
) -> (r: TreeBuilder)
    ensures
        r@ == new_walk(source@, label@, node_path@, root@, mtime, raw),
        r@.wf(),
{
    let children: Vec<NodeId> = Vec::new();
    let mut name: Vec<u8> = Vec::new();
    name.push(47);
    let node = Node {
        id: ROOT_ID,
        parent: ROOT_ID,
        name,
        path: text::bytes_of(node_path.as_str()),
        size: 0,
        mtime,
        kind: NodeKind::Dir { children },
    };
    let mut nodes: Vec<Node> = Vec::new();
    nodes.push(node);
    let mut stack: Vec<Frame> = Vec::new();
    let frame = Frame {
        index: 0,
        path: text::bytes_of(root.as_str()),
        listed: false,
        entries: Vec::new(),
        at: 0,
    };
    stack.push(frame);
    let tree = DiscTree { source, label, nodes, encrypted_count: 0, file_count: 0 };
    let r = TreeBuilder { tree, root, raw, next_id: 2, stack };
    proof {
        let goal = new_walk(source@, label@, node_path@, root@, mtime, raw);
        assert(node.name@ =~= seq![47u8]);
        assert(node@.kind->children =~= Seq::<NodeId>::empty());
        assert(frame@.entries =~= Seq::<EntryView>::empty());
        assert(r@.tree.nodes =~= goal.tree.nodes);
        assert(r@.stack =~= goal.stack);
        assert(r@ =~= goal);
    }
    r
}

/// The name of a mounted disc: that of its mount point.
pub open spec fn label_of_path(p: Seq<char>) -> Seq<char> {
    match path::file_name(p) {
        Some(n) => n,
        None => "BluRay"@,
    }
}

impl DiscTree {
    /// Begins the walk over the mounted volume at `source`, a path without
    /// links. `has_index` tells whether it holds `BDMV/index.bdmv`.
    pub fn scan(source: &str, has_index: bool, mtime: Timestamp) -> (r: Result<
        TreeBuilder,
        ScanError,
    >)
        ensures
            match r {
                Ok(b) => {
                    &&& has_index
                    &&& b@ == new_walk(
                        source@,
                        label_of_path(source@),
                        source@,
                        source@,
                        mtime,
                        false,
                    )
                    &&& b@.wf()
                },
                Err(e) => !has_index && e == ScanError::NotBluRay,
            },
    {
        if !has_index {
            return Err(ScanError::NotBluRay);
        }
        let label = match path::path_file_name(source) {
            Some(n) => n,
            None => text::owned("BluRay"),
        };
        Ok(
            begin(
                text::owned(source),
                label,
                text::owned(source),
                text::owned(source),
                mtime,
                false,
            ),
        )
    }

    /// Begins the walk over a raw volume.
    pub fn scan_udf(udf: &RawUdf, log: &ReadLog) -> (r: Step<Result<TreeBuilder, ScanError>>)
        requires
            udf@.wf(),
        ensures
            match udf@.lookup(log@, "BDMV/index.bdmv"@) {
                Step::Need(q) => r == Step::<Result<TreeBuilder, ScanError>>::Need(q),
                Step::Fail(_) => r == Step::Done(
                    Err::<TreeBuilder, ScanError>(ScanError::NotBluRay),
                ),
                Step::Done(_) => match r {
                    Step::Done(Ok(b)) => {
                        &&& b@ == new_walk(
                            udf@.device,
                            device::sanitized(udf@.label),
                            "/"@,
                            ""@,
                            epoch(),
                            true,
                        )
                        &&& b@.wf()
                    },
                    _ => false,
                },
            },
    {
        match udf.has_bdmv(log) {
            Step::Need(q) => Step::Need(q),
            Step::Fail(e) => Step::Fail(e),
            Step::Done(false) => Step::Done(Err(ScanError::NotBluRay)),
            Step::Done(true) => Step::Done(
                Ok(
                    begin(
                        text::owned(udf.device.as_str()),
                        device::sanitize_label(udf.label.as_str()),
                        text::owned("/"),
                        text::owned(""),
                        Timestamp { secs: 0, nanos: 0 },
                        true,
                    ),
                ),
            ),
        }
    }
}

impl TreeBuilder {
    fn shows(&self, dir: &[u8], name: &[u8]) -> (r: bool)
        ensures
            r == self@.shows(dir@, name@),
    {
        let at_root = if self.raw {
            dir.len() == 0
        } else {
            path::path_eq(text::lossy(dir).as_str(), self.root.as_str())
        };
        let n = text::lossy(name);
        !(at_root && is_hidden_at_root(n.as_str())) && !text::str_same(n.as_str(), ".DS_Store")
    }

    fn child_path(&self, dir: &[u8], name: &[u8]) -> (r: Vec<u8>)
        ensures
            r@ == self@.child_path(dir@, name@),
    {
        if !self.raw {
            path::join_bytes(dir, name)
        } else if dir.len() == 0 {
            vstd::slice::slice_to_vec(name)
        } else {
            let mut b = vstd::slice::slice_to_vec(dir);
            let mut c = vstd::slice::slice_to_vec(name);
            b.push(47);
            b.append(&mut c);
            b
        }
    }

    /// Goes on to where the walk needs something, and says what.
    pub fn next(&mut self) -> (r: WalkNeed)
        requires
            old(self)@.wf(),
        ensures
            final(self)@ == rested(old(self)@),
            r@ == needed(final(self)@),
            final(self)@.wf(),
    {
        let ghost goal = rested(self@);
        loop
            invariant
                goal == rested(self@),
                goal == rested(old(self)@),
                self@.wf(),
            decreases moves_left(self@.stack),
        {
            let ghost b0 = self@;
            if self.stack.len() == 0 {
                return WalkNeed::Nothing;
            }
            let top: usize = self.stack.len() - 1;
            assert(self@.stack.last() == self.stack@[top as int]@);
            if !self.stack[top].listed {
                return WalkNeed::List {
                    path: vstd::slice::slice_to_vec(self.stack[top].path.as_slice()),
                };
            }
            if self.stack[top].at >= self.stack[top].entries.len() {
                self.stack.pop();
                assert(self@.stack =~= b0.stack.drop_last());
                assert(self@ =~= BuilderView { stack: b0.stack.drop_last(), ..b0 });
                proof {
                    assert(forall|i: int| 0 <= i < self@.stack.len() ==> self@.stack[i] == b0.stack[i]);
                }
                continue;
            }
            let at: usize = self.stack[top].at;
            assert(b0.entry() == self.stack@[top as int].entries@[at as int]@);
            if !self.shows(
                self.stack[top].path.as_slice(),
                self.stack[top].entries[at].name.as_slice(),
            ) {
                self.stack[top].at = at + 1;
                assert(self@.stack =~= b0.stepped_over().stack);
                assert(self@ =~= b0.stepped_over());
                proof {
                    assert(self@.stack.drop_last() =~= b0.stack.drop_last());
                }
                continue;
            }
            return WalkNeed::Look {
                path: self.child_path(
                    self.stack[top].path.as_slice(),
                    self.stack[top].entries[at].name.as_slice(),
                ),
                is_dir: self.stack[top].entries[at].is_dir,
            };
        }
    }

    /// Whether the walk waits for the listing of a directory.
    pub fn wants_listing(&self) -> (r: bool)
        ensures
            r == self@.waits_for_listing(),
    {
        let n: usize = self.stack.len();
        if n == 0 {
            return false;
        }
        assert(self@.stack.last() == self.stack@[n - 1]@);
        !self.stack[n - 1].listed
    }

    /// Whether the walk waits for a look at an entry.
    pub fn wants_look(&self) -> (r: bool)
        ensures
            r == self@.waits_for_look(),
    {
        let n: usize = self.stack.len();
        if n == 0 {
            return false;
        }
        assert(self@.stack.last() == self.stack@[n - 1]@);
        self.stack[n - 1].listed && self.stack[n - 1].at < self.stack[n - 1].entries.len()
    }

    /// Takes in the entries of the directory that was to be listed.
    pub fn listed(&mut self, entries: Vec<Entry>)
        requires
            old(self)@.wf(),
            old(self)@.waits_for_listing(),
        ensures
            final(self)@ == with_listing(old(self)@, entry_views(entries@)),
            final(self)@.wf(),
    {
        let ghost b0 = self@;
        let ghost goal = with_listing(b0, entry_views(entries@));
        let top: usize = self.stack.len() - 1;
        assert(b0.stack.last() == self.stack@[top as int]@);
        let kept = if self.raw {
            entries
        } else {
            sort_entries(entries)
        };
        self.stack[top].entries = kept;
        self.stack[top].listed = true;
        self.stack[top].at = 0;
        assert(self@.stack =~= goal.stack);
        assert(self@ =~= goal);
        assert(forall|i: int|
            0 <= i < self@.stack.len() - 1 ==> (#[trigger] self@.stack[i]) == b0.stack[i]);
    }

    /// Takes in what a look at the next entry showed.
    pub fn looked(&mut self, look: Look) -> (r: Result<(), ScanError>)
        requires
            old(self)@.wf(),
            old(self)@.waits_for_look(),
        ensures
            match r {
                Ok(_) => final(self)@ == with_look(old(self)@, look) && (look == Look::Gone || old(
                    self,
                )@.next_id < u64::MAX),
                Err(e) => {
                    &&& e == ScanError::TooMany
                    &&& final(self)@ == old(self)@
                    &&& look != Look::Gone && old(self)@.next_id == u64::MAX
                },
            },
            final(self)@.wf(),
    {
        let ghost b0 = self@;
        let ghost goal = with_look(b0, look);
        let top: usize = self.stack.len() - 1;
        assert(b0.stack.last() == self.stack@[top as int]@);
        assert(frame_ok(b0.stack[top as int], b0.tree.nodes));
        let at: usize = self.stack[top].at;
        let index: usize = self.stack[top].index;
        assert(b0.entry() == self.stack@[top as int].entries@[at as int]@);
        if look != Look::Gone && self.next_id == u64::MAX {
            return Err(ScanError::TooMany);
        }
        let id: u64 = self.next_id;
        let total: usize = self.stack[top].entries.len();
        let held: usize = self.tree.nodes.len();
        assert(at < total);
        assert(self.tree.file_count < held);
        let name = vstd::slice::slice_to_vec(self.stack[top].entries[at].name.as_slice());
        let file = self.child_path(self.stack[top].path.as_slice(), name.as_slice());
        self.stack[top].at = at + 1;
        assert(self@.stack =~= b0.stepped_over().stack);
        match look {
            Look::Gone => {
                assert(self@ =~= goal);
            },
            Look::Other => {
                self.next_id = id + 1;
                assert(self@ =~= goal);
            },
            Look::Dir { mtime } => {
                let none: Vec<NodeId> = Vec::new();
                assert(none@ =~= Seq::<NodeId>::empty());
                let below = vstd::slice::slice_to_vec(file.as_slice());
                self.enter(index, name, file, 0, mtime, NodeKind::Dir { children: none });
                let frame = Frame {
                    index: held,
                    path: below,
                    listed: false,
                    entries: Vec::new(),
                    at: 0,
                };
                assert(frame@.entries =~= Seq::<EntryView>::empty());
                let ghost before = self.stack@;
                self.stack.push(frame);
                assert(frame_views(self.stack@) =~= frame_views(before).push(frame@));
                assert(self@.stack =~= goal.stack);
                assert(self@.tree =~= goal.tree);
                assert(self@ =~= goal);
            },
            Look::File { size, mtime } => {
                let kind = match super::classify(
                    self.root.as_str(),
                    text::lossy(file.as_slice()).as_str(),
                    text::lossy(name.as_slice()).as_str(),
                ) {
                    Some(name_flags) => {
                        self.tree.encrypted_count = self.tree.encrypted_count + 1;
                        NodeKind::Encrypted { name_flags }
                    },
                    None => NodeKind::Passthrough,
                };
                self.tree.file_count = self.tree.file_count + 1;
                self.enter(index, name, file, size, mtime, kind);
                assert(self@.tree =~= goal.tree);
                assert(self@ =~= goal);
            },
        }
        proof {
            lemma_looked_wf(b0, look);
        }
        Ok(())
    }

    /// Adds a node and enters it into its directory.
    fn enter(
        &mut self,
        index: usize,
        name: Vec<u8>,
        file: Vec<u8>,
        size: u64,
        mtime: Timestamp,
        kind: NodeKind,
    )
        requires
            index < old(self)@.tree.nodes.len(),
            old(self)@.tree.nodes[index as int].kind is Dir,
            old(self)@.next_id < u64::MAX,
        ensures
            final(self)@ == (BuilderView {
                tree: TreeView {
                    nodes: with_node(
                        old(self)@.tree.nodes,
                        index as int,
                        NodeView {
                            id: old(self)@.next_id as u64,
                            parent: old(self)@.tree.nodes[index as int].id,
                            name: name@,
                            path: file@,
                            size,
                            mtime,
                            kind: kind@,
                        },
                    ),
                    ..old(self)@.tree
                },
                next_id: old(self)@.next_id + 1,
                ..old(self)@
            }),
            final(self).stack@ == old(self).stack@,
    {
        let ghost nodes = self@.tree.nodes;
        assert(nodes[index as int] == self.tree.nodes@[index as int]@);
        let id: u64 = self.next_id;
        let parent: u64 = self.tree.nodes[index].id;
        match &mut self.tree.nodes[index].kind {
            NodeKind::Dir { children } => {
                children.push(id);
            },
            _ => {},
        }
        let node = Node { id, parent, name, path: file, size, mtime, kind };
        let ghost mid = self.tree.nodes@;
        self.tree.nodes.push(node);
        self.next_id = id + 1;
        proof {
            let d = nodes[index as int];
            let filled = NodeView {
                kind: KindView::Dir { children: d.kind->children.push(id) },
                ..d
            };
            assert(mid[index as int]@ =~= filled);
            assert(node_views(mid) =~= nodes.update(index as int, filled));
            assert(self@.tree.nodes =~= with_node(nodes, index as int, node@));
        }
    }

    /// One step of the walk over a raw volume: a listing or a look. The result
    /// tells whether the walk is over.
    pub fn step_udf(&mut self, udf: &mut RawUdf, log: &ReadLog) -> (r: Step<
        Result<bool, ScanError>,
    >)
        requires
            old(self)@.wf(),
            old(udf)@.wf(),
        ensures
            (r, final(self)@, final(udf)@) == stepped_udf(old(self)@, old(udf)@, log@),
            final(self)@.wf(),
            final(udf)@.wf(),
    {
        match self.next() {
            WalkNeed::Nothing => Step::Done(Ok(true)),
            WalkNeed::List { path } => {
                match udf.list_dir(log, text::lossy(path.as_slice()).as_str()) {
                    Step::Need(q) => Step::Need(q),
                    Step::Fail(e) => Step::Fail(e),
                    Step::Done(found) => {
                        let entries = entries_of(found);
                        self.listed(entries);
                        Step::Done(Ok(false))
                    },
                }
            },
            WalkNeed::Look { path, is_dir } => {
                proof {
                    lemma_rested(old(self)@);
                }
                let look = if is_dir {
                    Look::Dir { mtime: Timestamp { secs: 0, nanos: 0 } }
                } else {
                    let size: u64 = match udf.file_size(
                        log,
                        text::lossy(path.as_slice()).as_str(),
                    ) {
                        Step::Need(q) => {
                            return Step::Need(q);
                        },
                        Step::Fail(_) => 0,
                        Step::Done(n) => n,
                    };
                    Look::File { size, mtime: Timestamp { secs: 0, nanos: 0 } }
                };
                match self.looked(look) {
                    Ok(_) => Step::Done(Ok(false)),
                    Err(e) => Step::Done(Err(e)),
                }
            },
        }
    }

    /// The tree, as far as it was built.
    pub fn into_tree(self) -> (r: DiscTree)
        ensures
            r@ == self@.tree,
    {
        self.tree
    }
}

/// A walk at rest that is in a listed directory waits for a look at an entry
/// that shows.
pub proof fn lemma_rested(b: BuilderView)
    ensures
        ({
            let r = rested(b);
            &&& r.stack.len() > 0 && r.stack.last().listed ==> r.waits_for_look() && r.shows(
                r.stack.last().path,
                r.entry().name,
            )
            &&& r.tree == b.tree && r.root == b.root && r.raw == b.raw && r.next_id == b.next_id
            &&& r.stack.len() <= b.stack.len()
        }),
    decreases moves_left(b.stack),
{
    if b.stack.len() > 0 && b.stack.last().listed {
        if b.stack.last().at >= b.stack.last().entries.len() {
            lemma_rested(BuilderView { stack: b.stack.drop_last(), ..b });
        } else if !b.shows(b.stack.last().path, b.entry().name) {
            assert(b.stepped_over().stack.drop_last() =~= b.stack.drop_last());
            lemma_rested(b.stepped_over());
        }
    }
}

/// The path of an entry of a raw volume is the text that the volume itself finds
/// it by: its names, with slashes between them.
pub proof fn lemma_raw_child_path(b: BuilderView, dir: Seq<char>, name: Seq<char>)
    requires
        b.raw,
    ensures
        ({
            let p = if dir.len() == 0 {
                name
            } else {
                dir + "/"@ + name
            };
            let bytes = b.child_path(encode_utf8(dir), encode_utf8(name));
            bytes == encode_utf8(p) && text::text_of(bytes) == p
        }),
{
    reveal_strlit("/");
    let p = dir + "/"@ + name;
    vstd::utf8::is_ascii_chars_encode_utf8("/"@);
    assert(encode_utf8("/"@) =~= seq![47u8]);
    text::lemma_bytes_of_concat(dir, "/"@);
    text::lemma_bytes_of_concat(dir + "/"@, name);
    assert(encode_utf8(dir) + seq![47u8] =~= encode_utf8(dir).push(47));
    text::lemma_text_of_bytes(p);
    text::lemma_text_of_bytes(name);
    if dir.len() > 0 && encode_utf8(dir).len() == 0 {
        vstd::utf8::encode_utf8_decode_utf8(dir);
        assert(encode_utf8(dir) =~= encode_utf8(Seq::<char>::empty()));
        vstd::utf8::encode_utf8_decode_utf8(Seq::<char>::empty());
    }
}

proof fn lemma_looked_wf(b: BuilderView, look: Look)
    requires
        b.wf(),
        b.waits_for_look(),
    ensures
        with_look(b, look).wf(),
{
    let n = with_look(b, look);
    let top = b.stack.len() - 1;
    assert(frame_ok(b.stack[top], b.tree.nodes));
    assert forall|i: int| 0 <= i < n.stack.len() implies frame_ok(
        #[trigger] n.stack[i],
        n.tree.nodes,
    ) by {
        if i < top {
            assert(n.stack[i] == b.stack[i]);
            assert(frame_ok(b.stack[i], b.tree.nodes));
        }
    }
}

/// What the size of a file that could not be told is taken to be.
pub open spec fn size_or_none(v: RawUdfView, m: Known, rel: Seq<char>) -> u64 {
    match v.meta(m, rel) {
        Step::Done(meta) => meta.size,
        _ => 0,
    }
}

/// The entries of a raw directory.
pub open spec fn raw_entries(v: Seq<space::DirEntryView>) -> Seq<EntryView> {
    v.map_values(
        |e: space::DirEntryView|
            (EntryView { name: encode_utf8(e.name), is_dir: e.is_directory }),
    )
}

/// One step of the walk over a raw volume.
pub open spec fn stepped_udf(b: BuilderView, v: RawUdfView, m: Known) -> (
    Step<Result<bool, ScanError>>,
    BuilderView,
    RawUdfView,
) {
    let r = rested(b);
    match needed(r) {
        NeedView::Nothing => (Step::Done(Ok(true)), r, v),
        NeedView::List { path } => match v.listed(m, text::text_of(path)) {
            Step::Need(q) => (Step::Need(q), r, v),
            Step::Fail(e) => (Step::Fail(e), r, v),
            Step::Done(found) => (Step::Done(Ok(false)), with_listing(r, raw_entries(found)), v),
        },
        NeedView::Look { path, is_dir } => {
            let rel = text::text_of(path);
            let w = if is_dir {
                v
            } else {
                v.remembering(m, rel)
            };
            let look = if is_dir {
                Look::Dir { mtime: epoch() }
            } else {
                Look::File { size: size_or_none(v, m, rel), mtime: epoch() }
            };
            match v.meta(m, rel) {
                Step::Need(q) => if is_dir {
                    looked_udf(r, look, w)
                } else {
                    (Step::Need(q), r, w)
                },
                _ => looked_udf(r, look, w),
            }
        },
    }
}

pub open spec fn looked_udf(r: BuilderView, look: Look, v: RawUdfView) -> (
    Step<Result<bool, ScanError>>,
    BuilderView,
    RawUdfView,
) {
    if r.next_id == u64::MAX {
        (Step::Done(Err(ScanError::TooMany)), r, v)
    } else {
        (Step::Done(Ok(false)), with_look(r, look), v)
    }
}

fn entries_of(found: Vec<space::DirEntry>) -> (r: Vec<Entry>)
    ensures
        entry_views(r@) == raw_entries(space::entry_views(found@)),
{
    let mut out: Vec<Entry> = Vec::new();
    let ghost all = raw_entries(space::entry_views(found@));
    let mut i: usize = 0;
    while i < found.len()
        invariant
            i <= found@.len(),
            all == raw_entries(space::entry_views(found@)),
            out@.len() == i,
            forall|j: int| 0 <= j < i ==> (#[trigger] out@[j])@ == all[j],
        decreases found@.len() - i,
    {
        out.push(Entry {
            name: text::bytes_of(found[i].name.as_str()),
            is_dir: found[i].is_directory,
        });
        i += 1;
    }
    assert(entry_views(out@) =~= all);
    out
}

fn sort_entries(entries: Vec<Entry>) -> (r: Vec<Entry>)
    ensures
        entry_views(r@) == order::sorted(entry_views(entries@), name_rank()),
{
    let ghost all = entry_views(entries@);
    let mut out: Vec<Entry> = Vec::new();
    let mut i: usize = 0;
    assert(all.take(0) =~= Seq::<EntryView>::empty());
    assert(entry_views(out@) =~= Seq::<EntryView>::empty());
    while i < entries.len()
        invariant
            i <= entries@.len(),
            all == entry_views(entries@),
            entry_views(out@) == order::sorted(all.take(i as int), name_rank()),
        decreases entries@.len() - i,
    {
        assert(all.take(i + 1).drop_last() =~= all.take(i as int));
        assert(all.take(i + 1).last() == entries@[i as int]@);
        let e = Entry {
            name: vstd::slice::slice_to_vec(entries[i].name.as_slice()),
            is_dir: entries[i].is_dir,
        };
        assert(e@ == entries@[i as int]@);
        insert_entry(&mut out, e);
        i += 1;
    }
    assert(all.take(i as int) =~= all);
    out
}

fn insert_entry(out: &mut Vec<Entry>, e: Entry)
    ensures
        entry_views(final(out)@) == order::inserted(entry_views(old(out)@), e@, name_rank()),
{
    let ghost all = entry_views(out@);
    let ghost rank = name_rank();
    let name = vstd::slice::slice_to_vec(e.name.as_slice());
    let mut k: usize = out.len();
    assert(all.take(k as int) =~= all);
    while k > 0 && order::rank_bytes(out[k - 1].name.as_slice(), name.as_slice())
        == order::Rank::After
        invariant
            k <= out@.len(),
            name@ == e@.name,
            all == entry_views(out@),
            rank == name_rank(),
            order::slot(all, e@, rank) == order::slot(all.take(k as int), e@, rank),
        decreases k,
    {
        assert(all.take(k as int).drop_last() =~= all.take(k - 1));
        assert(all.take(k as int).last() == out@[k - 1]@);
        k -= 1;
    }
    proof {
        if k > 0 {
            assert(all.take(k as int).last() == out@[k - 1]@);
        }
        order::lemma_slot(all, e@, rank);
    }
    out.insert(k, e);
    assert(entry_views(out@) =~= all.insert(k as int, e@));
}

} // verus!
