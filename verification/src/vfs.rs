//! Read-only NFS view of a disc's tree.

use vstd::prelude::*;
use vstd::utf8::encode_utf8;

use crate::disc;
use crate::disc::{child_named, children_of, node_with, DiscTree, Node, NodeId, NodeView, ROOT_ID};

verus! {

broadcast use vstd::string::group_string_axioms;

/// What a request that cannot be met is answered.
#[derive(Clone, Copy, Debug, PartialEq, Eq, Structural)]
pub enum NfsError {
    NoEntry,
    NotDir,
    IsDir,
    BadCookie,
    ReadOnly,
    NotSupported,
    Io,
}

/// Attributes of a node.
#[derive(Clone, Copy, Debug, PartialEq, Eq, Structural)]
pub struct Attr {
    pub is_dir: bool,
    pub mode: u32,
    pub nlink: u32,
    pub uid: u32,
    pub gid: u32,
    pub size: u64,
    pub used: u64,
    pub fsid: u64,
    pub fileid: u64,
    /// Seconds and nanoseconds of the time of access, change and modification.
    pub seconds: u32,
    pub nseconds: u32,
}

/// A view of a disc.
pub struct BdFs {
    pub tree: DiscTree,
    pub uid: u32,
    pub gid: u32,
    pub fsid: u64,
}

/// A number for the file system, from the bytes of its label.
pub open spec fn folded(bytes: Seq<u8>) -> int
    decreases bytes.len(),
{
    if bytes.len() == 0 {
        0x5bd0_0000
    } else {
        (folded(bytes.drop_last()) * 31 + bytes.last()) % 0x1_0000_0000_0000_0000
    }
}

/// The number of a file system: the same for the same label, and never zero.
pub open spec fn fsid_of(label: Seq<char>) -> u64 {
    (folded(encode_utf8(label)) as u64) | 1
}

fn fold_label(label: &str) -> (r: u64)
    ensures
        r == fsid_of(label@),
{
    let bytes = label.as_bytes();
    let mut h: u64 = 0x5bd0_0000;
    let mut i: usize = 0;
    assert(bytes@.take(0) =~= Seq::<u8>::empty());
    while i < bytes.len()
        invariant
            i <= bytes@.len(),
            h == folded(bytes@.take(i as int)),
        decreases bytes@.len() - i,
    {
        assert(bytes@.take(i + 1).drop_last() =~= bytes@.take(i as int));
        assert(bytes@.take(i + 1).last() == bytes@[i as int]);
        let ghost before = h;
        let m: u64 = h.wrapping_mul(31);
        h = m.wrapping_add(bytes[i] as u64);
        assert(h == (before * 31 + bytes@[i as int]) % 0x1_0000_0000_0000_0000) by {
            assert(m == (before * 31) % 0x1_0000_0000_0000_0000);
        }
        i += 1;
    }
    assert(bytes@.take(i as int) =~= bytes@);
    h | 1
}

/// The attributes of a node. A directory counts its entries and itself.
pub open spec fn attr_of(fs: BdFs, n: NodeView) -> Attr {
    let dir = n.kind is Dir;
    let size = if dir {
        4096
    } else {
        n.size
    };
    Attr {
        is_dir: dir,
        mode: if dir {
            0o555
        } else {
            0o444
        },
        nlink: if dir {
            ((2 + children_of(fs.tree@.nodes, n.id).len()) % 0x1_0000_0000) as u32
        } else {
            1
        },
        uid: fs.uid,
        gid: fs.gid,
        size,
        used: size,
        fsid: fs.fsid,
        fileid: n.id,
        seconds: (n.mtime.secs as int % 0x1_0000_0000) as u32,
        nseconds: n.mtime.nanos,
    }
}

/// The node with this id.
pub open spec fn node_of(fs: BdFs, id: NodeId) -> Result<NodeView, NfsError> {
    match node_with(fs.tree@.nodes, id) {
        Some(n) => Ok(n),
        None => Err(NfsError::NoEntry),
    }
}

/// What a name in a directory is found to be.
pub open spec fn found(fs: BdFs, dirid: NodeId, name: Seq<u8>) -> Result<NodeId, NfsError> {
    match node_of(fs, dirid) {
        Err(e) => Err(e),
        Ok(dir) => if !(dir.kind is Dir) {
            Err(NfsError::NotDir)
        } else if name == seq![46u8] {
            Ok(dirid)
        } else if name == seq![46u8, 46u8] {
            Ok(dir.parent)
        } else {
            match child_named(fs.tree@.nodes, dirid, name) {
                Some(id) => Ok(id),
                None => Err(NfsError::NoEntry),
            }
        },
    }
}

/// An entry of a listing.
pub struct Entry {
    pub fileid: u64,
    pub name: Vec<u8>,
    pub attr: Attr,
}

#[verifier::ext_equal]
pub struct EntryView {
    pub fileid: u64,
    pub name: Seq<u8>,
    pub attr: Attr,
}

impl View for Entry {
    type V = EntryView;

    open spec fn view(&self) -> EntryView {
        EntryView { fileid: self.fileid, name: self.name@, attr: self.attr }
    }
}

/// A page of a listing.
pub struct Page {
    pub entries: Vec<Entry>,
    /// Nothing comes after it.
    pub end: bool,
}

pub open spec fn entry_views(v: Seq<Entry>) -> Seq<EntryView> {
    v.map_values(|e: Entry| e@)
}

/// Where a page starts that goes on after the entry `after`; zero is the start.
pub open spec fn page_start(children: Seq<NodeId>, after: NodeId) -> Option<int> {
    if after == 0 {
        Some(0)
    } else {
        first_place(children, after, 0)
    }
}

/// The place behind the first `id`, from `i` on.
pub open spec fn first_place(children: Seq<NodeId>, id: NodeId, i: int) -> Option<int>
    decreases children.len() - i,
{
    if i < 0 || i >= children.len() {
        None
    } else if children[i] == id {
        Some(i + 1)
    } else {
        first_place(children, id, i + 1)
    }
}

/// The entries of the children `from..to`; a child without a node has none.
pub open spec fn listed(fs: BdFs, children: Seq<NodeId>, from: int, to: int) -> Seq<EntryView>
    decreases to - from,
{
    if from >= to {
        Seq::empty()
    } else {
        let before = listed(fs, children, from, to - 1);
        match node_with(fs.tree@.nodes, children[to - 1]) {
            Some(n) => before.push(
                EntryView { fileid: children[to - 1], name: n.name, attr: attr_of(fs, n) },
            ),
            None => before,
        }
    }
}

/// A page of at most `max` entries of a directory.
pub open spec fn page_of(fs: BdFs, dirid: NodeId, after: NodeId, max: int) -> Result<
    (Seq<EntryView>, bool),
    NfsError,
> {
    match node_of(fs, dirid) {
        Err(e) => Err(e),
        Ok(dir) => if !(dir.kind is Dir) {
            Err(NfsError::NotDir)
        } else {
            let children = children_of(fs.tree@.nodes, dirid);
            match page_start(children, after) {
                None => Err(NfsError::BadCookie),
                Some(start) => {
                    let to = if start + max < children.len() {
                        start + max
                    } else {
                        children.len() as int
                    };
                    let entries = listed(fs, children, start, to);
                    Ok((entries, start + entries.len() >= children.len()))
                },
            }
        },
    }
}

/// A read at `offset` that gave `n` bytes reached the end of a file of `size`
/// bytes.
pub open spec fn at_end(size: u64, offset: u64, n: int) -> bool {
    offset + n >= size
}

/// A request that would change the disc, or follow a link.
#[derive(Clone, Copy, Debug, PartialEq, Eq, Structural)]
pub enum Refused {
    SetAttr,
    Write,
    Create,
    CreateExclusive,
    MakeDir,
    Remove,
    Rename,
    Symlink,
    ReadLink,
}

fn same_name(a: &[u8], b: &[u8]) -> (r: bool)
    ensures
        r == (a@ == b@),
{
    if a.len() != b.len() {
        return false;
    }
    let mut i: usize = 0;
    while i < a.len()
        invariant
            i <= a@.len(),
            a@.len() == b@.len(),
            forall|j: int| 0 <= j < i ==> a@[j] == b@[j],
        decreases a@.len() - i,
    {
        if a[i] != b[i] {
            return false;
        }
        i += 1;
    }
    assert(a@ =~= b@);
    true
}

impl BdFs {
    /// A view of `tree` whose files belong to `uid` and `gid`.
    pub fn new(tree: DiscTree, uid: u32, gid: u32) -> (r: BdFs)
        ensures
            r.tree == tree,
            r.uid == uid,
            r.gid == gid,
            r.fsid == fsid_of(tree@.label),
    {
        let fsid: u64 = fold_label(tree.label.as_str());
        BdFs { tree, uid, gid, fsid }
    }

    pub fn root_dir(&self) -> (r: NodeId)
        ensures
            r == ROOT_ID,
    {
        ROOT_ID
    }

    fn attr(&self, node: &Node) -> (r: Attr)
        ensures
            r == attr_of(*self, node@),
    {
        let dir = node.is_dir();
        let size: u64 = if dir {
            4096
        } else {
            node.size
        };
        let nlink: u32 = if dir {
            let n: u64 = self.tree.children(node.id).len() as u64;
            ((n % 0x1_0000_0000 + 2) % 0x1_0000_0000) as u32
        } else {
            1
        };
        Attr {
            is_dir: dir,
            mode: if dir {
                0o555
            } else {
                0o444
            },
            nlink,
            uid: self.uid,
            gid: self.gid,
            size,
            used: size,
            fsid: self.fsid,
            fileid: node.id,
            seconds: (node.mtime.secs % 0x1_0000_0000) as u32,
            nseconds: node.mtime.nanos,
        }
    }

    /// The node with this id.
    pub fn node(&self, id: NodeId) -> (r: Result<&Node, NfsError>)
        ensures
            match r {
                Ok(n) => node_of(*self, id) == Ok::<NodeView, NfsError>(n@),
                Err(e) => node_of(*self, id) == Err::<NodeView, NfsError>(e),
            },
    {
        match self.tree.get(id) {
            Some(n) => Ok(n),
            None => Err(NfsError::NoEntry),
        }
    }

    pub fn lookup(&self, dirid: NodeId, name: &[u8]) -> (r: Result<NodeId, NfsError>)
        ensures
            r == found(*self, dirid, name@),
    {
        let dir = match self.node(dirid) {
            Ok(n) => n,
            Err(e) => {
                return Err(e);
            },
        };
        if !dir.is_dir() {
            return Err(NfsError::NotDir);
        }
        if same_name(name, &[46u8]) {
            assert(name@ =~= seq![46u8]);
            return Ok(dirid);
        }
        assert([46u8]@ =~= seq![46u8]);
        assert([46u8, 46u8]@ =~= seq![46u8, 46u8]);
        if same_name(name, &[46u8, 46u8]) {
            return Ok(dir.parent);
        }
        match self.tree.lookup(dirid, name) {
            Some(id) => Ok(id),
            None => Err(NfsError::NoEntry),
        }
    }

    pub fn getattr(&self, id: NodeId) -> (r: Result<Attr, NfsError>)
        ensures
            r == match node_of(*self, id) {
                Ok(n) => Ok(attr_of(*self, n)),
                Err(e) => Err(e),
            },
            r matches Ok(a) ==> (node_of(*self, id) matches Ok(n) && a.fileid == n.id && (!(
            n.kind is Dir) ==> a.size == n.size && a.used == n.size)),
    {
        match self.node(id) {
            Ok(n) => Ok(self.attr(n)),
            Err(e) => Err(e),
        }
    }

    /// The file that a read is about.
    pub fn read_target(&self, id: NodeId) -> (r: Result<&Node, NfsError>)
        ensures
            match r {
                Ok(n) => node_of(*self, id) == Ok::<NodeView, NfsError>(n@) && !(n@.kind is Dir),
                Err(e) => match node_of(*self, id) {
                    Ok(n) => n.kind is Dir && e == NfsError::IsDir,
                    Err(x) => e == x,
                },
            },
    {
        match self.node(id) {
            Ok(n) => if n.is_dir() {
                Err(NfsError::IsDir)
            } else {
                Ok(n)
            },
            Err(e) => Err(e),
        }
    }

    /// Whether a read at `offset` that gave `n` bytes reached the end of the
    /// file.
    pub fn read_eof(&self, id: NodeId, offset: u64, n: usize) -> (r: Result<bool, NfsError>)
        ensures
            r == match node_of(*self, id) {
                Ok(f) => Ok(offset + n >= f.size),
                Err(e) => Err(e),
            },
            r == match node_of(*self, id) {
                Ok(f) => Ok(at_end(f.size, offset, n as int)),
                Err(e) => Err(e),
            },
    {
        match self.node(id) {
            Ok(f) => Ok(offset >= f.size || n as u64 >= f.size - offset),
            Err(e) => Err(e),
        }
    }

    /// At most `max_entries` entries of a directory, after the entry
    /// `start_after`.
    pub fn readdir(&self, dirid: NodeId, start_after: NodeId, max_entries: usize) -> (r: Result<
        Page,
        NfsError,
    >)
        ensures
            match r {
                Ok(p) => page_of(*self, dirid, start_after, max_entries as int) == Ok::<
                    (Seq<EntryView>, bool),
                    NfsError,
                >((entry_views(p.entries@), p.end)),
                Err(e) => page_of(*self, dirid, start_after, max_entries as int) == Err::<
                    (Seq<EntryView>, bool),
                    NfsError,
                >(e),
            },
    {
        let dir = match self.node(dirid) {
            Ok(n) => n,
            Err(e) => {
                return Err(e);
            },
        };
        if !dir.is_dir() {
            return Err(NfsError::NotDir);
        }
        let children = self.tree.children(dirid);
        let start: usize = if start_after == 0 {
            0
        } else {
            match place_after(children.as_slice(), start_after) {
                Some(p) => p,
                None => {
                    return Err(NfsError::BadCookie);
                },
            }
        };
        let to: usize = if max_entries < children.len() - start {
            start + max_entries
        } else {
            children.len()
        };
        let mut entries: Vec<Entry> = Vec::new();
        assert(entry_views(entries@) =~= Seq::<EntryView>::empty());
        let mut i: usize = start;
        while i < to
            invariant
                start <= i <= to <= children@.len(),
                entry_views(entries@) == listed(*self, children@, start as int, i as int),
                entries@.len() <= i - start,
            decreases to - i,
        {
            if let Some(child) = self.tree.get(children[i]) {
                let ghost before = entry_views(entries@);
                let e = Entry {
                    fileid: children[i],
                    name: vstd::slice::slice_to_vec(child.name.as_slice()),
                    attr: self.attr(child),
                };
                entries.push(e);
                assert(entry_views(entries@) =~= before.push(e@));
            }
            i += 1;
        }
        let end = entries.len() >= children.len() - start;
        Ok(Page { entries, end })
    }

    /// What a request is answered that would change the disc or follow a link.
    pub fn refuse(&self, request: Refused) -> (r: NfsError)
        ensures
            r == if request == Refused::ReadLink {
                NfsError::NotSupported
            } else {
                NfsError::ReadOnly
            },
    {
        match request {
            Refused::ReadLink => NfsError::NotSupported,
            _ => NfsError::ReadOnly,
        }
    }
}

fn place_after(children: &[NodeId], id: NodeId) -> (r: Option<usize>)
    ensures
        match r {
            Some(p) => first_place(children@, id, 0) == Some(p as int) && p <= children@.len(),
            None => first_place(children@, id, 0) is None,
        },
{
    let mut i: usize = 0;
    while i < children.len()
        invariant
            i <= children@.len(),
            first_place(children@, id, 0) == first_place(children@, id, i as int),
        decreases children@.len() - i,
    {
        if children[i] == id {
            return Some(i + 1);
        }
        i += 1;
    }
    None
}

// ───────────────────────── laws ─────────────────────────

/// The number of a file system is never zero.
pub proof fn lemma_fsid_not_zero(label: Seq<char>)
    ensures
        fsid_of(label) != 0,
{
    let h = folded(encode_utf8(label)) as u64;
    assert(h | 1 != 0) by (bit_vector);
}

/// A name that is to be left out of the view cannot be looked up in its root.
pub proof fn lemma_hidden_not_found(fs: BdFs, root: Seq<char>, name: Seq<char>)
    requires
        disc::law::tree_sound(fs.tree@, root),
        disc::walk::hidden_at_root(name),
        encode_utf8(name) != seq![46u8],
        encode_utf8(name) != seq![46u8, 46u8],
    ensures
        found(fs, ROOT_ID, encode_utf8(name)) == Err::<NodeId, NfsError>(NfsError::NoEntry),
{
    disc::law::lemma_root_found(fs.tree@, root);
    disc::law::lemma_hidden_has_no_node(fs.tree@, root, name);
}

proof fn lemma_first_place(children: Seq<NodeId>, k: int, i: int)
    requires
        children.no_duplicates(),
        0 <= i <= k < children.len(),
    ensures
        first_place(children, children[k], i) == Some(k + 1),
    decreases k - i,
{
    if i < k {
        lemma_first_place(children, k, i + 1);
    }
}

proof fn lemma_listed_all(fs: BdFs, children: Seq<NodeId>, from: int, to: int)
    requires
        0 <= from <= to <= children.len(),
        forall|k: int|
            0 <= k < children.len() ==> node_with(fs.tree@.nodes, #[trigger] children[k]) is Some,
    ensures
        listed(fs, children, from, to).len() == to - from,
        forall|k: int|
            from <= k < to ==> (#[trigger] listed(fs, children, from, to)[k - from]).fileid
                == children[k],
    decreases to - from,
{
    if from < to {
        lemma_listed_all(fs, children, from, to - 1);
        assert(node_with(fs.tree@.nodes, children[to - 1]) is Some);
        let before = listed(fs, children, from, to - 1);
        let all = listed(fs, children, from, to);
        assert forall|k: int| from <= k < to implies (#[trigger] all[k - from]).fileid
            == children[k] by {
            if k < to - 1 {
                assert(all[k - from] == before[k - from]);
            }
        }
    }
}

/// Pages follow each other without a gap: a page holds the next entries of its
/// directory, in order, and the page that goes on after its last entry starts
/// right behind it. It says that it is the last one just when nothing is left.
pub proof fn lemma_pages_follow(
    fs: BdFs,
    root: Seq<char>,
    dirid: NodeId,
    after: NodeId,
    max: int,
)
    requires
        disc::law::tree_sound(fs.tree@, root),
        max > 0,
        page_of(fs, dirid, after, max) is Ok,
    ensures
        ({
            let children = children_of(fs.tree@.nodes, dirid);
            let start = page_start(children, after)->0;
            let (entries, end) = page_of(fs, dirid, after, max)->Ok_0;
            &&& 0 <= start <= children.len()
            &&& start + entries.len() <= children.len()
            &&& forall|k: int|
                0 <= k < entries.len() ==> (#[trigger] entries[k]).fileid == children[start + k]
            &&& end == (start + entries.len() == children.len())
            &&& entries.len() > 0 ==> page_start(children, entries.last().fileid) == Some(
                start + entries.len(),
            )
        }),
{
    let nodes = fs.tree@.nodes;
    let children = children_of(nodes, dirid);
    let start = page_start(children, after)->0;
    lemma_first_place_range(children, after, 0);
    assert forall|k: int| 0 <= k < children.len() implies node_with(
        nodes,
        #[trigger] children[k],
    ) is Some by {
        disc::law::lemma_children_found(fs.tree@, root, dirid, k);
    }
    lemma_children_distinct(fs.tree@, root, dirid);
    let to = if start + max < children.len() {
        start + max
    } else {
        children.len() as int
    };
    lemma_listed_all(fs, children, start, to);
    let entries = listed(fs, children, start, to);
    assert forall|k: int| 0 <= k < entries.len() implies (#[trigger] entries[k]).fileid
        == children[start + k] by {
        assert(entries[(start + k) - start].fileid == children[start + k]);
    }
    if entries.len() > 0 {
        let last = to - 1;
        assert(entries[last - start].fileid == children[last]);
        lemma_first_place(children, last, 0);
        assert(children[last] >= 1);
    }
}

proof fn lemma_first_place_range(children: Seq<NodeId>, id: NodeId, i: int)
    requires
        0 <= i,
    ensures
        match first_place(children, id, i) {
            Some(p) => i < p <= children.len(),
            None => true,
        },
    decreases children.len() - i,
{
    if i < children.len() {
        lemma_first_place_range(children, id, i + 1);
    }
}

proof fn lemma_children_distinct(t: disc::TreeView, root: Seq<char>, dirid: NodeId)
    requires
        disc::law::tree_sound(t, root),
    ensures
        children_of(t.nodes, dirid).no_duplicates(),
        forall|k: int|
            0 <= k < children_of(t.nodes, dirid).len() ==> #[trigger] children_of(
                t.nodes,
                dirid,
            )[k] >= 1,
{
    disc::law::lemma_children_increase(t, root, dirid);
}

/// A read that gave all the bytes that were asked for, or all that were left,
/// says that it reached the end just when the request did.
pub proof fn lemma_eof_means_end(size: u64, offset: u64, count: int, n: int)
    requires
        count >= 0,
        n == if offset >= size {
            0
        } else {
            crate::decrypt::request_end(size, offset, count) - offset
        },
    ensures
        (offset + n >= size) == (offset + count >= size),
{
}

proof fn lemma_node_with_is(nodes: Seq<NodeView>, id: NodeId)
    ensures
        match node_with(nodes, id) {
            Some(n) => n.id == id && nodes.contains(n),
            None => forall|i: int| 0 <= i < nodes.len() ==> (#[trigger] nodes[i]).id != id,
        },
    decreases nodes.len(),
{
    if nodes.len() > 0 {
        let d = nodes.drop_last();
        lemma_node_with_is(d, id);
        if nodes.last().id == id {
            assert(nodes[nodes.len() - 1] == nodes.last());
        } else {
            match node_with(d, id) {
                Some(n) => {
                    let i = choose|i: int| 0 <= i < d.len() && d[i] == n;
                    assert(nodes[i] == n);
                },
                None => {
                    assert forall|i: int| 0 <= i < nodes.len() implies (#[trigger] nodes[i]).id
                        != id by {
                        if i < d.len() {
                            assert(d[i] == nodes[i]);
                        }
                    }
                },
            }
        }
    }
}

/// A request about an id that no node has is answered that there is no such
/// entry; any other is about a node with that id.
pub proof fn lemma_ids(fs: BdFs, id: NodeId)
    ensures
        match node_of(fs, id) {
            Ok(n) => n.id == id && fs.tree@.nodes.contains(n),
            Err(e) => {
                &&& e == NfsError::NoEntry
                &&& forall|i: int|
                    0 <= i < fs.tree@.nodes.len() ==> (#[trigger] fs.tree@.nodes[i]).id != id
            },
        },
{
    lemma_node_with_is(fs.tree@.nodes, id);
}

/// The attributes of a file tell its own size, at which a read says that the file
/// ends, and that it can be read and no more. A directory can be listed, and
/// counts what lies in it.
pub proof fn lemma_attributes(fs: BdFs, id: NodeId, offset: u64, n: int)
    requires
        node_of(fs, id) is Ok,
        n >= 0,
    ensures
        ({
            let node = node_of(fs, id)->Ok_0;
            let a = attr_of(fs, node);
            &&& a.fileid == id
            &&& a.uid == fs.uid && a.gid == fs.gid && a.fsid == fs.fsid
            &&& a.is_dir <==> node.kind is Dir
            &&& !(node.kind is Dir) ==> {
                &&& a.size == node.size && a.used == node.size
                &&& a.mode == 0o444 && a.nlink == 1
                &&& at_end(node.size, offset, n) <==> offset + n >= a.size
            }
            &&& node.kind is Dir ==> {
                &&& a.mode == 0o555 && a.size == 4096 && a.used == 4096
                &&& node.kind->children.len() <= 0xFFFF_FFFD ==> a.nlink == 2
                    + node.kind->children.len()
            }
            &&& a.nseconds == node.mtime.nanos
            &&& node.mtime.secs <= u32::MAX ==> a.seconds == node.mtime.secs
        }),
{
    lemma_node_with_is(fs.tree@.nodes, id);
}

proof fn lemma_first_place_is(children: Seq<NodeId>, id: NodeId, i: int)
    requires
        0 <= i,
    ensures
        match first_place(children, id, i) {
            Some(p) => i < p <= children.len() && children[p - 1] == id && (forall|j: int|
                i <= j < p - 1 ==> #[trigger] children[j] != id),
            None => forall|j: int| i <= j < children.len() ==> #[trigger] children[j] != id,
        },
    decreases children.len() - i,
{
    if i < children.len() && children[i] != id {
        lemma_first_place_is(children, id, i + 1);
    }
}

/// A page holds the next entries of its directory, as many as it may: from the
/// first one on, or from the one behind the entry that it goes on after. Each
/// tells the id, the name and the attributes of a node that lies there. An entry
/// that is not in the directory cannot be gone on after.
pub proof fn lemma_page_holds(
    fs: BdFs,
    root: Seq<char>,
    dirid: NodeId,
    after: NodeId,
    max: int,
)
    requires
        disc::law::tree_sound(fs.tree@, root),
        max >= 0,
        node_of(fs, dirid) is Ok,
        node_of(fs, dirid)->Ok_0.kind is Dir,
    ensures
        ({
            let children = node_of(fs, dirid)->Ok_0.kind->children;
            match page_of(fs, dirid, after, max) {
                Err(e) => {
                    &&& e == NfsError::BadCookie
                    &&& after != 0 && !children.contains(after)
                },
                Ok((entries, end)) => {
                    let start = if after == 0 {
                        0
                    } else {
                        children.index_of(after) + 1
                    };
                    &&& after == 0 || children.contains(after)
                    &&& entries.len() == vstd::math::min(max, children.len() - start)
                    &&& end <==> start + entries.len() == children.len()
                    &&& forall|k: int|
                        0 <= k < entries.len() ==> {
                            let e = #[trigger] entries[k];
                            &&& e.fileid == children[start + k]
                            &&& node_of(fs, e.fileid) matches Ok(c) && c.parent == dirid && e.name
                                == c.name && e.attr == attr_of(fs, c) && (!(c.kind is Dir)
                                ==> e.attr.size == c.size)
                        }
                },
            }
        }),
{
    let nodes = fs.tree@.nodes;
    let children = children_of(nodes, dirid);
    lemma_node_with_is(nodes, dirid);
    lemma_first_place_is(children, after, 0);
    lemma_children_distinct(fs.tree@, root, dirid);
    assert forall|k: int| 0 <= k < children.len() implies node_with(
        nodes,
        #[trigger] children[k],
    ) is Some by {
        disc::law::lemma_children_found(fs.tree@, root, dirid, k);
    }
    match page_start(children, after) {
        None => {
            assert(!children.contains(after));
        },
        Some(start) => {
            if after != 0 {
                assert(children[start - 1] == after);
                assert(children.contains(after));
                let at = children.index_of(after);
                assert(0 <= at < children.len() && children[at] == after);
                assert(at == start - 1);
            }
            let to = if start + max < children.len() {
                start + max
            } else {
                children.len() as int
            };
            lemma_listed_all(fs, children, start, to);
            let entries = listed(fs, children, start, to);
            assert forall|k: int| 0 <= k < entries.len() implies ({
                let e = #[trigger] entries[k];
                &&& e.fileid == children[start + k]
                &&& node_of(fs, e.fileid) matches Ok(c) && c.parent == dirid && e.name == c.name
                    && e.attr == attr_of(fs, c) && (!(c.kind is Dir) ==> e.attr.size == c.size)
            }) by {
                assert(entries[(start + k) - start].fileid == children[start + k]);
                disc::law::lemma_children_found(fs.tree@, root, dirid, start + k);
                lemma_listed_is(fs, children, start, to, k);
            }
        },
    }
}

proof fn lemma_listed_is(fs: BdFs, children: Seq<NodeId>, from: int, to: int, k: int)
    requires
        0 <= from <= to <= children.len(),
        0 <= k < to - from,
        forall|j: int|
            0 <= j < children.len() ==> node_with(fs.tree@.nodes, #[trigger] children[j]) is Some,
    ensures
        ({
            let e = listed(fs, children, from, to)[k];
            let c = node_with(fs.tree@.nodes, children[from + k])->0;
            e.name == c.name && e.attr == attr_of(fs, c)
        }),
    decreases to - from,
{
    lemma_listed_all(fs, children, from, to - 1);
    assert(node_with(fs.tree@.nodes, children[to - 1]) is Some);
    if k < to - 1 - from {
        lemma_listed_is(fs, children, from, to - 1, k);
    }
}

/// What a request about a directory is answered where there is none: there is no
/// such entry, or it is not a directory.
pub proof fn lemma_no_directory(
    fs: BdFs,
    dirid: NodeId,
    name: Seq<u8>,
    after: NodeId,
    max: int,
)
    ensures
        node_of(fs, dirid) is Err ==> found(fs, dirid, name) == Err::<NodeId, NfsError>(
            NfsError::NoEntry,
        ) && page_of(fs, dirid, after, max) == Err::<(Seq<EntryView>, bool), NfsError>(
            NfsError::NoEntry,
        ),
        node_of(fs, dirid) matches Ok(n) && !(n.kind is Dir) ==> found(fs, dirid, name) == Err::<
            NodeId,
            NfsError,
        >(NfsError::NotDir) && page_of(fs, dirid, after, max) == Err::<
            (Seq<EntryView>, bool),
            NfsError,
        >(NfsError::NotDir),
{
}

/// A name in a directory is found to be the node of that name that lies there,
/// whichever that is, and no name is found that no node there has. One dot is the
/// directory itself, and two are the one that it lies in.
pub proof fn lemma_lookup_finds(fs: BdFs, root: Seq<char>, dirid: NodeId, name: Seq<u8>, i: int)
    requires
        disc::law::tree_sound(fs.tree@, root),
        node_of(fs, dirid) is Ok,
        node_of(fs, dirid)->Ok_0.kind is Dir,
    ensures
        found(fs, dirid, seq![0x2e]) == Ok::<NodeId, NfsError>(dirid),
        found(fs, dirid, seq![0x2e, 0x2e]) == Ok::<NodeId, NfsError>(
            node_of(fs, dirid)->Ok_0.parent,
        ),
        name != seq![0x2eu8] && name != seq![0x2eu8, 0x2eu8] ==> match found(fs, dirid, name) {
            Ok(id) => node_of(fs, id) matches Ok(c) && c.parent == dirid && c.name == name,
            Err(e) => e == NfsError::NoEntry && (0 < i < fs.tree@.nodes.len() ==> !(
            fs.tree@.nodes[i].parent == dirid && fs.tree@.nodes[i].name == name)),
        },
{
    disc::law::lemma_lookup_listed(fs.tree@, root, dirid, name);
    assert(seq![0x2eu8] != seq![0x2eu8, 0x2eu8]) by {
        assert(seq![0x2eu8].len() != seq![0x2eu8, 0x2eu8].len());
    }
    if child_named(fs.tree@.nodes, dirid, name) is None && 0 < i < fs.tree@.nodes.len() {
        lemma_not_named(fs.tree@.nodes, dirid, name, i);
    }
}

proof fn lemma_not_named(nodes: Seq<NodeView>, dirid: NodeId, name: Seq<u8>, i: int)
    requires
        child_named(nodes, dirid, name) is None,
        0 < i < nodes.len(),
    ensures
        !(nodes[i].parent == dirid && nodes[i].name == name),
    decreases nodes.len(),
{
    if i < nodes.len() - 1 {
        lemma_not_named(nodes.drop_last(), dirid, name, i);
        assert(nodes.drop_last()[i] == nodes[i]);
    } else {
        assert(nodes.last() == nodes[i]);
    }
}

/// The number of a file system is made of all bytes of its label, in order: each
/// counts 31 times as much as the one after it, and the number is odd.
pub proof fn lemma_fsid(label: Seq<char>, bytes: Seq<u8>, b: u8)
    ensures
        folded(Seq::<u8>::empty()) == 0x5bd0_0000,
        folded(bytes.push(b)) == (31 * folded(bytes) + b) % 0x1_0000_0000_0000_0000,
        fsid_of(label) == folded(encode_utf8(label)) || fsid_of(label) == folded(
            encode_utf8(label),
        ) + 1,
        fsid_of(label) % 2 == 1,
{
    assert(bytes.push(b).drop_last() =~= bytes);
    let h = folded(encode_utf8(label)) as u64;
    lemma_folded_range(encode_utf8(label));
    assert(h | 1 == h || h | 1 == h + 1) by (bit_vector);
    assert((h | 1) % 2 == 1) by (bit_vector);
}

proof fn lemma_folded_range(bytes: Seq<u8>)
    ensures
        0 <= folded(bytes) < 0x1_0000_0000_0000_0000,
    decreases bytes.len(),
{
    if bytes.len() > 0 {
        lemma_folded_range(bytes.drop_last());
    }
}

} // verus!
