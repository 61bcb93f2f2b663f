//! Blu-ray volumes and the virtual (decrypted) directory tree.
//!
//! The tree mirrors the disc without its copy-protection directories. Stream
//! files carry the name flags that decrypt them; every other file is served as
//! it is.

pub mod law;
pub mod mirror;
pub mod stream;
pub mod view;
pub mod walk;

use vstd::prelude::*;

use crate::mmbd;
use crate::mount::MountEntry;
use crate::order;
use crate::path;
use crate::plist;
use crate::text;

verus! {

broadcast use vstd::string::group_string_axioms;

pub type NodeId = u64;

pub const ROOT_ID: NodeId = 1;

/// A time, as seconds and nanoseconds since the epoch.
#[derive(Clone, Copy, Debug, PartialEq, Eq, Structural)]
pub struct Timestamp {
    pub secs: u64,
    pub nanos: u32,
}

pub enum NodeKind {
    Dir { children: Vec<NodeId> },
    /// Served byte for byte from `path`.
    Passthrough,
    /// Served through the decryption engine with these name flags.
    Encrypted { name_flags: u32 },
}

pub enum KindView {
    Dir { children: Seq<NodeId> },
    Passthrough,
    Encrypted { name_flags: u32 },
}

impl View for NodeKind {
    type V = KindView;

    open spec fn view(&self) -> KindView {
        match *self {
            NodeKind::Dir { children } => KindView::Dir { children: children@ },
            NodeKind::Passthrough => KindView::Passthrough,
            NodeKind::Encrypted { name_flags } => KindView::Encrypted { name_flags },
        }
    }
}

pub struct Node {
    pub id: NodeId,
    pub parent: NodeId,
    pub name: Vec<u8>,
    /// Path on the real (encrypted) volume.
    pub path: Vec<u8>,
    pub size: u64,
    pub mtime: Timestamp,
    pub kind: NodeKind,
}

#[verifier::ext_equal]
pub struct NodeView {
    pub id: NodeId,
    pub parent: NodeId,
    pub name: Seq<u8>,
    pub path: Seq<u8>,
    pub size: u64,
    pub mtime: Timestamp,
    pub kind: KindView,
}

impl View for Node {
    type V = NodeView;

    open spec fn view(&self) -> NodeView {
        NodeView {
            id: self.id,
            parent: self.parent,
            name: self.name@,
            path: self.path@,
            size: self.size,
            mtime: self.mtime,
            kind: self.kind@,
        }
    }
}

impl Node {
    /// The path as text.
    pub fn path_text(&self) -> (r: String)
        ensures
            r@ == text::text_of(self@.path),
    {
        text::lossy(self.path.as_slice())
    }

    pub fn is_dir(&self) -> (r: bool)
        ensures
            r == (self@.kind is Dir),
    {
        match self.kind {
            NodeKind::Dir { .. } => true,
            _ => false,
        }
    }
}

// ───────────────────────── classification ─────────────────────────

/// The components of `p` below `root`, or all of them where `p` is not below.
pub open spec fn below(root: Seq<char>, p: Seq<char>) -> Seq<Seq<char>> {
    if path::comps(root).is_prefix_of(path::comps(p)) {
        path::comps(p).skip(path::comps(root).len() as int)
    } else {
        path::comps(p)
    }
}

/// The name flags of an encrypted stream: an M2TS file in `BDMV/STREAM` or an
/// SSIF file in `BDMV/STREAM/SSIF`, in whichever case, whose name is a clip
/// number. Other files need no decryption.
pub open spec fn flags_of(root: Seq<char>, p: Seq<char>, name: Seq<char>) -> Option<u32> {
    let c = below(root, p);
    let stream = c.len() >= 3 && text::upper(c[0]) == "BDMV"@ && text::upper(c[1]) == "STREAM"@;
    if stream && c.len() == 3 && ".m2ts"@.is_suffix_of(text::lower(name)) {
        match mmbd::clip_of(name) {
            Some(n) => Some(mmbd::FILE_M2TS | n),
            None => None,
        }
    } else if stream && c.len() == 4 && text::upper(c[2]) == "SSIF"@ && ".ssif"@.is_suffix_of(
        text::lower(name),
    ) {
        match mmbd::clip_of(name) {
            Some(n) => Some(mmbd::FILE_SSIF | n),
            None => None,
        }
    } else {
        None
    }
}

fn upper_is(c: &[char], word: &str) -> (r: bool)
    ensures
        r == (text::upper(c@) == word@),
{
    text::same(text::to_upper(c).as_slice(), text::chars_of(word).as_slice())
}

fn lower_ends(name: &str, tail: &str) -> (r: bool)
    ensures
        r == tail@.is_suffix_of(text::lower(name@)),
{
    let low = text::to_lower(text::chars_of(name).as_slice());
    text::ends_with(low.as_slice(), text::chars_of(tail).as_slice())
}

/// Decides whether a file needs decryption, and with which name flags.
pub fn classify(root: &str, file: &str, name: &str) -> (r: Option<u32>)
    ensures
        r == flags_of(root@, file@, name@),
        r matches Some(f) ==> stream::named_by(name@, f),
{
    proof {
        stream::lemma_flags_name(root@, file@, name@);
    }
    let all = path::components(file);
    let skip: usize = if path::path_starts_with(file, root) {
        path::components(root).len()
    } else {
        0
    };
    let ghost c = below(root@, file@);
    assert(text::texts(all@).skip(skip as int) =~= c);
    assert(forall|i: int| 0 <= i < c.len() ==> #[trigger] c[i] == all@[skip + i]@);
    let n: usize = all.len() - skip;
    if n < 3 || !upper_is(all[skip].as_slice(), "BDMV") || !upper_is(
        all[skip + 1].as_slice(),
        "STREAM",
    ) {
        return None;
    }
    if n == 3 && lower_ends(name, ".m2ts") {
        match mmbd::clip_number(name) {
            Some(k) => Some(mmbd::FILE_M2TS | k),
            None => None,
        }
    } else if n == 4 && upper_is(all[skip + 2].as_slice(), "SSIF") && lower_ends(name, ".ssif") {
        match mmbd::clip_number(name) {
            Some(k) => Some(mmbd::FILE_SSIF | k),
            None => None,
        }
    } else {
        None
    }
}

// ───────────────────────── the tree ─────────────────────────

/// In-memory snapshot of a disc's directory structure.
pub struct DiscTree {
    pub source: String,
    pub label: String,
    /// The nodes by increasing id, the root first.
    pub nodes: Vec<Node>,
    pub encrypted_count: usize,
    pub file_count: usize,
}

pub open spec fn node_views(v: Seq<Node>) -> Seq<NodeView> {
    v.map_values(|n: Node| n@)
}

#[verifier::ext_equal]
pub struct TreeView {
    pub source: Seq<char>,
    pub label: Seq<char>,
    pub nodes: Seq<NodeView>,
    pub encrypted_count: int,
    pub file_count: int,
}

impl View for DiscTree {
    type V = TreeView;

    open spec fn view(&self) -> TreeView {
        TreeView {
            source: self.source@,
            label: self.label@,
            nodes: node_views(self.nodes@),
            encrypted_count: self.encrypted_count as int,
            file_count: self.file_count as int,
        }
    }
}

/// The nodes stand by increasing id.
pub open spec fn ids_increase(nodes: Seq<NodeView>) -> bool {
    forall|i: int, j: int| 0 <= i < j < nodes.len() ==> (#[trigger] nodes[i]).id < (
    #[trigger] nodes[j]).id
}

/// The node with this id.
pub open spec fn node_with(nodes: Seq<NodeView>, id: NodeId) -> Option<NodeView>
    decreases nodes.len(),
{
    if nodes.len() == 0 {
        None
    } else if nodes.last().id == id {
        Some(nodes.last())
    } else {
        node_with(nodes.drop_last(), id)
    }
}

/// The id of the node called `name` in the directory `parent`: the last one, if
/// there are several. The root is not in a directory.
pub open spec fn child_named(nodes: Seq<NodeView>, parent: NodeId, name: Seq<u8>) -> Option<NodeId>
    decreases nodes.len(),
{
    if nodes.len() <= 1 {
        None
    } else if nodes.last().parent == parent && nodes.last().name == name {
        Some(nodes.last().id)
    } else {
        child_named(nodes.drop_last(), parent, name)
    }
}

/// The children of a node; a file has none.
pub open spec fn children_of(nodes: Seq<NodeView>, id: NodeId) -> Seq<NodeId> {
    match node_with(nodes, id) {
        Some(n) => match n.kind {
            KindView::Dir { children } => children,
            _ => Seq::empty(),
        },
        None => Seq::empty(),
    }
}

impl TreeView {
    /// `n` is an encrypted stream, and none is larger.
    pub open spec fn is_largest_encrypted(self, n: NodeView) -> bool {
        &&& self.nodes.contains(n)
        &&& n.kind is Encrypted
        &&& forall|i: int|
            0 <= i < self.nodes.len() && (#[trigger] self.nodes[i]).kind is Encrypted
                ==> self.nodes[i].size <= n.size
    }
}

fn same_bytes(a: &[u8], b: &[u8]) -> (r: bool)
    ensures
        r == (a@ == b@),
{
    if a.len() != b.len() {
        return false;
    }
    let mut i: usize = 0;
    while i < a.len()
        invariant
            i <= a@.len(),
            a@.len() == b@.len(),
            forall|j: int| 0 <= j < i ==> a@[j] == b@[j],
        decreases a@.len() - i,
    {
        if a[i] != b[i] {
            return false;
        }
        i += 1;
    }
    assert(a@ =~= b@);
    true
}

impl DiscTree {
    pub fn get(&self, id: NodeId) -> (r: Option<&Node>)
        ensures
            match r {
                Some(n) => node_with(self@.nodes, id) == Some(n@),
                None => node_with(self@.nodes, id) is None,
            },
    {
        let ghost all = self@.nodes;
        let mut i: usize = self.nodes.len();
        assert(all.take(i as int) =~= all);
        while i > 0
            invariant
                i <= self.nodes@.len(),
                all == node_views(self.nodes@),
                node_with(all, id) == node_with(all.take(i as int), id),
            decreases i,
        {
            let ghost upto = all.take(i as int);
            assert(upto.drop_last() =~= all.take(i - 1));
            i -= 1;
            assert(upto.last() == self.nodes@[i as int]@);
            if self.nodes[i].id == id {
                return Some(&self.nodes[i]);
            }
        }
        None
    }

    pub fn lookup(&self, parent: NodeId, name: &[u8]) -> (r: Option<NodeId>)
        ensures
            r == child_named(self@.nodes, parent, name@),
    {
        let ghost all = self@.nodes;
        let mut i: usize = self.nodes.len();
        assert(all.take(i as int) =~= all);
        while i > 1
            invariant
                i <= self.nodes@.len(),
                all == node_views(self.nodes@),
                child_named(all, parent, name@) == child_named(all.take(i as int), parent, name@),
            decreases i,
        {
            let ghost upto = all.take(i as int);
            assert(upto.drop_last() =~= all.take(i - 1));
            i -= 1;
            assert(upto.last() == self.nodes@[i as int]@);
            if self.nodes[i].parent == parent && same_bytes(self.nodes[i].name.as_slice(), name) {
                return Some(self.nodes[i].id);
            }
        }
        None
    }

    pub fn children(&self, id: NodeId) -> (r: Vec<NodeId>)
        ensures
            r@ == children_of(self@.nodes, id),
    {
        let none: Vec<NodeId> = Vec::new();
        assert(none@ =~= Seq::<NodeId>::empty());
        match self.get(id) {
            Some(n) => match &n.kind {
                NodeKind::Dir { children } => vstd::slice::slice_to_vec(children.as_slice()),
                _ => none,
            },
            None => none,
        }
    }

    /// All nodes.
    pub fn iter(&self) -> (r: &[Node])
        ensures
            node_views(r@) == self@.nodes,
    {
        self.nodes.as_slice()
    }

    /// The largest encrypted stream file (the main feature, usually).
    pub fn largest_encrypted(&self) -> (r: Option<&Node>)
        ensures
            match r {
                Some(n) => self@.is_largest_encrypted(n@),
                None => forall|i: int|
                    0 <= i < self@.nodes.len() ==> !((#[trigger] self@.nodes[i]).kind is Encrypted),
            },
    {
        let mut best: Option<usize> = None;
        let mut i: usize = 0;
        while i < self.nodes.len()
            invariant
                i <= self.nodes@.len(),
                match best {
                    Some(b) => {
                        &&& b < i
                        &&& self@.nodes[b as int].kind is Encrypted
                        &&& forall|j: int|
                            0 <= j < i && (#[trigger] self@.nodes[j]).kind is Encrypted
                                ==> self@.nodes[j].size <= self@.nodes[b as int].size
                    },
                    None => forall|j: int|
                        0 <= j < i ==> !((#[trigger] self@.nodes[j]).kind is Encrypted),
                },
            decreases self.nodes@.len() - i,
        {
            assert(self@.nodes[i as int] == self.nodes@[i as int]@);
            let stream = match self.nodes[i].kind {
                NodeKind::Encrypted { .. } => true,
                _ => false,
            };
            if stream {
                best = match best {
                    Some(b) => {
                        assert(self@.nodes[b as int] == self.nodes@[b as int]@);
                        if self.nodes[i].size >= self.nodes[b].size {
                            Some(i)
                        } else {
                            Some(b)
                        }
                    },
                    None => Some(i),
                };
            }
            i += 1;
        }
        match best {
            Some(b) => {
                assert(self@.nodes[b as int] == self.nodes@[b as int]@);
                assert(self@.nodes.contains(self@.nodes[b as int]));
                Some(&self.nodes[b])
            },
            None => None,
        }
    }
}

// ───────────────────────── volumes ─────────────────────────

/// A mounted optical volume that looks like a Blu-ray.
pub struct BdVolume {
    pub path: String,
    pub label: String,
    /// Has an `AACS` directory, so it needs decryption.
    pub protected: bool,
}

#[verifier::ext_equal]
pub struct BdVolumeView {
    pub path: Seq<char>,
    pub label: Seq<char>,
    pub protected: bool,
}

impl View for BdVolume {
    type V = BdVolumeView;

    open spec fn view(&self) -> BdVolumeView {
        BdVolumeView { path: self.path@, label: self.label@, protected: self.protected }
    }
}

pub open spec fn volume_views(v: Seq<BdVolume>) -> Seq<BdVolumeView> {
    v.map_values(|x: BdVolume| x@)
}

/// What a look at a volume shows.
#[derive(Clone, Copy, Debug, PartialEq, Eq, Structural)]
pub struct VolumeFacts {
    /// `BDMV/index.bdmv` is a file.
    pub has_index: bool,
    /// `AACS` is a directory.
    pub has_aacs: bool,
}

/// The volume at `p`, if it is a Blu-ray.
pub open spec fn volume_at(p: Seq<char>, facts: VolumeFacts) -> Option<BdVolumeView> {
    match path::file_name(p) {
        Some(label) => if facts.has_index {
            Some(BdVolumeView { path: p, label, protected: facts.has_aacs })
        } else {
            None
        },
        None => None,
    }
}

pub fn inspect_volume(p: &str, facts: VolumeFacts) -> (r: Option<BdVolume>)
    ensures
        match r {
            Some(v) => volume_at(p@, facts) == Some(v@),
            None => volume_at(p@, facts) is None,
        },
{
    if !facts.has_index {
        return None;
    }
    match path::path_file_name(p) {
        Some(label) => Some(
            BdVolume { path: text::owned(p), label, protected: facts.has_aacs },
        ),
        None => None,
    }
}

/// A file system that a disc, or the image of one, is mounted with.
pub open spec fn disc_fs(t: Seq<char>) -> bool {
    t == "udf"@ || t == "cd9660"@ || t == "hfs"@ || t == "apfs"@
}

/// The entry may be a Blu-ray: a local block device under `/Volumes` that is not
/// to be skipped.
pub open spec fn is_candidate(m: MountEntry, skip: Seq<Seq<char>>) -> bool {
    &&& path::comps("/Volumes"@).is_prefix_of(path::comps(m.mount_point@))
    &&& disc_fs(m.fs_type@)
    &&& !path::has_path(skip, m.mount_point@)
    &&& "/dev/disk"@.is_prefix_of(m.from@)
}

/// The mount points in `table` that may be Blu-rays.
pub open spec fn candidates(table: Seq<MountEntry>, skip: Seq<Seq<char>>) -> Seq<Seq<char>>
    decreases table.len(),
{
    if table.len() == 0 {
        Seq::empty()
    } else {
        let before = candidates(table.drop_last(), skip);
        if is_candidate(table.last(), skip) {
            before.push(table.last().mount_point@)
        } else {
            before
        }
    }
}

/// The volumes to look at for Blu-rays. No other volume is touched: a look at
/// one that is being ejected can hang.
pub fn bd_candidates(table: &[MountEntry], skip: &[String]) -> (r: Vec<String>)
    ensures
        text::strs(r@) == candidates(table@, text::strs(skip@)),
{
    broadcast use text::lemma_strs_push;

    let mut out: Vec<String> = Vec::new();
    assert(text::strs(out@) =~= Seq::<Seq<char>>::empty());
    assert(table@.take(0) =~= Seq::<MountEntry>::empty());
    let mut i: usize = 0;
    while i < table.len()
        invariant
            i <= table@.len(),
            text::strs(out@) == candidates(table@.take(i as int), text::strs(skip@)),
        decreases table@.len() - i,
    {
        assert(table@.take(i + 1).drop_last() =~= table@.take(i as int));
        assert(table@.take(i + 1).last() == table@[i as int]);
        let m = &table[i];
        let fs = m.fs_type.as_str();
        if path::path_starts_with(m.mount_point.as_str(), "/Volumes") && (text::str_same(fs, "udf")
            || text::str_same(fs, "cd9660") || text::str_same(fs, "hfs") || text::str_same(
            fs,
            "apfs",
        )) && !path::list_has_path(skip, m.mount_point.as_str()) && text::str_starts_with(
            m.from.as_str(),
            "/dev/disk",
        ) {
            let ghost before = text::strs(out@);
            let p = text::owned(m.mount_point.as_str());
            out.push(p);
            assert(text::strs(out@) == before.push(p@));
        }
        i += 1;
    }
    assert(table@.take(i as int) =~= table@);
    out
}

pub open spec fn volume_rank() -> spec_fn(BdVolumeView, BdVolumeView) -> order::Rank {
    |a: BdVolumeView, b: BdVolumeView| order::path_rank(a.path, b.path)
}

/// The Blu-rays among `points`, of which `facts` tells what a look at each
/// showed; one that was not looked at is none.
pub open spec fn blu_rays(points: Seq<Seq<char>>, facts: Seq<VolumeFacts>) -> Seq<BdVolumeView>
    decreases points.len(),
{
    if points.len() == 0 {
        Seq::empty()
    } else {
        let before = blu_rays(points.drop_last(), facts);
        let i = points.len() - 1;
        if i < facts.len() && volume_at(points.last(), facts[i]) is Some {
            before.push(volume_at(points.last(), facts[i])->0)
        } else {
            before
        }
    }
}

fn insert_volume(out: &mut Vec<BdVolume>, v: BdVolume)
    ensures
        volume_views(final(out)@) == order::inserted(
            volume_views(old(out)@),
            v@,
            volume_rank(),
        ),
{
    let ghost all = volume_views(out@);
    let ghost rank = volume_rank();
    let mut k: usize = out.len();
    assert(all.take(k as int) =~= all);
    while k > 0 && order::rank_paths(out[k - 1].path.as_str(), v.path.as_str())
        == order::Rank::After
        invariant
            k <= out@.len(),
            all == volume_views(out@),
            rank == volume_rank(),
            order::slot(all, v@, rank) == order::slot(all.take(k as int), v@, rank),
        decreases k,
    {
        assert(all.take(k as int).drop_last() =~= all.take(k - 1));
        assert(all.take(k as int).last() == out@[k - 1]@);
        k -= 1;
    }
    proof {
        if k > 0 {
            assert(all.take(k as int).last() == out@[k - 1]@);
        }
        order::lemma_slot(all, v@, rank);
    }
    out.insert(k, v);
    assert(volume_views(out@) =~= all.insert(k as int, v@));
}

/// The Blu-rays in the mount table other than those to skip, by path. `facts`
/// tells what a look at each of [`bd_candidates`] showed.
pub fn find_bd_volumes_except(
    table: &[MountEntry],
    skip: &[String],
    facts: &[VolumeFacts],
) -> (r: Vec<BdVolume>)
    ensures
        volume_views(r@) == order::sorted(
            blu_rays(candidates(table@, text::strs(skip@)), facts@),
            volume_rank(),
        ),
{
    let points = bd_candidates(table, skip);
    let ghost all = text::strs(points@);
    let mut out: Vec<BdVolume> = Vec::new();
    assert(volume_views(out@) =~= Seq::<BdVolumeView>::empty());
    assert(all.take(0) =~= Seq::<Seq<char>>::empty());
    let mut i: usize = 0;
    while i < points.len()
        invariant
            i <= points@.len(),
            all == text::strs(points@),
            volume_views(out@) == order::sorted(
                blu_rays(all.take(i as int), facts@),
                volume_rank(),
            ),
        decreases points@.len() - i,
    {
        assert(all.take(i + 1).drop_last() =~= all.take(i as int));
        assert(all.take(i + 1).last() == points@[i as int]@);
        let ghost before = blu_rays(all.take(i as int), facts@);
        if i < facts.len() {
            if let Some(v) = inspect_volume(points[i].as_str(), facts[i]) {
                assert(before.push(v@).drop_last() =~= before);
                insert_volume(&mut out, v);
            }
        }
        i += 1;
    }
    assert(all.take(i as int) =~= all);
    out
}

/// The Blu-rays in the mount table, by path.
pub fn find_bd_volumes(table: &[MountEntry], facts: &[VolumeFacts]) -> (r: Vec<BdVolume>)
    ensures
        volume_views(r@) == order::sorted(
            blu_rays(candidates(table@, Seq::empty()), facts@),
            volume_rank(),
        ),
{
    let none: Vec<String> = Vec::new();
    assert(text::strs(none@) =~= Seq::<Seq<char>>::empty());
    find_bd_volumes_except(table, none.as_slice(), facts)
}

/// The whole-disk raw device behind a volume, from what `diskutil info -plist`
/// says of it.
pub open spec fn raw_device_in(info: Seq<char>) -> Option<Seq<char>> {
    match plist::value_of(info, "ParentWholeDisk"@) {
        Some(d) => Some("/dev/r"@ + d),
        None => None,
    }
}

pub fn raw_device_for_volume(info: &str) -> (r: Option<String>)
    ensures
        match r {
            Some(d) => raw_device_in(info@) == Some(d@),
            None => raw_device_in(info@) is None,
        },
{
    match plist::plist_value(info, "ParentWholeDisk") {
        Some(d) => Some(text::concat("/dev/r", d.as_str())),
        None => None,
    }
}

} // verus!
