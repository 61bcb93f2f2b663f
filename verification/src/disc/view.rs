//! Which entries of a disc are shown, and which volumes are discs.

use vstd::prelude::*;
use vstd::utf8::encode_utf8;

use super::walk::{
    hidden_at_root, label_of_path, needed, new_walk, rested, with_look, BuilderView, Look,
    NeedView,
};
use super::{blu_rays, candidates, volume_at, BdVolumeView, NodeView, Timestamp, VolumeFacts};
use crate::mount::MountEntry;
use crate::path;
use crate::path::law::plain_name;
use crate::text;
use crate::text::law::{alike, lemma_case};

verus! {

broadcast use vstd::string::group_string_axioms;

// ───────────────────────── what is left out ─────────────────────────

/// The name is, up to its case, that of a directory with copy protection or of
/// something that a system leaves on a volume.
pub open spec fn no_part_of_the_disc(n: Seq<char>) -> bool {
    ||| alike(n, "AACS"@)
    ||| alike(n, "BDSVM"@)
    ||| alike(n, "MAKEMKV"@)
    ||| alike(n, ".Spotlight-V100"@)
    ||| alike(n, ".fseventsd"@)
    ||| alike(n, ".Trashes"@)
    ||| alike(n, ".TemporaryItems"@)
    ||| alike(n, ".DS_Store"@)
    ||| alike(n, "$RECYCLE.BIN"@)
    ||| alike(n, "System Volume Information"@)
}

proof fn lemma_hidden(n: Seq<char>)
    ensures
        hidden_at_root(n) <==> no_part_of_the_disc(n),
{
    lemma_case(n, "AACS"@);
    lemma_case(n, "BDSVM"@);
    lemma_case(n, "MAKEMKV"@);
    lemma_case(n, ".Spotlight-V100"@);
    lemma_case(n, ".fseventsd"@);
    lemma_case(n, ".Trashes"@);
    lemma_case(n, ".TemporaryItems"@);
    lemma_case(n, ".DS_Store"@);
    lemma_case(n, "$RECYCLE.BIN"@);
    lemma_case(n, "System Volume Information"@);
}

/// An entry is left out just when it is a `.DS_Store`, or when it lies at the root
/// and is no part of the disc. The root is the directory with the path of the disc,
/// or on a raw volume the one with the empty path.
pub proof fn lemma_shown(b: BuilderView, dir: Seq<u8>, name: Seq<u8>)
    ensures
        ({
            let n = text::text_of(name);
            let root = if b.raw {
                dir.len() == 0
            } else {
                path::comps(text::text_of(dir)) == path::comps(b.root)
            };
            b.shows(dir, name) <==> n != ".DS_Store"@ && !(root && no_part_of_the_disc(n))
        }),
{
    lemma_hidden(text::text_of(name));
}

/// The path of an entry is that of its directory, a slash and its name; on a raw
/// volume an entry of the root has its name alone.
pub proof fn lemma_child_path(b: BuilderView, dir: Seq<u8>, name: Seq<u8>)
    requires
        name.len() > 0,
        name[0] != 0x2f,
    ensures
        ({
            let p = b.child_path(dir, name);
            &&& name.is_suffix_of(p) && dir.is_prefix_of(p)
            &&& dir.len() == 0 ==> p == name
            &&& dir.len() > 0 ==> p[p.len() - name.len() - 1] == 0x2f
            &&& dir.len() > 0 && (b.raw || dir.last() != 0x2f) ==> p.len() == dir.len() + 1
                + name.len()
            &&& dir.len() > 0 && !b.raw && dir.last() == 0x2f ==> p.len() == dir.len() + name.len()
        }),
{
    let p = b.child_path(dir, name);
    if dir.len() > 0 {
        assert(p.skip(p.len() - name.len()) =~= name);
        assert(p.take(dir.len() as int) =~= dir);
    } else {
        assert(p.skip(0) =~= p);
        assert(p.take(0) =~= dir);
    }
}

/// A walk asks for the entries of the directory that it is in, and then for a look
/// at the next of them, at the entry's own path; it is over when it has left the
/// root.
pub proof fn lemma_need(b: BuilderView)
    ensures
        match needed(b) {
            NeedView::Nothing => b.stack.len() == 0,
            NeedView::List { path } => b.stack.len() > 0 && !b.stack.last().listed && path
                == b.stack.last().path,
            NeedView::Look { path, is_dir } => {
                let f = b.stack.last();
                &&& b.stack.len() > 0 && f.listed
                &&& path == b.child_path(f.path, f.entries[f.at].name)
                &&& is_dir == f.entries[f.at].is_dir
            },
        },
{
}

/// The walk begins at the root of the disc, which has the first number.
pub proof fn lemma_walk_begins(
    source: Seq<char>,
    label: Seq<char>,
    node_path: Seq<char>,
    root: Seq<char>,
    mtime: Timestamp,
    raw: bool,
)
    ensures
        ({
            let b = new_walk(source, label, node_path, root, mtime, raw);
            let n = b.tree.nodes[0];
            &&& needed(b) == NeedView::List { path: encode_utf8(root) }
            &&& b.tree.nodes.len() == 1
            &&& n.id == 1 && n.parent == 1 && n.name == seq![0x2fu8] && n.path == encode_utf8(
                node_path,
            )
            &&& n.mtime == mtime && n.kind is Dir
            &&& b.tree.source == source && b.tree.label == label
            &&& b.tree.file_count == 0 && b.tree.encrypted_count == 0
        }),
{
}

/// A look at an entry gives it a node: with a number of its own, in its directory,
/// under its name and path, with the size and time that the look showed. A
/// directory is gone into next; what is neither file nor directory has no node.
pub proof fn lemma_looked_node(b: BuilderView, look: Look)
    requires
        b.wf(),
        b.waits_for_look(),
        0 <= b.next_id < u64::MAX,
    ensures
        ({
            let n = with_look(b, look);
            let f = b.stack.last();
            let e = f.entries[f.at];
            let x = n.tree.nodes.last();
            &&& n.stack.len() >= b.stack.len() && n.stack[b.stack.len() - 1].at == f.at + 1
            &&& look is Gone || look is Other ==> n.tree == b.tree
            &&& look is Dir || look is File ==> {
                &&& n.tree.nodes.len() == b.tree.nodes.len() + 1
                &&& x.id == b.next_id && x.parent == b.tree.nodes[f.index].id
                &&& x.name == e.name && x.path == b.child_path(f.path, e.name)
                &&& n.next_id == b.next_id + 1
            }
            &&& look matches Look::Dir { mtime } ==> {
                &&& x.kind is Dir && x.size == 0 && x.mtime == mtime
                &&& n.tree.file_count == b.tree.file_count
                &&& n.stack.len() == b.stack.len() + 1
                &&& n.stack.last().path == x.path && !n.stack.last().listed
            }
            &&& look matches Look::File { size, mtime } ==> {
                &&& !(x.kind is Dir) && x.size == size && x.mtime == mtime
                &&& n.tree.file_count == b.tree.file_count + 1
                &&& n.tree.encrypted_count == b.tree.encrypted_count + if x.kind is Encrypted {
                    1int
                } else {
                    0int
                }
            }
        }),
{
    let f = b.stack.last();
    assert(super::walk::frame_ok(b.stack[b.stack.len() - 1], b.tree.nodes));
}

// ───────────────────────── volumes ─────────────────────────

/// The volume may be a disc: under `/Volumes`, with a file system that discs or
/// their images have, on a local disk, and not one to be skipped.
pub open spec fn may_be_disc(m: MountEntry, skip: Seq<Seq<char>>) -> bool {
    &&& path::comps("/Volumes"@).is_prefix_of(path::comps(m.mount_point@))
    &&& m.fs_type@ == "udf"@ || m.fs_type@ == "cd9660"@ || m.fs_type@ == "hfs"@ || m.fs_type@
        == "apfs"@
    &&& "/dev/disk"@.is_prefix_of(m.from@)
    &&& !(exists|i: int|
        0 <= i < skip.len() && path::comps(#[trigger] skip[i]) == path::comps(m.mount_point@))
}

/// The volumes that are looked at are all that may be discs, and no others.
pub proof fn lemma_candidates(table: Seq<MountEntry>, skip: Seq<Seq<char>>, p: Seq<char>)
    ensures
        candidates(table, skip).contains(p) <==> exists|i: int|
            0 <= i < table.len() && may_be_disc(#[trigger] table[i], skip) && table[i].mount_point@
                == p,
    decreases table.len(),
{
    if table.len() > 0 {
        let d = table.drop_last();
        let last = table.len() - 1;
        let before = candidates(d, skip);
        let n = candidates(table, skip);
        lemma_candidates(d, skip, p);
        if before.contains(p) {
            let k = choose|k: int| 0 <= k < before.len() && before[k] == p;
            assert(n[k] == p);
            let i = choose|i: int|
                0 <= i < d.len() && may_be_disc(#[trigger] d[i], skip) && d[i].mount_point@ == p;
            assert(may_be_disc(table[i], skip));
        }
        if n.contains(p) && !before.contains(p) {
            let k = choose|k: int| 0 <= k < n.len() && n[k] == p;
            if k < before.len() {
                assert(before[k] == p);
            }
            assert(may_be_disc(table[last], skip));
        }
        if exists|i: int|
            0 <= i < table.len() && may_be_disc(#[trigger] table[i], skip) && table[i].mount_point@
                == p {
            let i = choose|i: int|
                0 <= i < table.len() && may_be_disc(#[trigger] table[i], skip)
                    && table[i].mount_point@ == p;
            if i < last {
                assert(may_be_disc(d[i], skip));
            } else {
                assert(n[before.len() as int] == p);
            }
        }
    }
}

/// A volume is a Blu-ray just when it holds the index of one; it is protected just
/// when it holds the keys' directory, and is called like the last part of its path.
pub proof fn lemma_volume(dir: Seq<char>, name: Seq<char>, facts: VolumeFacts)
    requires
        dir.len() > 0,
        plain_name(name),
    ensures
        volume_at(dir.push('/') + name, facts) is Some <==> facts.has_index,
        volume_at(dir.push('/') + name, facts) matches Some(v) ==> v.path == dir.push('/') + name
            && v.label == name && v.protected == facts.has_aacs,
        label_of_path(dir.push('/') + name) == name,
{
    path::law::lemma_entry_path(dir, name);
    path::law::lemma_dots();
    assert(path::comps(dir).push(name).last() == name);
}

/// The Blu-rays are all those volumes that were found to be such.
pub proof fn lemma_blu_rays(points: Seq<Seq<char>>, facts: Seq<VolumeFacts>, v: BdVolumeView)
    ensures
        blu_rays(points, facts).contains(v) <==> exists|i: int|
            0 <= i < points.len() && i < facts.len() && volume_at(#[trigger] points[i], facts[i])
                == Some(v),
    decreases points.len(),
{
    if points.len() > 0 {
        let d = points.drop_last();
        let last = points.len() - 1;
        let before = blu_rays(d, facts);
        let n = blu_rays(points, facts);
        lemma_blu_rays(d, facts, v);
        if before.contains(v) {
            let k = choose|k: int| 0 <= k < before.len() && before[k] == v;
            assert(n[k] == v);
            let i = choose|i: int|
                0 <= i < d.len() && i < facts.len() && volume_at(#[trigger] d[i], facts[i]) == Some(
                    v,
                );
            assert(volume_at(points[i], facts[i]) == Some(v));
        }
        if n.contains(v) && !before.contains(v) {
            let k = choose|k: int| 0 <= k < n.len() && n[k] == v;
            if k < before.len() {
                assert(before[k] == v);
            }
            assert(volume_at(points[last], facts[last]) == Some(v));
        }
        if exists|i: int|
            0 <= i < points.len() && i < facts.len() && volume_at(#[trigger] points[i], facts[i])
                == Some(v) {
            let i = choose|i: int|
                0 <= i < points.len() && i < facts.len() && volume_at(#[trigger] points[i], facts[i])
                    == Some(v);
            if i < last {
                assert(volume_at(d[i], facts[i]) == Some(v));
            } else {
                assert(n[before.len() as int] == v);
            }
        }
    }
}

/// The device behind a volume is the raw node of the whole disk that the system
/// names.
pub proof fn lemma_raw_device(info: Seq<char>)
    ensures
        match crate::plist::value_of(info, "ParentWholeDisk"@) {
            Some(d) => super::raw_device_in(info) == Some("/dev/r"@ + d),
            None => super::raw_device_in(info) is None,
        },
{
}

// ───────────────────────── the walk over a raw volume ─────────────────────────

/// A step of the walk over a raw volume lists the directory that the walk is in,
/// as the volume has it, with each name in bytes.
pub proof fn lemma_udf_listing(
    b: BuilderView,
    v: crate::rawudf::volume::RawUdfView,
    m: crate::rawudf::log::Known,
    found: Seq<crate::rawudf::space::DirEntryView>,
    i: int,
)
    requires
        b.raw,
        rested(b).stack.len() > 0,
        !rested(b).stack.last().listed,
        v.listed(m, text::text_of(rested(b).stack.last().path))
            == crate::rawudf::log::Step::Done(found),
    ensures
        ({
            let r = super::walk::stepped_udf(b, v, m);
            let f = r.1.stack.last();
            &&& r.0 == crate::rawudf::log::Step::Done(Ok::<bool, super::walk::ScanError>(false))
            &&& f.listed && f.at == 0 && f.entries.len() == found.len()
            &&& 0 <= i < found.len() ==> f.entries[i].name == encode_utf8(found[i].name)
                && f.entries[i].is_dir == found[i].is_directory
            &&& r.1.tree == rested(b).tree
        }),
{
    super::walk::lemma_rested(b);
    let rb = rested(b);
    assert(needed(rb) == NeedView::List { path: rb.stack.last().path });
    let n = super::walk::with_listing(rb, super::walk::raw_entries(found));
    assert(super::walk::stepped_udf(b, v, m).1 == n);
    assert(n.stack.last().entries == super::walk::raw_entries(found));
}

/// A step of the walk over a raw volume that comes to a file gives it a node with
/// the size that the volume records; without one that can be told, the size is
/// zero. A directory gets a node and is gone into.
pub proof fn lemma_udf_look(
    b: BuilderView,
    v: crate::rawudf::volume::RawUdfView,
    m: crate::rawudf::log::Known,
)
    requires
        b.wf(),
        rested(b).stack.len() > 0,
        rested(b).stack.last().listed,
        0 <= rested(b).next_id < u64::MAX,
    ensures
        ({
            let rb = rested(b);
            let f = rb.stack.last();
            let e = f.entries[f.at];
            let p = rb.child_path(f.path, e.name);
            let r = super::walk::stepped_udf(b, v, m);
            let x = r.1.tree.nodes.last();
            let done = crate::rawudf::log::Step::Done(Ok::<bool, super::walk::ScanError>(false));
            &&& e.is_dir ==> r.0 == done && x.kind is Dir && x.path == p && x.name == e.name
            &&& !e.is_dir ==> match v.meta(m, text::text_of(p)) {
                crate::rawudf::log::Step::Done(meta) => r.0 == done && !(x.kind is Dir) && x.size
                    == meta.size && x.path == p && x.name == e.name,
                crate::rawudf::log::Step::Fail(_) => r.0 == done && !(x.kind is Dir) && x.size == 0
                    && x.path == p && x.name == e.name,
                crate::rawudf::log::Step::Need(q) => r.0 == crate::rawudf::log::Step::<
                    Result<bool, super::walk::ScanError>,
                >::Need(q) && r.1 == rb,
            }
        }),
{
    super::walk::lemma_rested(b);
}

/// The largest stream is an encrypted one, and no other is larger.
pub proof fn lemma_largest(t: super::TreeView, n: NodeView, i: int)
    requires
        t.is_largest_encrypted(n),
        0 <= i < t.nodes.len(),
    ensures
        n.kind is Encrypted,
        t.nodes.contains(n),
        t.nodes[i].kind is Encrypted ==> t.nodes[i].size <= n.size,
{
}

/// Where two entries of a directory have the same name, the later one is found.
pub proof fn lemma_later_found(nodes: Seq<NodeView>, parent: u64, name: Seq<u8>, i: int)
    requires
        0 < i < nodes.len(),
        nodes[i].parent == parent,
        nodes[i].name == name,
        forall|j: int|
            i < j < nodes.len() ==> !((#[trigger] nodes[j]).parent == parent && nodes[j].name
                == name),
    ensures
        super::child_named(nodes, parent, name) == Some(nodes[i].id),
    decreases nodes.len(),
{
    if i < nodes.len() - 1 {
        let d = nodes.drop_last();
        assert(!(nodes[nodes.len() - 1].parent == parent && nodes[nodes.len() - 1].name == name));
        assert forall|j: int| i < j < d.len() implies !((#[trigger] d[j]).parent == parent
            && d[j].name == name) by {
            assert(d[j] == nodes[j]);
        }
        lemma_later_found(d, parent, name, i);
    }
}

} // verus!
