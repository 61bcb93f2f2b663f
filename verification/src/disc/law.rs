//! What holds of every tree that a walk builds.

use vstd::prelude::*;

use super::walk::{
    epoch, file_kind, hidden_at_root, lemma_rested, moves_left, needed, new_node, new_walk,
    raw_entries, rested, size_or_none, stepped_udf, with_listing, with_look, with_node, BuilderView,
    EntryView, Look, NeedView,
};
use super::{
    child_named, children_of, ids_increase, node_with, NodeId, NodeView, Timestamp,
    TreeView, ROOT_ID,
};
use crate::rawudf::log::Step;

verus! {

// ───────────────────────── sound trees ─────────────────────────

/// The ids of the nodes in the directory `parent`, in order. The root is in
/// none.
pub open spec fn child_ids(nodes: Seq<NodeView>, parent: NodeId) -> Seq<NodeId>
    decreases nodes.len(),
{
    if nodes.len() <= 1 {
        Seq::empty()
    } else {
        let before = child_ids(nodes.drop_last(), parent);
        if nodes.last().parent == parent {
            before.push(nodes.last().id)
        } else {
            before
        }
    }
}

/// How many nodes are files.
pub open spec fn files_in(nodes: Seq<NodeView>) -> int
    decreases nodes.len(),
{
    if nodes.len() == 0 {
        0
    } else {
        files_in(nodes.drop_last()) + if nodes.last().kind is Dir {
            0int
        } else {
            1int
        }
    }
}

/// How many nodes are encrypted streams.
pub open spec fn streams_in(nodes: Seq<NodeView>) -> int
    decreases nodes.len(),
{
    if nodes.len() == 0 {
        0
    } else {
        streams_in(nodes.drop_last()) + if nodes.last().kind is Encrypted {
            1int
        } else {
            0int
        }
    }
}

/// The text of a node's name.
pub open spec fn name_text(n: NodeView) -> Seq<char> {
    crate::text::text_of(n.name)
}

/// The tree of a disc whose root is `root`: ids are distinct and increase; each
/// node but the root lies in a directory before it; a directory lists just the
/// nodes that lie in it; the counts are right; no name that is to be left out
/// is there; and a file is marked as encrypted just when it is such a stream.
#[verifier::opaque]
pub open spec fn tree_sound(t: TreeView, root: Seq<char>) -> bool {
    &&& t.nodes.len() > 0
    &&& t.nodes[0].id == ROOT_ID && t.nodes[0].parent == ROOT_ID && t.nodes[0].kind is Dir
    &&& ids_increase(t.nodes)
    &&& forall|i: int| 0 < i < t.nodes.len() ==> has_parent(t.nodes, #[trigger] t.nodes[i], i)
    &&& forall|i: int|
        0 <= i < t.nodes.len() && (#[trigger] t.nodes[i]).kind is Dir ==> t.nodes[i].kind->children
            == child_ids(t.nodes, t.nodes[i].id)
    &&& t.file_count == files_in(t.nodes)
    &&& t.encrypted_count == streams_in(t.nodes)
    &&& forall|i: int| 0 < i < t.nodes.len() ==> belongs(#[trigger] t.nodes[i])
    &&& forall|i: int|
        0 <= i < t.nodes.len() && !((#[trigger] t.nodes[i]).kind is Dir) ==> t.nodes[i].kind
            == file_kind(root, t.nodes[i].path, t.nodes[i].name)
}

/// A directory before `i` is the parent of `n`.
pub open spec fn has_parent(nodes: Seq<NodeView>, n: NodeView, i: int) -> bool {
    exists|p: int|
        0 <= p < i && (#[trigger] nodes[p]).kind is Dir && nodes[p].id == n.parent
}

/// The node may be shown.
pub open spec fn belongs(n: NodeView) -> bool {
    name_text(n) != ".DS_Store"@ && (n.parent == ROOT_ID ==> !hidden_at_root(name_text(n)))
}

/// A walk whose tree is sound so far.
pub open spec fn walk_sound(b: BuilderView) -> bool {
    &&& b.wf()
    &&& tree_sound(b.tree, b.root)
    &&& forall|i: int| 0 <= i < b.tree.nodes.len() ==> (#[trigger] b.tree.nodes[i]).id < b.next_id
    &&& forall|i: int|
        0 <= i < b.stack.len() && (#[trigger] b.stack[i]).index == 0 ==> b.at_root(
            b.stack[i].path,
        )
    &&& b.next_id <= u64::MAX
}

// ───────────────────────── walks are sound ─────────────────────────

/// A walk starts out sound.
pub proof fn lemma_new_walk_sound(
    source: Seq<char>,
    label: Seq<char>,
    node_path: Seq<char>,
    root: Seq<char>,
    mtime: Timestamp,
    raw: bool,
)
    requires
        raw ==> root.len() == 0,
    ensures
        walk_sound(new_walk(source, label, node_path, root, mtime, raw)),
{
    reveal(tree_sound);
    let b = new_walk(source, label, node_path, root, mtime, raw);
    crate::text::lemma_text_of_bytes(root);
    assert(b.tree.nodes.drop_last() =~= Seq::<NodeView>::empty());
    assert(files_in(b.tree.nodes.drop_last()) == 0);
    assert(streams_in(b.tree.nodes.drop_last()) == 0);
    assert(b.tree.nodes[0].kind->children =~= child_ids(b.tree.nodes, ROOT_ID));
}

/// A listing keeps a walk sound.
pub proof fn lemma_listing_sound(b: BuilderView, entries: Seq<EntryView>)
    requires
        walk_sound(b),
        b.waits_for_listing(),
    ensures
        walk_sound(with_listing(b, entries)),
{
    let n = with_listing(b, entries);
    let top = b.stack.len() - 1;
    assert forall|i: int| 0 <= i < n.stack.len() implies super::walk::frame_ok(
        #[trigger] n.stack[i],
        n.tree.nodes,
    ) && (n.stack[i].index == 0 ==> n.at_root(n.stack[i].path)) by {
        assert(super::walk::frame_ok(b.stack[i], b.tree.nodes));
        assert(b.stack[i].index == 0 ==> b.at_root(b.stack[i].path));
    }
}

/// Passing over entries and leaving directories keeps a walk sound.
pub proof fn lemma_rested_sound(b: BuilderView)
    requires
        walk_sound(b),
    ensures
        walk_sound(rested(b)),
    decreases moves_left(b.stack),
{
    if b.stack.len() > 0 && b.stack.last().listed {
        let top = b.stack.len() - 1;
        if b.stack.last().at >= b.stack.last().entries.len() {
            let n = BuilderView { stack: b.stack.drop_last(), ..b };
            assert forall|i: int| 0 <= i < n.stack.len() implies super::walk::frame_ok(
                #[trigger] n.stack[i],
                n.tree.nodes,
            ) && (n.stack[i].index == 0 ==> n.at_root(n.stack[i].path)) by {
                assert(super::walk::frame_ok(b.stack[i], b.tree.nodes));
                assert(b.stack[i].index == 0 ==> b.at_root(b.stack[i].path));
            }
            lemma_rested_sound(n);
        } else if !b.shows(b.stack.last().path, b.entry().name) {
            let n = b.stepped_over();
            assert(n.stack.drop_last() =~= b.stack.drop_last());
            assert forall|i: int| 0 <= i < n.stack.len() implies super::walk::frame_ok(
                #[trigger] n.stack[i],
                n.tree.nodes,
            ) && (n.stack[i].index == 0 ==> n.at_root(n.stack[i].path)) by {
                assert(super::walk::frame_ok(b.stack[i], b.tree.nodes));
                assert(b.stack[i].index == 0 ==> b.at_root(b.stack[i].path));
            }
            lemma_rested_sound(n);
        }
    }
}

/// `b` has the same ids and parents as `a`, and the same kinds but for what
/// directories list.
pub open spec fn alike(a: Seq<NodeView>, b: Seq<NodeView>) -> bool {
    &&& a.len() == b.len()
    &&& forall|i: int|
        0 <= i < a.len() ==> (#[trigger] a[i]).id == b[i].id && a[i].parent == b[i].parent && (
        a[i].kind is Dir) == (b[i].kind is Dir) && (a[i].kind is Encrypted) == (
        b[i].kind is Encrypted)
}

proof fn lemma_alike(a: Seq<NodeView>, b: Seq<NodeView>, parent: NodeId)
    requires
        alike(a, b),
    ensures
        child_ids(a, parent) == child_ids(b, parent),
        files_in(a) == files_in(b),
        streams_in(a) == streams_in(b),
    decreases a.len(),
{
    if a.len() > 0 {
        assert(a[a.len() - 1].id == b[a.len() - 1].id);
        assert forall|i: int| 0 <= i < a.drop_last().len() implies (
        #[trigger] a.drop_last()[i]).id == b.drop_last()[i].id && a.drop_last()[i].parent
            == b.drop_last()[i].parent && (a.drop_last()[i].kind is Dir) == (
        b.drop_last()[i].kind is Dir) && (a.drop_last()[i].kind is Encrypted) == (
        b.drop_last()[i].kind is Encrypted) by {
            assert(a[i].id == b[i].id);
        }
        lemma_alike(a.drop_last(), b.drop_last(), parent);
    }
}

proof fn lemma_no_children_yet(nodes: Seq<NodeView>, id: NodeId)
    requires
        forall|i: int| 0 < i < nodes.len() ==> (#[trigger] nodes[i]).parent != id,
    ensures
        child_ids(nodes, id) == Seq::<NodeId>::empty(),
    decreases nodes.len(),
{
    if nodes.len() > 1 {
        lemma_no_children_yet(nodes.drop_last(), id);
        assert(nodes[nodes.len() - 1].parent != id);
    }
}

/// Ids, parents and listings of the nodes are sound, and below `next_id`.
pub open spec fn links_sound(nodes: Seq<NodeView>, next_id: int) -> bool {
    &&& ids_increase(nodes)
    &&& forall|i: int| 0 < i < nodes.len() ==> has_parent(nodes, #[trigger] nodes[i], i)
    &&& forall|i: int|
        0 <= i < nodes.len() && (#[trigger] nodes[i]).kind is Dir ==> nodes[i].kind->children
            == child_ids(nodes, nodes[i].id)
    &&& forall|i: int| 0 <= i < nodes.len() ==> (#[trigger] nodes[i]).id < next_id
}

proof fn lemma_entered_parents(nodes: Seq<NodeView>, dir: int, x: NodeView)
    requires
        links_sound(nodes, x.id as int),
        0 <= dir < nodes.len(),
        nodes[dir].kind is Dir,
        x.parent == nodes[dir].id,
    ensures
        ids_increase(with_node(nodes, dir, x)),
        forall|i: int|
            0 < i <= nodes.len() ==> has_parent(
                with_node(nodes, dir, x),
                #[trigger] with_node(nodes, dir, x)[i],
                i,
            ),
        forall|i: int|
            0 <= i <= nodes.len() ==> (#[trigger] with_node(nodes, dir, x)[i]).id < x.id + 1,
{
    let n = with_node(nodes, dir, x);
    assert forall|i: int, j: int| 0 <= i < j < n.len() implies (#[trigger] n[i]).id < (
    #[trigger] n[j]).id by {
        assert(nodes[i].id < x.id);
        if j < nodes.len() {
            assert(nodes[i].id < nodes[j].id);
        }
    }
    assert forall|i: int| 0 < i <= nodes.len() implies has_parent(n, #[trigger] n[i], i) by {
        if i < nodes.len() {
            assert(has_parent(nodes, nodes[i], i));
            let p = choose|p: int|
                0 <= p < i && (#[trigger] nodes[p]).kind is Dir && nodes[p].id == nodes[i].parent;
            assert(n[p].kind is Dir && n[p].id == n[i].parent);
        } else {
            assert(n[dir].kind is Dir && n[dir].id == x.parent);
        }
    }
    assert forall|i: int| 0 <= i <= nodes.len() implies (#[trigger] n[i]).id < x.id + 1 by {
        if i < nodes.len() {
            assert(nodes[i].id < x.id);
        }
    }
}

proof fn lemma_entered_alike(nodes: Seq<NodeView>, dir: int, x: NodeView)
    requires
        0 <= dir < nodes.len(),
        nodes[dir].kind is Dir,
    ensures
        with_node(nodes, dir, x).len() == nodes.len() + 1,
        with_node(nodes, dir, x).last() == x,
        alike(nodes, with_node(nodes, dir, x).drop_last()),
{
    let n = with_node(nodes, dir, x);
    let d = n.drop_last();
    assert forall|i: int| 0 <= i < nodes.len() implies (#[trigger] nodes[i]).id == d[i].id
        && nodes[i].parent == d[i].parent && (nodes[i].kind is Dir) == (d[i].kind is Dir) && (
    nodes[i].kind is Encrypted) == (d[i].kind is Encrypted) by {
        assert(d[i] == n[i]);
    }
}

proof fn lemma_entered_children(nodes: Seq<NodeView>, dir: int, x: NodeView, i: int)
    requires
        links_sound(nodes, x.id as int),
        0 <= dir < nodes.len(),
        nodes[dir].kind is Dir,
        x.parent == nodes[dir].id,
        x.kind is Dir ==> x.kind->children == Seq::<NodeId>::empty(),
        0 <= i <= nodes.len(),
        with_node(nodes, dir, x)[i].kind is Dir,
    ensures
        with_node(nodes, dir, x)[i].kind->children == child_ids(
            with_node(nodes, dir, x),
            with_node(nodes, dir, x)[i].id,
        ),
{
    let n = with_node(nodes, dir, x);
    lemma_entered_alike(nodes, dir, x);
    lemma_alike(nodes, n.drop_last(), n[i].id);
    if i < nodes.len() {
        assert(nodes[i].kind is Dir);
        assert(nodes[i].kind->children == child_ids(nodes, nodes[i].id));
        if i < dir {
            assert(nodes[i].id < nodes[dir].id);
        } else if dir < i {
            assert(nodes[dir].id < nodes[i].id);
        }
    } else {
        assert forall|k: int| 0 < k < n.len() implies (#[trigger] n[k]).parent != x.id by {
            if k < nodes.len() {
                assert(has_parent(nodes, nodes[k], k));
                let p = choose|p: int|
                    0 <= p < k && (#[trigger] nodes[p]).kind is Dir && nodes[p].id
                        == nodes[k].parent;
                assert(nodes[p].id < x.id);
            } else {
                assert(nodes[dir].id < x.id);
            }
        }
        lemma_no_children_yet(n, x.id);
    }
}

proof fn lemma_entered_sound(t: TreeView, root: Seq<char>, dir: int, x: NodeView, t1: TreeView)
    requires
        tree_sound(t, root),
        forall|i: int| 0 <= i < t.nodes.len() ==> (#[trigger] t.nodes[i]).id < x.id,
        0 <= dir < t.nodes.len(),
        t.nodes[dir].kind is Dir,
        x.parent == t.nodes[dir].id,
        x.kind is Dir ==> x.kind->children == Seq::<NodeId>::empty(),
        !(x.kind is Dir) ==> x.kind == file_kind(root, x.path, x.name),
        belongs(x),
        t1.nodes == with_node(t.nodes, dir, x),
        t1.file_count == t.file_count + if x.kind is Dir {
            0int
        } else {
            1int
        },
        t1.encrypted_count == t.encrypted_count + if x.kind is Encrypted {
            1int
        } else {
            0int
        },
    ensures
        tree_sound(t1, root),
{
    reveal(tree_sound);
    let nodes = t.nodes;
    let n = t1.nodes;
    assert(links_sound(nodes, x.id as int));
    lemma_entered_parents(nodes, dir, x);
    lemma_entered_alike(nodes, dir, x);
    lemma_alike(nodes, n.drop_last(), ROOT_ID);
    assert forall|i: int| 0 < i < n.len() implies has_parent(n, #[trigger] n[i], i) by {}
    assert forall|i: int|
        0 <= i < n.len() && (#[trigger] n[i]).kind is Dir implies n[i].kind->children == child_ids(
        n,
        n[i].id,
    ) by {
        lemma_entered_children(nodes, dir, x, i);
    }
    assert forall|i: int| 0 < i < n.len() implies belongs(#[trigger] n[i]) by {
        if i < nodes.len() {
            assert(belongs(nodes[i]));
        }
    }
    assert forall|i: int| 0 <= i < n.len() && !((#[trigger] n[i]).kind is Dir) implies n[i].kind
        == file_kind(root, n[i].path, n[i].name) by {
        if i < nodes.len() {
            assert(n[i] == nodes[i]);
        }
    }
}

/// A look at an entry that shows keeps a walk sound.
pub proof fn lemma_look_sound(b: BuilderView, look: Look)
    requires
        walk_sound(b),
        b.waits_for_look(),
        b.shows(b.stack.last().path, b.entry().name),
        b.next_id < u64::MAX,
    ensures
        walk_sound(with_look(b, look)),
{
    reveal(tree_sound);
    let n = with_look(b, look);
    let top = b.stack.len() - 1;
    let nodes = b.tree.nodes;
    let f = b.stack[top];
    assert(super::walk::frame_ok(f, nodes));
    if look is Dir || look is File {
        let x = new_node(b, look);
        assert(x.name == b.entry().name);
        assert(belongs(x)) by {
            if x.parent == ROOT_ID {
                if f.index > 0 {
                    assert(nodes[0].id < nodes[f.index].id);
                }
                assert(b.at_root(f.path));
            }
        }
        lemma_entered_sound(b.tree, b.root, f.index, x, n.tree);
        assert(links_sound(nodes, x.id as int));
        lemma_entered_parents(nodes, f.index, x);
    }
    assert(n.tree.nodes.len() >= nodes.len());
    assert forall|i: int| 0 <= i < n.stack.len() implies super::walk::frame_ok(
        #[trigger] n.stack[i],
        n.tree.nodes,
    ) && (n.stack[i].index == 0 ==> n.at_root(n.stack[i].path)) by {
        if i <= top {
            assert(super::walk::frame_ok(b.stack[i], nodes));
            assert(b.stack[i].index == 0 ==> b.at_root(b.stack[i].path));
        }
    }
}

/// Every step of the walk over a raw volume keeps it sound.
pub proof fn lemma_step_udf_sound(
    b: BuilderView,
    v: crate::rawudf::volume::RawUdfView,
    m: crate::rawudf::log::Known,
)
    requires
        walk_sound(b),
    ensures
        walk_sound(stepped_udf(b, v, m).1),
{
    let r = rested(b);
    lemma_rested_sound(b);
    lemma_rested(b);
    match needed(r) {
        NeedView::Nothing => {},
        NeedView::List { path } => {
            if let Step::Done(found) = v.listed(m, crate::text::text_of(path)) {
                lemma_listing_sound(r, raw_entries(found));
            }
        },
        NeedView::Look { path, is_dir } => {
            if r.next_id < u64::MAX {
                let dir = Look::Dir { mtime: epoch() };
                let rel = crate::text::text_of(path);
                let file = Look::File { size: size_or_none(v, m, rel), mtime: epoch() };
                lemma_look_sound(r, dir);
                lemma_look_sound(r, file);
            }
        },
    }
}

/// A walk at rest stays where it is.
pub proof fn lemma_rest_stays(b: BuilderView)
    ensures
        rested(rested(b)) == rested(b),
    decreases moves_left(b.stack),
{
    if b.stack.len() > 0 && b.stack.last().listed {
        if b.stack.last().at >= b.stack.last().entries.len() {
            lemma_rest_stays(BuilderView { stack: b.stack.drop_last(), ..b });
        } else if !b.shows(b.stack.last().path, b.entry().name) {
            assert(b.stepped_over().stack.drop_last() =~= b.stack.drop_last());
            lemma_rest_stays(b.stepped_over());
        }
    }
}

/// A step of the walk over a raw volume that had to wait for the device is taken
/// up again without loss, whatever was read meanwhile.
pub proof fn lemma_step_udf_resumes(
    b: BuilderView,
    v: crate::rawudf::volume::RawUdfView,
    before: crate::rawudf::log::Known,
    after: crate::rawudf::log::Known,
)
    requires
        stepped_udf(b, v, before).0 is Need,
    ensures
        stepped_udf(stepped_udf(b, v, before).1, stepped_udf(b, v, before).2, after)
            == stepped_udf(b, v, after),
{
    lemma_rest_stays(b);
}

/// The ids of a sound tree increase, and its nodes lie in directories of it.
pub proof fn lemma_tree_links(t: TreeView, root: Seq<char>)
    requires
        tree_sound(t, root),
    ensures
        ids_increase(t.nodes),
        forall|i: int| 0 < i < t.nodes.len() ==> has_parent(t.nodes, #[trigger] t.nodes[i], i),
{
    reveal(tree_sound);
}

// ───────────────────────── what sound trees answer ─────────────────────────

proof fn lemma_node_with(nodes: Seq<NodeView>, i: int)
    requires
        ids_increase(nodes),
        0 <= i < nodes.len(),
    ensures
        node_with(nodes, nodes[i].id) == Some(nodes[i]),
    decreases nodes.len(),
{
    if i < nodes.len() - 1 {
        assert(nodes[i].id < nodes[nodes.len() - 1].id);
        let d = nodes.drop_last();
        assert(ids_increase(d)) by {
            assert forall|a: int, b: int| 0 <= a < b < d.len() implies (#[trigger] d[a]).id < (
            #[trigger] d[b]).id by {
                assert(nodes[a].id < nodes[b].id);
            }
        }
        lemma_node_with(d, i);
        assert(d[i] == nodes[i]);
    }
}

proof fn lemma_child_ids_has(nodes: Seq<NodeView>, i: int)
    requires
        0 < i < nodes.len(),
    ensures
        child_ids(nodes, nodes[i].parent).contains(nodes[i].id),
    decreases nodes.len(),
{
    let p = nodes[i].parent;
    let d = nodes.drop_last();
    let before = child_ids(d, p);
    if i == nodes.len() - 1 {
        assert(child_ids(nodes, p)[before.len() as int] == nodes[i].id);
    } else {
        lemma_child_ids_has(d, i);
        let k = choose|k: int| 0 <= k < before.len() && before[k] == nodes[i].id;
        assert(child_ids(nodes, p)[k] == nodes[i].id);
    }
}

proof fn lemma_child_ids_only(nodes: Seq<NodeView>, p: NodeId, k: int)
    requires
        0 <= k < child_ids(nodes, p).len(),
    ensures
        exists|i: int|
            0 < i < nodes.len() && (#[trigger] nodes[i]).parent == p && nodes[i].id == child_ids(
                nodes,
                p,
            )[k],
    decreases nodes.len(),
{
    let d = nodes.drop_last();
    let before = child_ids(d, p);
    if k < before.len() {
        lemma_child_ids_only(d, p, k);
        let i = choose|i: int|
            0 < i < d.len() && (#[trigger] d[i]).parent == p && d[i].id == before[k];
        assert(nodes[i].parent == p && nodes[i].id == child_ids(nodes, p)[k]);
    } else {
        let i = nodes.len() - 1;
        assert(nodes[i].parent == p && nodes[i].id == child_ids(nodes, p)[k]);
    }
}

proof fn lemma_child_named_is(nodes: Seq<NodeView>, p: NodeId, name: Seq<u8>)
    ensures
        match child_named(nodes, p, name) {
            Some(id) => exists|i: int|
                0 < i < nodes.len() && (#[trigger] nodes[i]).parent == p && nodes[i].name == name
                    && nodes[i].id == id,
            None => forall|i: int|
                0 < i < nodes.len() ==> !((#[trigger] nodes[i]).parent == p && nodes[i].name
                    == name),
        },
    decreases nodes.len(),
{
    if nodes.len() > 1 {
        let d = nodes.drop_last();
        let last = nodes.len() - 1;
        if nodes[last].parent == p && nodes[last].name == name {
        } else {
            lemma_child_named_is(d, p, name);
            match child_named(d, p, name) {
                Some(id) => {
                    let i = choose|i: int|
                        0 < i < d.len() && (#[trigger] d[i]).parent == p && d[i].name == name
                            && d[i].id == id;
                    assert(nodes[i].parent == p && nodes[i].name == name && nodes[i].id == id);
                },
                None => {
                    assert forall|i: int| 0 < i < nodes.len() implies !((
                    #[trigger] nodes[i]).parent == p && nodes[i].name == name) by {
                        if i < last {
                            assert(d[i] == nodes[i]);
                        }
                    }
                },
            }
        }
    }
}

proof fn lemma_child_ids_increase(nodes: Seq<NodeView>, p: NodeId)
    requires
        ids_increase(nodes),
    ensures
        forall|i: int, j: int|
            0 <= i < j < child_ids(nodes, p).len() ==> #[trigger] child_ids(nodes, p)[i]
                < #[trigger] child_ids(nodes, p)[j],
        nodes.len() > 0 ==> forall|i: int|
            0 <= i < child_ids(nodes, p).len() ==> nodes[0].id < #[trigger] child_ids(nodes, p)[i]
                <= nodes.last().id,
    decreases nodes.len(),
{
    if nodes.len() > 1 {
        let d = nodes.drop_last();
        assert forall|a: int, b: int| 0 <= a < b < d.len() implies (#[trigger] d[a]).id < (
        #[trigger] d[b]).id by {
            assert(nodes[a].id < nodes[b].id);
        }
        lemma_child_ids_increase(d, p);
        let before = child_ids(d, p);
        let all = child_ids(nodes, p);
        assert(nodes[d.len() - 1].id < nodes[nodes.len() - 1].id);
        assert(nodes[0].id < nodes[nodes.len() - 1].id);
        assert(d.last() == nodes[d.len() - 1]);
        assert(d[0] == nodes[0]);
        assert forall|i: int| 0 <= i < all.len() implies nodes[0].id < #[trigger] all[i]
            <= nodes.last().id by {
            if i < before.len() {
                assert(all[i] == before[i]);
            }
        }
        assert forall|i: int, j: int| 0 <= i < j < all.len() implies #[trigger] all[i]
            < #[trigger] all[j] by {
            assert(all[i] == before[i]);
            if j < before.len() {
                assert(all[j] == before[j]);
            }
        }
    }
}

/// The children of a directory come by increasing id, and the root is none.
pub proof fn lemma_children_increase(t: TreeView, root: Seq<char>, dir: NodeId)
    requires
        tree_sound(t, root),
    ensures
        children_of(t.nodes, dir).no_duplicates(),
        forall|k: int|
            0 <= k < children_of(t.nodes, dir).len() ==> #[trigger] children_of(t.nodes, dir)[k]
                > ROOT_ID,
{
    reveal(tree_sound);
    lemma_node_with_is(t.nodes, dir);
    lemma_child_ids_increase(t.nodes, dir);
    let c = children_of(t.nodes, dir);
    if c.len() > 0 {
        let d = choose|d: int| 0 <= d < t.nodes.len() && #[trigger] t.nodes[d] == node_with(
            t.nodes,
            dir,
        )->0;
        assert(t.nodes[d].kind is Dir);
        assert(c == child_ids(t.nodes, dir));
        assert forall|i: int, j: int| 0 <= i < c.len() && 0 <= j < c.len() && i != j implies c[i]
            != c[j] by {
            if i < j {
                assert(c[i] < c[j]);
            } else {
                assert(c[j] < c[i]);
            }
        }
    }
}

/// Every child that a directory lists is a node that lies in it, and looking its
/// name up in that directory finds a node of that name there.
pub proof fn lemma_children_found(t: TreeView, root: Seq<char>, dir: NodeId, k: int)
    requires
        tree_sound(t, root),
        0 <= k < children_of(t.nodes, dir).len(),
    ensures
        node_with(t.nodes, children_of(t.nodes, dir)[k]) matches Some(c) && c.parent == dir && c.id
            == children_of(t.nodes, dir)[k] && child_named(t.nodes, dir, c.name) is Some,
{
    reveal(tree_sound);
    lemma_node_with_is(t.nodes, dir);
    let d = choose|d: int| 0 <= d < t.nodes.len() && #[trigger] t.nodes[d] == node_with(
        t.nodes,
        dir,
    )->0;
    assert(t.nodes[d].kind is Dir);
    assert(children_of(t.nodes, dir) == child_ids(t.nodes, dir));
    lemma_child_ids_only(t.nodes, dir, k);
    let i = choose|i: int|
        0 < i < t.nodes.len() && (#[trigger] t.nodes[i]).parent == dir && t.nodes[i].id
            == child_ids(t.nodes, dir)[k];
    lemma_node_with(t.nodes, i);
    lemma_child_named_is(t.nodes, dir, t.nodes[i].name);
}

proof fn lemma_node_with_is(nodes: Seq<NodeView>, id: NodeId)
    ensures
        match node_with(nodes, id) {
            Some(n) => n.id == id && exists|i: int|
                0 <= i < nodes.len() && #[trigger] nodes[i] == n,
            None => forall|i: int| 0 <= i < nodes.len() ==> (#[trigger] nodes[i]).id != id,
        },
    decreases nodes.len(),
{
    if nodes.len() > 0 {
        let d = nodes.drop_last();
        let last = nodes.len() - 1;
        if nodes[last].id == id {
            assert(nodes[last] == node_with(nodes, id)->0);
        } else {
            lemma_node_with_is(d, id);
            match node_with(d, id) {
                Some(n) => {
                    let i = choose|i: int| 0 <= i < d.len() && #[trigger] d[i] == n;
                    assert(nodes[i] == n);
                },
                None => {
                    assert forall|i: int| 0 <= i < nodes.len() implies (#[trigger] nodes[i]).id
                        != id by {
                        if i < last {
                            assert(d[i] == nodes[i]);
                        }
                    }
                },
            }
        }
    }
}

/// What a name is looked up to be is a node of that name in that directory, and
/// the directory lists it.
pub proof fn lemma_lookup_listed(t: TreeView, root: Seq<char>, dir: NodeId, name: Seq<u8>)
    requires
        tree_sound(t, root),
    ensures
        match child_named(t.nodes, dir, name) {
            Some(id) => {
                &&& node_with(t.nodes, id) matches Some(c) && c.parent == dir && c.name == name
                &&& children_of(t.nodes, dir).contains(id)
            },
            None => true,
        },
{
    reveal(tree_sound);
    lemma_child_named_is(t.nodes, dir, name);
    if let Some(id) = child_named(t.nodes, dir, name) {
        let i = choose|i: int|
            0 < i < t.nodes.len() && (#[trigger] t.nodes[i]).parent == dir && t.nodes[i].name
                == name && t.nodes[i].id == id;
        lemma_node_with(t.nodes, i);
        lemma_child_ids_has(t.nodes, i);
        assert(has_parent(t.nodes, t.nodes[i], i));
        let p = choose|p: int|
            0 <= p < i && (#[trigger] t.nodes[p]).kind is Dir && t.nodes[p].id
                == t.nodes[i].parent;
        lemma_node_with(t.nodes, p);
        assert(t.nodes[p].kind->children == child_ids(t.nodes, dir));
    }
}

/// A directory of a sound tree is found by its id, and lists the nodes that lie in
/// it.
pub proof fn lemma_tree_listing(t: TreeView, root: Seq<char>, d: int)
    requires
        tree_sound(t, root),
        0 <= d < t.nodes.len(),
        t.nodes[d].kind is Dir,
    ensures
        children_of(t.nodes, t.nodes[d].id) == child_ids(t.nodes, t.nodes[d].id),
{
    reveal(tree_sound);
    lemma_node_with(t.nodes, d);
}

/// A node of a sound tree is found by its id.
pub proof fn lemma_tree_node(t: TreeView, root: Seq<char>, i: int)
    requires
        tree_sound(t, root),
        0 <= i < t.nodes.len(),
    ensures
        node_with(t.nodes, t.nodes[i].id) == Some(t.nodes[i]),
{
    reveal(tree_sound);
    lemma_node_with(t.nodes, i);
}

/// The root of a sound tree is a directory.
pub proof fn lemma_root_found(t: TreeView, root: Seq<char>)
    requires
        tree_sound(t, root),
    ensures
        node_with(t.nodes, ROOT_ID) matches Some(n) && n.kind is Dir && n.parent == ROOT_ID,
{
    reveal(tree_sound);
    lemma_node_with(t.nodes, 0);
}

/// A name that is to be left out has no node at the root.
pub proof fn lemma_hidden_has_no_node(t: TreeView, root: Seq<char>, name: Seq<char>)
    requires
        tree_sound(t, root),
        hidden_at_root(name),
    ensures
        child_named(t.nodes, ROOT_ID, vstd::utf8::encode_utf8(name)) is None,
{
    reveal(tree_sound);
    let bytes = vstd::utf8::encode_utf8(name);
    crate::text::lemma_text_of_bytes(name);
    lemma_child_named_is(t.nodes, ROOT_ID, bytes);
    if let Some(id) = child_named(t.nodes, ROOT_ID, bytes) {
        let i = choose|i: int|
            0 < i < t.nodes.len() && (#[trigger] t.nodes[i]).parent == ROOT_ID && t.nodes[i].name
                == bytes && t.nodes[i].id == id;
        assert(belongs(t.nodes[i]));
    }
}

/// No volume that is to be skipped is looked at.
pub proof fn lemma_skipped_not_looked_at(
    table: Seq<crate::mount::MountEntry>,
    skip: Seq<Seq<char>>,
    i: int,
)
    requires
        0 <= i < super::candidates(table, skip).len(),
    ensures
        !crate::path::has_path(skip, super::candidates(table, skip)[i]),
    decreases table.len(),
{
    let before = super::candidates(table.drop_last(), skip);
    if i < before.len() {
        lemma_skipped_not_looked_at(table.drop_last(), skip, i);
    }
}

/// The volumes that are found come by path, and are those that are Blu-rays.
pub proof fn lemma_volumes_sorted(points: Seq<Seq<char>>, facts: Seq<super::VolumeFacts>)
    ensures
        ({
            let found = super::blu_rays(points, facts);
            let listed = crate::order::sorted(found, super::volume_rank());
            &&& listed.to_multiset() == found.to_multiset()
            &&& crate::order::in_order(listed, super::volume_rank())
        }),
{
    let found = super::blu_rays(points, facts);
    let rank = super::volume_rank();
    crate::order::lemma_sorted_keeps(found, rank);
    crate::order::lemma_paths_ordered();
    let by_path = |a: Seq<char>, b: Seq<char>| crate::order::path_rank(a, b);
    assert(crate::order::is_order(by_path));
    assert forall|a: super::BdVolumeView, b: super::BdVolumeView|
        (#[trigger] rank(a, b) == crate::order::Rank::After) == (rank(b, a)
            == crate::order::Rank::Before) by {
        assert(by_path(a.path, b.path) == rank(a, b));
        assert(by_path(b.path, a.path) == rank(b, a));
    }
    assert forall|a: super::BdVolumeView, b: super::BdVolumeView, c: super::BdVolumeView|
        #[trigger] rank(a, b) != crate::order::Rank::After && #[trigger] rank(b, c)
            != crate::order::Rank::After implies rank(a, c) != crate::order::Rank::After by {
        assert(by_path(a.path, b.path) == rank(a, b));
        assert(by_path(b.path, c.path) == rank(b, c));
        assert(by_path(a.path, c.path) == rank(a, c));
    }
    crate::order::lemma_sorted_in_order(found, rank);
}

} // verus!
