//! A finished tree mirrors the disc: each directory lists what the disc lists
//! there, in order, without what is left out.

use vstd::prelude::*;
use vstd::utf8::encode_utf8;

use super::law::{child_ids, walk_sound};
use super::walk::{
    epoch, lemma_rested, moves_left, name_rank, needed, new_node, new_walk, raw_entries, rested,
    size_or_none, stepped_udf, with_listing, with_look, with_node, BuilderView, EntryView,
    FrameView, Look, NeedView,
};
use super::{children_of, node_with, NodeId, NodeView, Timestamp};
use crate::order;
use crate::rawudf::log::{Known, Step};
use crate::rawudf::volume::RawUdfView;
use crate::text::text_of;

verus! {

/// What a disc holds: the entries of each directory, and what a look at each
/// entry shows.
pub struct Disc {
    pub list: spec_fn(Seq<u8>) -> Seq<EntryView>,
    pub look: spec_fn(Seq<u8>, bool) -> Look,
}

/// The entries of a directory in the order of the walk.
pub open spec fn entries_for(b: BuilderView, disc: Disc, dir: Seq<u8>) -> Seq<EntryView> {
    if b.raw {
        (disc.list)(dir)
    } else {
        order::sorted((disc.list)(dir), name_rank())
    }
}

pub open spec fn look_at(b: BuilderView, disc: Disc, dir: Seq<u8>, e: EntryView) -> Look {
    (disc.look)(b.child_path(dir, e.name), e.is_dir)
}

/// The entry gets a node.
pub open spec fn has_node(b: BuilderView, disc: Disc, dir: Seq<u8>, e: EntryView) -> bool {
    b.shows(dir, e.name) && (look_at(b, disc, dir, e) is Dir || look_at(b, disc, dir, e) is File)
}

/// The names of the first `k` entries of a directory that get a node.
pub open spec fn shown(b: BuilderView, disc: Disc, dir: Seq<u8>, k: int) -> Seq<Seq<u8>>
    decreases k,
{
    if k <= 0 {
        Seq::empty()
    } else {
        let e = entries_for(b, disc, dir)[k - 1];
        let before = shown(b, disc, dir, k - 1);
        if has_node(b, disc, dir, e) {
            before.push(e.name)
        } else {
            before
        }
    }
}

/// The walk over a mounted volume goes through all entries of a directory, by
/// name.
pub proof fn lemma_entries_by_name(b: BuilderView, disc: Disc, dir: Seq<u8>)
    requires
        !b.raw,
    ensures
        entries_for(b, disc, dir).to_multiset() == (disc.list)(dir).to_multiset(),
        order::in_order(entries_for(b, disc, dir), name_rank()),
{
    let rank = name_rank();
    let by_bytes = |a: Seq<u8>, b: Seq<u8>| order::bytes_rank(a, b);
    order::lemma_sorted_keeps((disc.list)(dir), rank);
    order::lemma_bytes_ordered();
    assert(order::is_order(by_bytes));
    assert forall|x: EntryView, y: EntryView|
        (#[trigger] rank(x, y) == order::Rank::After) == (rank(y, x) == order::Rank::Before) by {
        assert(by_bytes(x.name, y.name) == rank(x, y));
        assert(by_bytes(y.name, x.name) == rank(y, x));
    }
    assert forall|x: EntryView, y: EntryView, z: EntryView|
        #[trigger] rank(x, y) != order::Rank::After && #[trigger] rank(y, z)
            != order::Rank::After implies rank(x, z) != order::Rank::After by {
        assert(by_bytes(x.name, y.name) == rank(x, y));
        assert(by_bytes(y.name, z.name) == rank(y, z));
        assert(by_bytes(x.name, z.name) == rank(x, z));
    }
    order::lemma_sorted_in_order((disc.list)(dir), rank);
}

/// All names of a directory that get a node.
pub open spec fn all_shown(b: BuilderView, disc: Disc, dir: Seq<u8>) -> Seq<Seq<u8>> {
    shown(b, disc, dir, entries_for(b, disc, dir).len() as int)
}

/// The names of the nodes that lie in `parent`, in the order of their ids.
pub open spec fn child_names(nodes: Seq<NodeView>, parent: NodeId) -> Seq<Seq<u8>>
    decreases nodes.len(),
{
    if nodes.len() <= 1 {
        Seq::empty()
    } else {
        let before = child_names(nodes.drop_last(), parent);
        if nodes.last().parent == parent {
            before.push(nodes.last().name)
        } else {
            before
        }
    }
}

/// The path of the directory whose node is the one at `i`.
pub open spec fn dir_path(b: BuilderView, i: int) -> Seq<u8> {
    if i == 0 {
        encode_utf8(b.root)
    } else {
        b.tree.nodes[i].path
    }
}

pub open spec fn on_stack(b: BuilderView, d: int) -> bool {
    exists|i: int| 0 <= i < b.stack.len() && (#[trigger] b.stack[i]).index == d
}

pub open spec fn frame_true(b: BuilderView, disc: Disc, f: FrameView) -> bool {
    &&& f.path == dir_path(b, f.index)
    &&& f.listed ==> f.entries == entries_for(b, disc, f.path)
    &&& child_names(b.tree.nodes, b.tree.nodes[f.index].id) == shown(
        b,
        disc,
        f.path,
        if f.listed {
            f.at
        } else {
            0
        },
    )
}

/// The node is what a look at its path shows.
pub open spec fn node_true(n: NodeView, look: Look) -> bool {
    match look {
        Look::Dir { mtime } => n.kind is Dir && n.size == 0 && n.mtime == mtime,
        Look::File { size, mtime } => !(n.kind is Dir) && n.size == size && n.mtime == mtime,
        _ => false,
    }
}

/// The node at `i` is an entry of a directory of the disc, as a look at it
/// shows.
pub open spec fn entry_true(b: BuilderView, disc: Disc, i: int) -> bool {
    let n = b.tree.nodes[i];
    exists|p: int, flag: bool|
        0 <= p < i && b.tree.nodes[p].kind is Dir && b.tree.nodes[p].id == n.parent && n.path
            == b.child_path(#[trigger] dir_path(b, p), n.name) && node_true(
            n,
            #[trigger] (disc.look)(n.path, flag),
        )
}

/// The walk is true to the disc so far.
pub open spec fn mirrors(b: BuilderView, disc: Disc) -> bool {
    &&& walk_sound(b)
    &&& forall|i: int, j: int|
        0 <= i < j < b.stack.len() ==> (#[trigger] b.stack[i]).index < (
        #[trigger] b.stack[j]).index
    &&& forall|i: int| 0 <= i < b.stack.len() ==> frame_true(b, disc, #[trigger] b.stack[i])
    &&& forall|d: int|
        0 <= d < b.tree.nodes.len() && (#[trigger] b.tree.nodes[d]).kind is Dir && !on_stack(b, d)
            ==> child_names(b.tree.nodes, b.tree.nodes[d].id) == all_shown(
            b,
            disc,
            dir_path(b, d),
        )
    &&& forall|i: int| 0 < i < b.tree.nodes.len() ==> #[trigger] entry_true(b, disc, i)
}

/// What the answers to a walk depend on stays the same.
pub open spec fn same_disc(a: BuilderView, b: BuilderView) -> bool {
    a.root == b.root && a.raw == b.raw
}

proof fn lemma_shown_same(a: BuilderView, b: BuilderView, disc: Disc, dir: Seq<u8>, k: int)
    requires
        same_disc(a, b),
    ensures
        shown(a, disc, dir, k) == shown(b, disc, dir, k),
        entries_for(a, disc, dir) == entries_for(b, disc, dir),
    decreases k,
{
    if k > 0 {
        lemma_shown_same(a, b, disc, dir, k - 1);
    }
}

/// A walk that has not begun is true to every disc.
pub proof fn lemma_new_walk_mirrors(
    source: Seq<char>,
    label: Seq<char>,
    node_path: Seq<char>,
    root: Seq<char>,
    mtime: Timestamp,
    raw: bool,
    disc: Disc,
)
    requires
        raw ==> root.len() == 0,
    ensures
        mirrors(new_walk(source, label, node_path, root, mtime, raw), disc),
{
    let b = new_walk(source, label, node_path, root, mtime, raw);
    super::law::lemma_new_walk_sound(source, label, node_path, root, mtime, raw);
    assert(frame_true(b, disc, b.stack[0]));
    assert(b.stack[0].index == 0);
    assert(on_stack(b, 0));
}

/// A listing that is the disc's keeps the walk true.
pub proof fn lemma_listing_mirrors(b: BuilderView, disc: Disc)
    requires
        mirrors(b, disc),
        b.waits_for_listing(),
    ensures
        mirrors(with_listing(b, (disc.list)(b.stack.last().path)), disc),
{
    let n = with_listing(b, (disc.list)(b.stack.last().path));
    let top = b.stack.len() - 1;
    super::law::lemma_listing_sound(b, (disc.list)(b.stack.last().path));
    lemma_kept(b, n, disc);
    assert forall|i: int| 0 <= i < n.stack.len() implies frame_true(
        n,
        disc,
        #[trigger] n.stack[i],
    ) by {
        let f = b.stack[i];
        assert(frame_true(b, disc, f));
        lemma_shown_same(b, n, disc, f.path, 0);
        lemma_shown_same(b, n, disc, f.path, f.at);
        assert(dir_path(n, f.index) == dir_path(b, f.index));
    }
}

/// With the same nodes and the same directories on the stack, what is done
/// stays true.
proof fn lemma_kept(b: BuilderView, n: BuilderView, disc: Disc)
    requires
        mirrors(b, disc),
        same_disc(b, n),
        n.tree == b.tree,
        n.stack.len() == b.stack.len(),
        forall|i: int| 0 <= i < n.stack.len() ==> (#[trigger] n.stack[i]).index == b.stack[i].index,
    ensures
        forall|i: int, j: int|
            0 <= i < j < n.stack.len() ==> (#[trigger] n.stack[i]).index < (
            #[trigger] n.stack[j]).index,
        forall|d: int|
            0 <= d < n.tree.nodes.len() && (#[trigger] n.tree.nodes[d]).kind is Dir && !on_stack(
                n,
                d,
            ) ==> child_names(n.tree.nodes, n.tree.nodes[d].id) == all_shown(
                n,
                disc,
                dir_path(n, d),
            ),
        forall|i: int| 0 < i < n.tree.nodes.len() ==> #[trigger] entry_true(n, disc, i),
{
    assert forall|i: int, j: int| 0 <= i < j < n.stack.len() implies (#[trigger] n.stack[i]).index
        < (#[trigger] n.stack[j]).index by {
        assert(b.stack[i].index < b.stack[j].index);
    }
    assert forall|d: int|
        0 <= d < n.tree.nodes.len() && (#[trigger] n.tree.nodes[d]).kind is Dir && !on_stack(
            n,
            d,
        ) implies child_names(n.tree.nodes, n.tree.nodes[d].id) == all_shown(
        n,
        disc,
        dir_path(n, d),
    ) by {
        if on_stack(b, d) {
            let i = choose|i: int| 0 <= i < b.stack.len() && (#[trigger] b.stack[i]).index == d;
            assert(n.stack[i].index == d);
        }
        assert(b.tree.nodes[d].kind is Dir);
        let dir = dir_path(b, d);
        lemma_shown_same(b, n, disc, dir, entries_for(b, disc, dir).len() as int);
    }
    assert forall|i: int| 0 < i < n.tree.nodes.len() implies #[trigger] entry_true(
        n,
        disc,
        i,
    ) by {
        lemma_entry_kept(b, n, disc, i);
    }
}

proof fn lemma_entry_kept(b: BuilderView, n: BuilderView, disc: Disc, i: int)
    requires
        entry_true(b, disc, i),
        same_disc(b, n),
        0 < i < b.tree.nodes.len() <= n.tree.nodes.len(),
        forall|k: int|
            0 <= k < b.tree.nodes.len() ==> (#[trigger] n.tree.nodes[k]).id == b.tree.nodes[k].id
                && n.tree.nodes[k].parent == b.tree.nodes[k].parent && n.tree.nodes[k].path
                == b.tree.nodes[k].path && n.tree.nodes[k].name == b.tree.nodes[k].name && (
            n.tree.nodes[k].kind is Dir) == (b.tree.nodes[k].kind is Dir) && n.tree.nodes[k].size
                == b.tree.nodes[k].size && n.tree.nodes[k].mtime == b.tree.nodes[k].mtime,
    ensures
        entry_true(n, disc, i),
{
    let x = b.tree.nodes[i];
    let (p, flag) = choose|p: int, flag: bool|
        0 <= p < i && b.tree.nodes[p].kind is Dir && b.tree.nodes[p].id == x.parent && x.path
            == b.child_path(#[trigger] dir_path(b, p), x.name) && node_true(
            x,
            #[trigger] (disc.look)(x.path, flag),
        );
    let y = n.tree.nodes[i];
    assert(y.path == x.path);
    assert(n.tree.nodes[p].kind is Dir && n.tree.nodes[p].id == y.parent);
    assert(dir_path(n, p) == dir_path(b, p));
    assert(node_true(y, (disc.look)(y.path, flag)));
}

/// Passing over entries and leaving directories keeps the walk true.
pub proof fn lemma_rested_mirrors(b: BuilderView, disc: Disc)
    requires
        mirrors(b, disc),
    ensures
        mirrors(rested(b), disc),
    decreases moves_left(b.stack),
{
    if b.stack.len() > 0 && b.stack.last().listed {
        let top = b.stack.len() - 1;
        let f = b.stack[top];
        assert(frame_true(b, disc, f));
        assert(super::walk::frame_ok(f, b.tree.nodes));
        if f.at >= f.entries.len() {
            let n = BuilderView { stack: b.stack.drop_last(), ..b };
            assert(walk_sound(n)) by {
                assert forall|i: int| 0 <= i < n.stack.len() implies super::walk::frame_ok(
                    #[trigger] n.stack[i],
                    n.tree.nodes,
                ) && (n.stack[i].index == 0 ==> n.at_root(n.stack[i].path)) by {
                    assert(super::walk::frame_ok(b.stack[i], b.tree.nodes));
                    assert(b.stack[i].index == 0 ==> b.at_root(b.stack[i].path));
                }
            }
            assert forall|i: int, j: int| 0 <= i < j < n.stack.len() implies (
            #[trigger] n.stack[i]).index < (#[trigger] n.stack[j]).index by {
                assert(b.stack[i].index < b.stack[j].index);
            }
            assert forall|i: int| 0 <= i < n.stack.len() implies frame_true(
                n,
                disc,
                #[trigger] n.stack[i],
            ) by {
                let g = b.stack[i];
                assert(frame_true(b, disc, g));
                lemma_shown_same(b, n, disc, g.path, 0);
                lemma_shown_same(b, n, disc, g.path, g.at);
                assert(dir_path(n, g.index) == dir_path(b, g.index));
            }
            assert forall|d: int|
                0 <= d < n.tree.nodes.len() && (#[trigger] n.tree.nodes[d]).kind is Dir
                    && !on_stack(n, d) implies child_names(n.tree.nodes, n.tree.nodes[d].id)
                == all_shown(n, disc, dir_path(n, d)) by {
                let dir = dir_path(b, d);
                lemma_shown_same(b, n, disc, dir, entries_for(b, disc, dir).len() as int);
                assert(b.tree.nodes[d].kind is Dir);
                assert(dir_path(n, d) == dir);
                if on_stack(b, d) {
                    let i = choose|i: int|
                        0 <= i < b.stack.len() && (#[trigger] b.stack[i]).index == d;
                    if i < top {
                        assert(n.stack[i].index == d);
                    }
                    assert(f.at == f.entries.len());
                }
            }
            assert forall|i: int| 0 < i < n.tree.nodes.len() implies #[trigger] entry_true(
                n,
                disc,
                i,
            ) by {
                assert(entry_true(b, disc, i));
                lemma_entry_kept(b, n, disc, i);
            }
            lemma_rested_mirrors(n, disc);
        } else if !b.shows(f.path, b.entry().name) {
            let n = b.stepped_over();
            assert(n.stack.drop_last() =~= b.stack.drop_last());
            lemma_stepped_over(b, disc);
            lemma_rested_mirrors(n, disc);
        }
    }
}

/// Passing over an entry that gets no node keeps the walk true.
proof fn lemma_stepped_over(b: BuilderView, disc: Disc)
    requires
        mirrors(b, disc),
        b.waits_for_look(),
        !has_node(b, disc, b.stack.last().path, b.entry()),
    ensures
        mirrors(b.stepped_over(), disc),
{
    let n = b.stepped_over();
    let top = b.stack.len() - 1;
    assert(walk_sound(n)) by {
        assert forall|i: int| 0 <= i < n.stack.len() implies super::walk::frame_ok(
            #[trigger] n.stack[i],
            n.tree.nodes,
        ) && (n.stack[i].index == 0 ==> n.at_root(n.stack[i].path)) by {
            assert(super::walk::frame_ok(b.stack[i], b.tree.nodes));
            assert(b.stack[i].index == 0 ==> b.at_root(b.stack[i].path));
        }
    }
    lemma_kept(b, n, disc);
    assert forall|i: int| 0 <= i < n.stack.len() implies frame_true(
        n,
        disc,
        #[trigger] n.stack[i],
    ) by {
        let g = b.stack[i];
        assert(frame_true(b, disc, g));
        lemma_shown_same(b, n, disc, g.path, 0);
        lemma_shown_same(b, n, disc, g.path, g.at);
        lemma_shown_same(b, n, disc, g.path, g.at + 1);
        assert(dir_path(n, g.index) == dir_path(b, g.index));
        if i == top {
            assert(super::walk::frame_ok(g, b.tree.nodes));
            assert(shown(b, disc, g.path, g.at + 1) == shown(b, disc, g.path, g.at));
        }
    }
}

/// `b` has the same names, parents and number as `a`.
pub open spec fn same_names(a: Seq<NodeView>, b: Seq<NodeView>) -> bool {
    &&& a.len() == b.len()
    &&& forall|i: int|
        0 <= i < a.len() ==> (#[trigger] a[i]).name == b[i].name && a[i].parent == b[i].parent
}

proof fn lemma_child_names_same(a: Seq<NodeView>, b: Seq<NodeView>, parent: NodeId)
    requires
        same_names(a, b),
    ensures
        child_names(a, parent) == child_names(b, parent),
    decreases a.len(),
{
    if a.len() > 0 {
        let x = a.drop_last();
        let y = b.drop_last();
        assert(a[a.len() - 1].name == b[a.len() - 1].name);
        assert forall|i: int| 0 <= i < x.len() implies (#[trigger] x[i]).name == y[i].name
            && x[i].parent == y[i].parent by {
            assert(a[i].name == b[i].name);
        }
        lemma_child_names_same(x, y, parent);
    }
}

proof fn lemma_no_names_yet(nodes: Seq<NodeView>, id: NodeId)
    requires
        forall|i: int| 0 < i < nodes.len() ==> (#[trigger] nodes[i]).parent != id,
    ensures
        child_names(nodes, id) == Seq::<Seq<u8>>::empty(),
    decreases nodes.len(),
{
    if nodes.len() > 1 {
        lemma_no_names_yet(nodes.drop_last(), id);
        assert(nodes[nodes.len() - 1].parent != id);
    }
}

/// The names in each directory once a node was entered.
proof fn lemma_entered_names(nodes: Seq<NodeView>, dir: int, x: NodeView, parent: NodeId)
    requires
        0 <= dir < nodes.len(),
    ensures
        child_names(with_node(nodes, dir, x), parent) == if x.parent == parent {
            child_names(nodes, parent).push(x.name)
        } else {
            child_names(nodes, parent)
        },
{
    let n = with_node(nodes, dir, x);
    let d = n.drop_last();
    assert forall|i: int| 0 <= i < nodes.len() implies (#[trigger] nodes[i]).name == d[i].name
        && nodes[i].parent == d[i].parent by {
        assert(d[i] == n[i]);
    }
    lemma_child_names_same(nodes, d, parent);
}

/// A look that shows what the disc has keeps the walk true.
pub proof fn lemma_look_mirrors(b: BuilderView, disc: Disc)
    requires
        mirrors(b, disc),
        b.waits_for_look(),
        b.shows(b.stack.last().path, b.entry().name),
        b.next_id < u64::MAX,
    ensures
        mirrors(with_look(b, look_at(b, disc, b.stack.last().path, b.entry())), disc),
{
    let top = b.stack.len() - 1;
    let f = b.stack[top];
    let look = look_at(b, disc, f.path, b.entry());
    let n = with_look(b, look);
    assert(frame_true(b, disc, f));
    super::law::lemma_look_sound(b, look);
    if look is Gone || look is Other {
        lemma_stepped_over(b, disc);
        let s = b.stepped_over();
        lemma_next_id(s, n, disc);
    } else {
        lemma_entered_mirrors(b, disc);
    }
}

/// The next id has no part in what the walk mirrors.
proof fn lemma_next_id(s: BuilderView, n: BuilderView, disc: Disc)
    requires
        mirrors(s, disc),
        walk_sound(n),
        n == (BuilderView { next_id: n.next_id, ..s }),
    ensures
        mirrors(n, disc),
{
    lemma_kept(s, n, disc);
    assert forall|i: int| 0 <= i < n.stack.len() implies frame_true(
        n,
        disc,
        #[trigger] n.stack[i],
    ) by {
        let g = s.stack[i];
        assert(frame_true(s, disc, g));
        lemma_shown_same(s, n, disc, g.path, 0);
        lemma_shown_same(s, n, disc, g.path, g.at);
        assert(dir_path(n, g.index) == dir_path(s, g.index));
    }
}

#[verifier::spinoff_prover]
proof fn lemma_entered_frames(b: BuilderView, disc: Disc)
    requires
        mirrors(b, disc),
        b.waits_for_look(),
        has_node(b, disc, b.stack.last().path, b.entry()),
        b.next_id < u64::MAX,
        walk_sound(with_look(b, look_at(b, disc, b.stack.last().path, b.entry()))),
    ensures
        ({
            let n = with_look(b, look_at(b, disc, b.stack.last().path, b.entry()));
            forall|i: int| 0 <= i < n.stack.len() ==> frame_true(n, disc, #[trigger] n.stack[i])
        }),
{
    let top = b.stack.len() - 1;
    let n = with_look(b, look_at(b, disc, b.stack[top].path, b.entry()));
    assert forall|i: int| 0 <= i < n.stack.len() implies frame_true(
        n,
        disc,
        #[trigger] n.stack[i],
    ) by {
        if i < top {
            lemma_outer_frame(b, disc, i);
        } else if i == top {
            lemma_inner_frame(b, disc);
        } else {
            lemma_new_frame(b, disc, i);
        }
    }
}

#[verifier::spinoff_prover]
proof fn lemma_outer_frame(b: BuilderView, disc: Disc, i: int)
    requires
        mirrors(b, disc),
        b.waits_for_look(),
        has_node(b, disc, b.stack.last().path, b.entry()),
        b.next_id < u64::MAX,
        0 <= i < b.stack.len() - 1,
    ensures
        ({
            let n = with_look(b, look_at(b, disc, b.stack.last().path, b.entry()));
            i < n.stack.len() && frame_true(n, disc, n.stack[i])
        }),
{
    let top = b.stack.len() - 1;
    let f = b.stack[top];
    let look = look_at(b, disc, f.path, b.entry());
    let n = with_look(b, look);
    let x = new_node(b, look);
    let nodes = b.tree.nodes;
    super::law::lemma_tree_links(b.tree, b.root);
    assert(super::walk::frame_ok(f, nodes));
    let g = b.stack[i];
    assert(frame_true(b, disc, g));
    assert(super::walk::frame_ok(g, nodes));
    assert(n.stack[i] == g);
    lemma_shown_same(b, n, disc, g.path, 0);
    lemma_shown_same(b, n, disc, g.path, g.at);
    assert(dir_path(n, g.index) == dir_path(b, g.index));
    lemma_entered_names(nodes, f.index, x, nodes[g.index].id);
    assert(b.stack[i].index < b.stack[top].index);
    assert(nodes[g.index].id < nodes[f.index].id);
    assert(n.tree.nodes == with_node(nodes, f.index, x));
    assert(n.tree.nodes[g.index].id == nodes[g.index].id);
}

#[verifier::spinoff_prover]
proof fn lemma_inner_frame(b: BuilderView, disc: Disc)
    requires
        mirrors(b, disc),
        b.waits_for_look(),
        has_node(b, disc, b.stack.last().path, b.entry()),
        b.next_id < u64::MAX,
    ensures
        ({
            let n = with_look(b, look_at(b, disc, b.stack.last().path, b.entry()));
            let top = b.stack.len() - 1;
            top < n.stack.len() && frame_true(n, disc, n.stack[top])
        }),
{
    let top = b.stack.len() - 1;
    let f = b.stack[top];
    let look = look_at(b, disc, f.path, b.entry());
    let n = with_look(b, look);
    let x = new_node(b, look);
    let nodes = b.tree.nodes;
    super::law::lemma_tree_links(b.tree, b.root);
    assert(super::walk::frame_ok(f, nodes));
    assert(frame_true(b, disc, f));
    lemma_shown_same(b, n, disc, f.path, f.at + 1);
    assert(dir_path(n, f.index) == dir_path(b, f.index));
    lemma_entered_names(nodes, f.index, x, nodes[f.index].id);
    assert(shown(b, disc, f.path, f.at + 1) == shown(b, disc, f.path, f.at).push(b.entry().name));
    assert(n.tree.nodes == with_node(nodes, f.index, x));
    assert(n.tree.nodes[f.index].id == nodes[f.index].id);
    assert(n.stack[top] == FrameView { at: f.at + 1, ..f });
}

#[verifier::spinoff_prover]
proof fn lemma_new_frame(b: BuilderView, disc: Disc, i: int)
    requires
        mirrors(b, disc),
        b.waits_for_look(),
        has_node(b, disc, b.stack.last().path, b.entry()),
        b.next_id < u64::MAX,
        b.stack.len() <= i,
        i < with_look(b, look_at(b, disc, b.stack.last().path, b.entry())).stack.len(),
    ensures
        ({
            let n = with_look(b, look_at(b, disc, b.stack.last().path, b.entry()));
            frame_true(n, disc, n.stack[i])
        }),
{
    let top = b.stack.len() - 1;
    let f = b.stack[top];
    let look = look_at(b, disc, f.path, b.entry());
    let n = with_look(b, look);
    let x = new_node(b, look);
    let nodes = b.tree.nodes;
    super::law::lemma_tree_links(b.tree, b.root);
    assert(super::walk::frame_ok(f, nodes));
    let g = n.stack[i];
    assert(g.index == nodes.len());
    assert(n.tree.nodes == with_node(nodes, f.index, x));
    assert(n.tree.nodes[g.index] == x);
    lemma_fresh(b, x.id);
    lemma_no_names_yet(nodes, x.id);
    lemma_entered_names(nodes, f.index, x, x.id);
    assert(nodes[f.index].id < b.next_id);
}

/// No node lies in a directory that is not there yet.
proof fn lemma_fresh(b: BuilderView, id: NodeId)
    requires
        walk_sound(b),
        id == b.next_id,
    ensures
        forall|k: int| 0 < k < b.tree.nodes.len() ==> (#[trigger] b.tree.nodes[k]).parent != id,
{
    let nodes = b.tree.nodes;
    super::law::lemma_tree_links(b.tree, b.root);
    assert forall|k: int| 0 < k < nodes.len() implies (#[trigger] nodes[k]).parent != id by {
        assert(super::law::has_parent(nodes, nodes[k], k));
        let p = choose|p: int|
            0 <= p < k && (#[trigger] nodes[p]).kind is Dir && nodes[p].id == nodes[k].parent;
        assert(nodes[p].id < b.next_id);
    }
}

#[verifier::spinoff_prover]
#[verifier::rlimit(50)]
proof fn lemma_entered_mirrors(b: BuilderView, disc: Disc)
    requires
        mirrors(b, disc),
        b.waits_for_look(),
        has_node(b, disc, b.stack.last().path, b.entry()),
        b.next_id < u64::MAX,
        walk_sound(with_look(b, look_at(b, disc, b.stack.last().path, b.entry()))),
    ensures
        mirrors(with_look(b, look_at(b, disc, b.stack.last().path, b.entry())), disc),
{
    let top = b.stack.len() - 1;
    let f = b.stack[top];
    let look = look_at(b, disc, f.path, b.entry());
    let n = with_look(b, look);
    let x = new_node(b, look);
    let nodes = b.tree.nodes;
    super::law::lemma_tree_links(b.tree, b.root);
    assert(super::walk::frame_ok(f, nodes));
    assert(frame_true(b, disc, f));
    lemma_entered_frames(b, disc);
    assert(n.tree.nodes == with_node(nodes, f.index, x));
    assert forall|i: int, j: int| 0 <= i < j < n.stack.len() implies (#[trigger] n.stack[i]).index
        < (#[trigger] n.stack[j]).index by {
        assert(super::walk::frame_ok(b.stack[i], nodes));
        if j <= top {
            assert(b.stack[i].index < b.stack[j].index);
        }
    }
    assert forall|d: int|
        0 <= d < n.tree.nodes.len() && (#[trigger] n.tree.nodes[d]).kind is Dir && !on_stack(
            n,
            d,
        ) implies child_names(n.tree.nodes, n.tree.nodes[d].id) == all_shown(
        n,
        disc,
        dir_path(n, d),
    ) by {
        if d == nodes.len() {
            assert(n.stack[top + 1].index == d);
        } else {
            assert(nodes[d].kind is Dir);
            if on_stack(b, d) {
                let i = choose|i: int|
                    0 <= i < b.stack.len() && (#[trigger] b.stack[i]).index == d;
                assert(n.stack[i].index == d);
            }
            assert(n.stack[top].index == f.index);
            assert(d != f.index);
            if d < f.index {
                assert(nodes[d].id < nodes[f.index].id);
            } else {
                assert(nodes[f.index].id < nodes[d].id);
            }
            lemma_entered_names(nodes, f.index, x, nodes[d].id);
            let dir = dir_path(b, d);
            assert(dir_path(n, d) == dir);
            lemma_shown_same(b, n, disc, dir, entries_for(b, disc, dir).len() as int);
        }
    }
    assert forall|i: int| 0 < i < n.tree.nodes.len() implies #[trigger] entry_true(
        n,
        disc,
        i,
    ) by {
        if i < nodes.len() {
            assert(entry_true(b, disc, i));
            assert forall|k: int| 0 <= k < nodes.len() implies (#[trigger] n.tree.nodes[k]).id
                == nodes[k].id && n.tree.nodes[k].parent == nodes[k].parent
                && n.tree.nodes[k].path == nodes[k].path && n.tree.nodes[k].name == nodes[k].name
                && (n.tree.nodes[k].kind is Dir) == (nodes[k].kind is Dir)
                && n.tree.nodes[k].size == nodes[k].size && n.tree.nodes[k].mtime
                == nodes[k].mtime by {}
            lemma_entry_kept(b, n, disc, i);
        } else {
            assert(n.tree.nodes[i] == x);
            assert(n.tree.nodes[f.index].kind is Dir && n.tree.nodes[f.index].id == x.parent);
            assert(dir_path(n, f.index) == f.path);
            assert(x.path == n.child_path(dir_path(n, f.index), x.name));
            assert(look == (disc.look)(x.path, b.entry().is_dir));
            assert(node_true(x, look)) by {
                if look is File {
                    assert(!(x.kind is Dir));
                }
            }
        }
    }
}

/// What the volume answers is what the disc holds.
pub open spec fn answers_disc(b: BuilderView, v: RawUdfView, m: Known, disc: Disc) -> bool {
    match needed(rested(b)) {
        NeedView::Nothing => true,
        NeedView::List { path } => match v.listed(m, text_of(path)) {
            Step::Done(found) => raw_entries(found) == (disc.list)(path),
            _ => true,
        },
        NeedView::Look { path, is_dir } => (disc.look)(path, is_dir) == if is_dir {
            Look::Dir { mtime: epoch() }
        } else {
            Look::File { size: size_or_none(v, m, text_of(path)), mtime: epoch() }
        },
    }
}

/// A step of the walk over a raw volume that answers what the disc holds keeps
/// the walk true.
pub proof fn lemma_step_udf_mirrors(b: BuilderView, v: RawUdfView, m: Known, disc: Disc)
    requires
        mirrors(b, disc),
        answers_disc(b, v, m, disc),
        b.raw,
    ensures
        mirrors(stepped_udf(b, v, m).1, disc),
{
    let r = rested(b);
    lemma_rested(b);
    lemma_rested_mirrors(b, disc);
    match needed(r) {
        NeedView::Nothing => {},
        NeedView::List { path } => {
            if v.listed(m, text_of(path)) is Done {
                lemma_listing_mirrors(r, disc);
            }
        },
        NeedView::Look { path, is_dir } => {
            if r.next_id < u64::MAX {
                lemma_look_mirrors(r, disc);
            }
        },
    }
}

proof fn lemma_names_of_ids(nodes: Seq<NodeView>, parent: NodeId, k: int)
    requires
        0 <= k < child_ids(nodes, parent).len(),
    ensures
        child_names(nodes, parent).len() == child_ids(nodes, parent).len(),
        exists|i: int|
            0 < i < nodes.len() && (#[trigger] nodes[i]).id == child_ids(nodes, parent)[k]
                && nodes[i].name == child_names(nodes, parent)[k],
    decreases nodes.len(),
{
    lemma_as_many_names(nodes, parent);
    let d = nodes.drop_last();
    let before = child_ids(d, parent);
    lemma_as_many_names(d, parent);
    if k < before.len() {
        lemma_names_of_ids(d, parent, k);
        let i = choose|i: int|
            0 < i < d.len() && (#[trigger] d[i]).id == before[k] && d[i].name == child_names(
                d,
                parent,
            )[k];
        assert(nodes[i] == d[i]);
    } else {
        let i = nodes.len() - 1;
        assert(nodes[i].id == child_ids(nodes, parent)[k]);
    }
}

proof fn lemma_as_many_names(nodes: Seq<NodeView>, parent: NodeId)
    ensures
        child_names(nodes, parent).len() == child_ids(nodes, parent).len(),
    decreases nodes.len(),
{
    if nodes.len() > 1 {
        lemma_as_many_names(nodes.drop_last(), parent);
    }
}

/// When a walk over a disc is over, the children of every directory of its tree
/// have just the names that the disc lists there, in order, without what is
/// left out.
pub proof fn lemma_finished_mirrors(b: BuilderView, disc: Disc, d: int)
    requires
        mirrors(b, disc),
        b.stack.len() == 0,
        0 <= d < b.tree.nodes.len(),
        b.tree.nodes[d].kind is Dir,
    ensures
        ({
            let nodes = b.tree.nodes;
            let children = children_of(nodes, nodes[d].id);
            let names = all_shown(b, disc, dir_path(b, d));
            &&& children.len() == names.len()
            &&& forall|k: int|
                0 <= k < children.len() ==> (node_with(nodes, #[trigger] children[k]) matches Some(
                    c,
                ) && c.name == names[k])
        }),
{
    let nodes = b.tree.nodes;
    let id = nodes[d].id;
    let children = children_of(nodes, id);
    let names = all_shown(b, disc, dir_path(b, d));
    assert(!on_stack(b, d));
    super::law::lemma_tree_listing(b.tree, b.root, d);
    lemma_as_many_names(nodes, id);
    assert forall|k: int| 0 <= k < children.len() implies (node_with(
        nodes,
        #[trigger] children[k],
    ) matches Some(c) && c.name == names[k]) by {
        lemma_names_of_ids(nodes, id, k);
        let i = choose|i: int|
            0 < i < nodes.len() && (#[trigger] nodes[i]).id == children[k] && nodes[i].name
                == child_names(nodes, id)[k];
        super::law::lemma_tree_node(b.tree, b.root, i);
    }
}

} // verus!
