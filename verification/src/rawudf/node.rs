//! What holds of the names of device nodes, and of a search among them.

use vstd::prelude::*;

use super::device::{
    asked, block_name, buffered_node, digit_run, eligible, node_disk, node_name, pass, raw_nodes,
    same_device, sanitized, whole_disk, with_ids, with_nodes, with_path, with_paths, OpticalNode,
    SearchView,
};
use crate::da::OpticalClass;
use crate::number;
use crate::path;
use crate::path::law::{lemma_dots, lemma_entry_path, lemma_name_is_comp, plain_name};
use crate::text;

verus! {

broadcast use vstd::string::group_string_axioms;

// ───────────────────────── BSD names ─────────────────────────

/// The text is a number, in decimal digits.
pub open spec fn digits(d: Seq<char>) -> bool {
    d.len() > 0 && forall|i: int| 0 <= i < d.len() ==> '0' <= #[trigger] d[i] && d[i] <= '9'
}

/// What may follow the number of a disk in a name: not another digit, and no slash.
pub open spec fn tail_ok(t: Seq<char>) -> bool {
    &&& t.len() > 0 ==> !('0' <= t[0] && t[0] <= '9')
    &&& forall|i: int| 0 <= i < t.len() ==> #[trigger] t[i] != '/'
}

/// The name of the disk with the number `d`.
pub open spec fn disk(d: Seq<char>) -> Seq<char> {
    seq!['d', 'i', 's', 'k'] + d
}

/// A node of the disk `d`: itself or, with a tail, a slice of it; in `/dev` or by
/// its bare name; raw or buffered.
pub open spec fn node(in_dev: bool, raw: bool, d: Seq<char>, tail: Seq<char>) -> Seq<char> {
    (if in_dev {
        seq!['/', 'd', 'e', 'v', '/']
    } else {
        Seq::empty()
    }) + (if raw {
        seq!['r']
    } else {
        Seq::empty()
    }) + disk(d) + tail
}

proof fn lemma_digit_run(d: Seq<char>, t: Seq<char>)
    requires
        forall|i: int| 0 <= i < d.len() ==> '0' <= #[trigger] d[i] && d[i] <= '9',
        t.len() > 0 ==> !('0' <= t[0] && t[0] <= '9'),
    ensures
        digit_run(d + t) == d.len(),
    decreases d.len(),
{
    if d.len() > 0 {
        let e = d.skip(1);
        assert forall|i: int| 0 <= i < e.len() implies '0' <= #[trigger] e[i] && e[i] <= '9' by {
            assert(e[i] == d[i + 1]);
        }
        lemma_digit_run(e, t);
        assert((d + t).skip(1) =~= e + t);
        assert((d + t)[0] == d[0]);
    } else {
        assert(d + t =~= t);
    }
}

proof fn lemma_digit_run_is(s: Seq<char>)
    ensures
        digit_run(s) <= s.len(),
        forall|i: int| 0 <= i < digit_run(s) ==> '0' <= #[trigger] s[i] && s[i] <= '9',
        digit_run(s) < s.len() ==> !('0' <= s[digit_run(s) as int] && s[digit_run(s) as int]
            <= '9'),
    decreases s.len(),
{
    if s.len() > 0 && number::is_digit(s[0]) {
        let r = s.skip(1);
        lemma_digit_run_is(r);
        assert forall|i: int| 0 <= i < digit_run(s) implies '0' <= #[trigger] s[i] && s[i]
            <= '9' by {
            if i > 0 {
                assert(r[i - 1] == s[i]);
            }
        }
        if digit_run(s) < s.len() {
            assert(r[digit_run(r) as int] == s[digit_run(s) as int]);
        }
    }
}

/// The whole disk of a name: the disk with its number, whatever follows it. A name
/// that does not start with `disk` and a number belongs to none.
pub proof fn lemma_whole_disk(id: Seq<char>, d: Seq<char>, tail: Seq<char>)
    requires
        digits(d),
        tail.len() > 0 ==> !('0' <= tail[0] && tail[0] <= '9'),
    ensures
        whole_disk(disk(d) + tail) == Some(disk(d)),
        whole_disk(id) matches Some(w) ==> w.is_prefix_of(id) && w.len() > 4 && digits(w.skip(4))
            && w.take(4) == seq!['d', 'i', 's', 'k'] && (w.len() < id.len() ==> !('0'
            <= id[w.len() as int] && id[w.len() as int] <= '9')),
        whole_disk(id) is None ==> !(id.len() > 4 && id.take(4) == seq!['d', 'i', 's', 'k'] && '0'
            <= id[4] && id[4] <= '9'),
{
    reveal_strlit("disk");
    let word = seq!['d', 'i', 's', 'k'];
    assert("disk"@ =~= word);
    let s = disk(d) + tail;
    assert(s.take(4) =~= word);
    assert("disk"@.is_prefix_of(s));
    assert(s.skip(4) =~= d + tail);
    lemma_digit_run(d, tail);
    assert((d + tail).take(d.len() as int) =~= d);
    if id.len() >= 4 {
        let rest = id.skip(4);
        lemma_digit_run_is(rest);
        if id.take(4) == word {
            assert("disk"@.is_prefix_of(id));
        }
        if let Some(w) = whole_disk(id) {
            let n = digit_run(rest) as int;
            assert(id.take(4) =~= word);
            assert(w =~= id.take(4 + n));
            assert(w.skip(4) =~= rest.take(n));
            assert(w.take(4) =~= word);
            assert forall|i: int| 0 <= i < w.skip(4).len() implies '0' <= #[trigger] w.skip(4)[i]
                && w.skip(4)[i] <= '9' by {
                assert(w.skip(4)[i] == rest[i]);
            }
            if w.len() < id.len() {
                assert(rest[n] == id[w.len() as int]);
            }
        } else if rest.len() > 0 && id.take(4) == word {
            assert(rest[0] == id[4]);
        }
    }
}

proof fn lemma_node_names(in_dev: bool, raw: bool, d: Seq<char>, tail: Seq<char>)
    requires
        digits(d),
        tail_ok(tail),
    ensures
        node_name(node(in_dev, raw, d, tail)) == node(false, raw, d, tail),
        block_name(node(in_dev, raw, d, tail)) == disk(d) + tail,
        node_disk(node(in_dev, raw, d, tail)) == Some(disk(d)),
        plain_name(node(false, raw, d, tail)),
        in_dev ==> path::comps(node(in_dev, raw, d, tail)) == seq![
            seq!['/'],
            seq!['d', 'e', 'v'],
            node(false, raw, d, tail),
        ],
        !in_dev ==> path::comps(node(in_dev, raw, d, tail)) == seq![node(false, raw, d, tail)],
{
    let p = node(in_dev, raw, d, tail);
    let n = node(false, raw, d, tail);
    let b = disk(d) + tail;
    lemma_dots();
    assert(b.len() > 4);
    assert(n =~= if raw {
        seq!['r'] + b
    } else {
        b
    });
    assert forall|i: int| 0 <= i < b.len() implies #[trigger] b[i] != '/' by {
        if i >= 4 && i < 4 + d.len() {
            assert(b[i] == d[i - 4]);
        } else if i >= 4 {
            assert(b[i] == tail[i - 4 - d.len()]);
        }
    }
    assert forall|i: int| 0 <= i < n.len() implies #[trigger] n[i] != '/' by {
        if raw && i > 0 {
            assert(n[i] == b[i - 1]);
        }
    }
    assert(plain_name(n));
    lemma_name_is_comp(n);
    if in_dev {
        let dev = seq!['d', 'e', 'v'];
        let top = seq!['/', 'd', 'e', 'v'];
        let slash = seq!['/'];
        assert(plain_name(dev));
        lemma_entry_path(slash, dev);
        assert(path::joined(slash, dev) =~= top);
        lemma_root();
        lemma_entry_path(top, n);
        assert(p =~= top.push('/') + n);
        assert(path::joined(top, n) =~= p);
        assert(path::comps(p) =~= seq![slash, dev, n]);
    } else {
        assert(p =~= n);
        assert(path::file_name(p) == Some(n));
    }
    lemma_stripped(b);
    if raw {
        reveal_strlit("r");
        assert("r"@ =~= seq!['r']);
        assert(n.take(1) =~= "r"@);
        assert("r"@.is_prefix_of(n));
        assert(n.skip(1) =~= b);
    }
    lemma_whole_disk(b, d, tail);
}

/// The name of a node is what stands behind `/dev/`, and without the `r` of a raw
/// node it is the name of the disk or of the slice.
pub proof fn lemma_node_parts(in_dev: bool, raw: bool, d: Seq<char>, tail: Seq<char>)
    requires
        digits(d),
        tail_ok(tail),
    ensures
        path::file_name(node(in_dev, raw, d, tail)) == Some(node(false, raw, d, tail)),
        text::without_prefixes(node(false, raw, d, tail), "r"@) == disk(d) + tail,
        in_dev ==> path::comps(node(in_dev, raw, d, tail)) == seq![
            seq!['/'],
            seq!['d', 'e', 'v'],
            node(false, raw, d, tail),
        ],
{
    lemma_node_names(in_dev, raw, d, tail);
    lemma_node_names(false, raw, d, tail);
    assert(node_name(node(in_dev, raw, d, tail)).len() > 0);
}

proof fn lemma_root()
    ensures
        path::comps(seq!['/']) == seq![seq!['/']],
{
    let none = Seq::<char>::empty();
    lemma_dots();
    text::law::lemma_words(none, '/', none, text::Separator::Slash);
    assert(none.push('/') + none =~= seq!['/']);
    assert(path::comps(seq!['/']) =~= seq![seq!['/']]) by {
        reveal(Seq::filter);
    }
}

proof fn lemma_stripped(b: Seq<char>)
    requires
        b.len() > 0,
        b[0] == 'd',
    ensures
        text::without_prefixes(b, "r"@) == b,
{
    reveal_strlit("r");
    assert("r"@.len() == 1 && "r"@[0] == 'r');
    if "r"@.is_prefix_of(b) {
        assert(b.take(1)[0] == b[0]);
    }
}

/// Two nodes are the same device just when they are nodes of the disk with the
/// same number: raw or buffered, whole or a slice, with or without `/dev`.
pub proof fn lemma_same_disk(
    a_dev: bool,
    a_raw: bool,
    a: Seq<char>,
    a_tail: Seq<char>,
    b_dev: bool,
    b_raw: bool,
    b: Seq<char>,
    b_tail: Seq<char>,
)
    requires
        digits(a),
        digits(b),
        tail_ok(a_tail),
        tail_ok(b_tail),
    ensures
        same_device(node(a_dev, a_raw, a, a_tail), node(b_dev, b_raw, b, b_tail)) <==> a == b,
{
    lemma_node_names(a_dev, a_raw, a, a_tail);
    lemma_node_names(b_dev, b_raw, b, b_tail);
    let p = node(a_dev, a_raw, a, a_tail);
    let q = node(b_dev, b_raw, b, b_tail);
    if disk(a) == disk(b) {
        assert(disk(a).skip(4) =~= a);
        assert(disk(b).skip(4) =~= b);
    }
    if path::comps(p) == path::comps(q) {
        assert(path::comps(p).last() == path::comps(q).last());
        assert(node_name(p) == node_name(q));
    }
}

/// The raw nodes of a name are its own, that of its whole disk and that of the
/// first slice, in this order and each once. The system disk has none, and neither
/// has a name that is no disk's.
pub proof fn lemma_raw_nodes(d: Seq<char>, tail: Seq<char>, id: Seq<char>)
    requires
        digits(d),
        tail_ok(tail),
    ensures
        d == seq!['0'] ==> raw_nodes(disk(d) + tail) == Seq::<Seq<char>>::empty(),
        d != seq!['0'] ==> {
            let own = node(true, true, d, tail);
            let whole = node(true, true, d, Seq::empty());
            let slice = node(true, true, d, seq!['s', '1']);
            raw_nodes(disk(d) + tail) == if tail.len() == 0 {
                seq![whole, slice]
            } else if tail == seq!['s', '1'] {
                seq![own, whole]
            } else {
                seq![own, whole, slice]
            }
        },
        whole_disk(id) is None ==> raw_nodes(id) == Seq::<Seq<char>>::empty(),
{
    reveal_strlit("/dev/r");
    reveal_strlit("disk0");
    reveal_strlit("s1");
    let id0 = disk(d) + tail;
    let none = Seq::<char>::empty();
    let s1 = seq!['s', '1'];
    let own = node(true, true, d, tail);
    let whole = node(true, true, d, none);
    let slice = node(true, true, d, s1);
    lemma_whole_disk(id0, d, tail);
    assert("disk0"@ =~= disk(seq!['0']));
    if disk(d) == "disk0"@ {
        assert(disk(d).skip(4) =~= d);
        assert("disk0"@.skip(4) =~= seq!['0']);
    }
    if d != seq!['0'] {
        assert("/dev/r"@ + id0 =~= own);
        assert("/dev/r"@ + disk(d) =~= whole);
        assert("/dev/r"@ + disk(d) + "s1"@ =~= slice);
        lemma_node_names(true, true, d, tail);
        lemma_node_names(true, true, d, none);
        lemma_node_names(true, true, d, s1);
        lemma_nodes_differ(d, tail, none);
        lemma_nodes_differ(d, tail, s1);
        lemma_nodes_differ(d, none, s1);
        let one = seq![own];
        assert(path::has_path(one, whole) <==> tail.len() == 0) by {
            assert(path::comps(one[0]) == path::comps(own));
        }
        let two = with_path(one, whole);
        assert(path::has_path(two, slice) <==> tail == s1) by {
            assert(path::comps(two[0]) == path::comps(own));
            if two.len() > 1 {
                assert(path::comps(two[1]) == path::comps(whole));
            }
        }
        if tail.len() == 0 {
            assert(tail =~= none);
            assert(two =~= seq![whole]);
            assert(raw_nodes(id0) =~= seq![whole, slice]);
        } else if tail == s1 {
            assert(raw_nodes(id0) =~= seq![own, whole]);
        } else {
            assert(raw_nodes(id0) =~= seq![own, whole, slice]);
        }
    }
}

proof fn lemma_nodes_differ(d: Seq<char>, s: Seq<char>, t: Seq<char>)
    requires
        digits(d),
        tail_ok(s),
        tail_ok(t),
    ensures
        path::comps(node(true, true, d, s)) == path::comps(node(true, true, d, t)) <==> s == t,
{
    lemma_node_names(true, true, d, s);
    lemma_node_names(true, true, d, t);
    let a = node(false, true, d, s);
    let b = node(false, true, d, t);
    if path::comps(node(true, true, d, s)) == path::comps(node(true, true, d, t)) {
        assert(path::comps(node(true, true, d, s)).last() == a);
        assert(path::comps(node(true, true, d, t)).last() == b);
        assert(a.skip((5 + d.len()) as int) =~= s);
        assert(b.skip((5 + d.len()) as int) =~= t);
    }
}

/// A safe label keeps every character of the label but slashes and colons, which
/// become underscores, and drops white space at its ends.
pub proof fn lemma_label(s: Seq<char>)
    ensures
        ({
            let m = Seq::new(
                s.len(),
                |i: int|
                    if s[i] == '/' || s[i] == ':' {
                        '_'
                    } else {
                        s[i]
                    },
            );
            sanitized(s) == if text::trimmed(m).len() > 0 {
                text::trimmed(m)
            } else {
                seq!['B', 'l', 'u', 'R', 'a', 'y']
            }
        }),
{
    reveal_strlit("BluRay");
    let m = Seq::new(
        s.len(),
        |i: int|
            if s[i] == '/' || s[i] == ':' {
                '_'
            } else {
                s[i]
            },
    );
    assert(s.map_values(|c: char| super::device::label_char(c)) =~= m);
    assert("BluRay"@ =~= seq!['B', 'l', 'u', 'R', 'a', 'y']);
}

// ───────────────────────── lists of nodes ─────────────────────────

/// A list of paths holds each path once.
pub open spec fn distinct_paths(list: Seq<Seq<char>>) -> bool {
    forall|i: int, j: int|
        0 <= i < j < list.len() ==> path::comps(#[trigger] list[i]) != path::comps(
            #[trigger] list[j],
        )
}

proof fn lemma_with_path(list: Seq<Seq<char>>, p: Seq<char>)
    ensures
        list.is_prefix_of(with_path(list, p)),
        path::has_path(with_path(list, p), p),
        forall|x: Seq<char>|
            #[trigger] with_path(list, p).contains(x) ==> list.contains(x) || x == p,
        distinct_paths(list) ==> distinct_paths(with_path(list, p)),
{
    let n = with_path(list, p);
    assert(n.take(list.len() as int) =~= list);
    if !path::has_path(list, p) {
        assert(path::comps(n[list.len() as int]) == path::comps(p));
        assert forall|x: Seq<char>| #[trigger] n.contains(x) implies list.contains(x) || x == p by {
            let i = choose|i: int| 0 <= i < n.len() && n[i] == x;
            if i < list.len() {
                assert(list[i] == x);
            }
        }
        if distinct_paths(list) {
            assert forall|i: int, j: int| 0 <= i < j < n.len() implies path::comps(
                #[trigger] n[i],
            ) != path::comps(#[trigger] n[j]) by {
                assert(n[i] == list[i]);
                if j < list.len() {
                    assert(n[j] == list[j]);
                    assert(path::comps(list[i]) != path::comps(list[j]));
                } else {
                    assert(path::comps(list[i]) != path::comps(p));
                }
            }
        }
    }
}

proof fn lemma_has_path_grows(a: Seq<Seq<char>>, b: Seq<Seq<char>>, p: Seq<char>)
    requires
        a.is_prefix_of(b),
        path::has_path(a, p),
    ensures
        path::has_path(b, p),
{
    let i = choose|i: int| 0 <= i < a.len() && path::comps(#[trigger] a[i]) == path::comps(p);
    assert(b[i] == b.take(a.len() as int)[i]);
    assert(path::comps(b[i]) == path::comps(p));
}

#[verifier::spinoff_prover]
#[verifier::rlimit(30)]
proof fn lemma_with_paths(list: Seq<Seq<char>>, more: Seq<Seq<char>>)
    ensures
        list.is_prefix_of(with_paths(list, more)),
        forall|p: Seq<char>|
            #[trigger] more.contains(p) ==> path::has_path(with_paths(list, more), p),
        forall|x: Seq<char>|
            #[trigger] with_paths(list, more).contains(x) ==> list.contains(x) || more.contains(x),
        distinct_paths(list) ==> distinct_paths(with_paths(list, more)),
    decreases more.len(),
{
    if more.len() > 0 {
        let d = more.drop_last();
        let before = with_paths(list, d);
        let n = with_paths(list, more);
        lemma_with_paths(list, d);
        lemma_with_path(before, more.last());
        assert(n.take(list.len() as int) =~= before.take(list.len() as int));
        assert forall|p: Seq<char>| #[trigger] more.contains(p) implies path::has_path(n, p) by {
            let i = choose|i: int| 0 <= i < more.len() && more[i] == p;
            if i < d.len() {
                assert(d[i] == p);
                assert(d.contains(p));
                lemma_has_path_grows(before, n, p);
            }
        }
        assert forall|x: Seq<char>| #[trigger] n.contains(x) implies list.contains(x)
            || more.contains(x) by {
            if before.contains(x) {
                if d.contains(x) {
                    let i = choose|i: int| 0 <= i < d.len() && d[i] == x;
                    assert(more[i] == x);
                }
            } else {
                assert(more[more.len() - 1] == x);
            }
        }
    } else {
        assert(list.take(list.len() as int) =~= list);
    }
}

#[verifier::spinoff_prover]
#[verifier::rlimit(30)]
proof fn lemma_with_ids(list: Seq<Seq<char>>, ids: Seq<Seq<char>>)
    ensures
        list.is_prefix_of(with_ids(list, ids)),
        forall|i: int, p: Seq<char>|
            0 <= i < ids.len() && #[trigger] raw_nodes(ids[i]).contains(p) ==> path::has_path(
                with_ids(list, ids),
                p,
            ),
        forall|x: Seq<char>|
            #[trigger] with_ids(list, ids).contains(x) ==> list.contains(x) || exists|i: int|
                0 <= i < ids.len() && #[trigger] raw_nodes(ids[i]).contains(x),
        distinct_paths(list) ==> distinct_paths(with_ids(list, ids)),
    decreases ids.len(),
{
    if ids.len() > 0 {
        let d = ids.drop_last();
        let before = with_ids(list, d);
        let n = with_ids(list, ids);
        lemma_with_ids(list, d);
        lemma_with_paths(before, raw_nodes(ids.last()));
        assert(n.take(list.len() as int) =~= before.take(list.len() as int));
        assert forall|i: int, p: Seq<char>|
            0 <= i < ids.len() && #[trigger] raw_nodes(ids[i]).contains(p) implies path::has_path(
            n,
            p,
        ) by {
            if i < d.len() {
                assert(raw_nodes(d[i]).contains(p));
                lemma_has_path_grows(before, n, p);
            }
        }
        assert forall|x: Seq<char>| #[trigger] n.contains(x) implies list.contains(x) || exists|
            i: int,
        |
            0 <= i < ids.len() && #[trigger] raw_nodes(ids[i]).contains(x) by {
            if before.contains(x) {
                if !list.contains(x) {
                    let i = choose|i: int|
                        0 <= i < d.len() && #[trigger] raw_nodes(d[i]).contains(x);
                    assert(raw_nodes(ids[i]).contains(x));
                }
            } else {
                assert(raw_nodes(ids[ids.len() - 1]).contains(x));
            }
        }
    } else {
        assert(list.take(list.len() as int) =~= list);
    }
}

#[verifier::spinoff_prover]
#[verifier::rlimit(30)]
proof fn lemma_with_nodes(list: Seq<Seq<char>>, nodes: Seq<OpticalNode>)
    ensures
        list.is_prefix_of(with_nodes(list, nodes)),
        forall|i: int, p: Seq<char>|
            0 <= i < nodes.len() && nodes[i].class != OpticalClass::Dvd && nodes[i].class
                != OpticalClass::Cd && #[trigger] raw_nodes(nodes[i].id@).contains(p)
                ==> path::has_path(with_nodes(list, nodes), p),
        forall|x: Seq<char>|
            #[trigger] with_nodes(list, nodes).contains(x) ==> list.contains(x) || exists|i: int|
                0 <= i < nodes.len() && nodes[i].class != OpticalClass::Dvd && nodes[i].class
                    != OpticalClass::Cd && #[trigger] raw_nodes(nodes[i].id@).contains(x),
        distinct_paths(list) ==> distinct_paths(with_nodes(list, nodes)),
    decreases nodes.len(),
{
    if nodes.len() > 0 {
        let d = nodes.drop_last();
        let before = with_nodes(list, d);
        let n = with_nodes(list, nodes);
        lemma_with_nodes(list, d);
        lemma_with_paths(before, raw_nodes(nodes.last().id@));
        assert(n.take(list.len() as int) =~= before.take(list.len() as int));
        assert forall|i: int, p: Seq<char>|
            0 <= i < nodes.len() && nodes[i].class != OpticalClass::Dvd && nodes[i].class
                != OpticalClass::Cd && #[trigger] raw_nodes(nodes[i].id@).contains(
                p,
            ) implies path::has_path(n, p) by {
            if i < d.len() {
                assert(raw_nodes(d[i].id@).contains(p));
                assert(path::has_path(before, p));
                assert(before.take(before.len() as int) =~= before);
                lemma_has_path_grows(before, n, p);
            }
        }
        assert forall|x: Seq<char>| #[trigger] n.contains(x) implies list.contains(x) || exists|
            i: int,
        |
            0 <= i < nodes.len() && nodes[i].class != OpticalClass::Dvd && nodes[i].class
                != OpticalClass::Cd && #[trigger] raw_nodes(nodes[i].id@).contains(x) by {
            if before.contains(x) {
                if !list.contains(x) {
                    let i = choose|i: int|
                        0 <= i < d.len() && d[i].class != OpticalClass::Dvd && d[i].class
                            != OpticalClass::Cd && #[trigger] raw_nodes(d[i].id@).contains(x);
                    assert(raw_nodes(nodes[i].id@).contains(x));
                }
            } else {
                assert(raw_nodes(nodes[nodes.len() - 1].id@).contains(x));
            }
        }
    } else {
        assert(list.take(list.len() as int) =~= list);
    }
}

/// The nodes that may hold a Blu-ray: all raw nodes of the claimed disks, before
/// all raw nodes of the other optical media that are neither DVDs nor CDs; no
/// others, and each once.
pub proof fn lemma_optical_nodes(claimed: Seq<Seq<char>>, listed: Seq<OpticalNode>)
    ensures
        ({
            let ours = with_ids(Seq::empty(), claimed);
            let all = with_nodes(ours, listed);
            &&& ours.is_prefix_of(all)
            &&& distinct_paths(all)
            &&& forall|i: int, p: Seq<char>|
                0 <= i < claimed.len() && #[trigger] raw_nodes(claimed[i]).contains(p)
                    ==> path::has_path(ours, p)
            &&& forall|i: int, p: Seq<char>|
                0 <= i < listed.len() && listed[i].class != OpticalClass::Dvd && listed[i].class
                    != OpticalClass::Cd && #[trigger] raw_nodes(listed[i].id@).contains(p)
                    ==> path::has_path(all, p)
            &&& forall|x: Seq<char>|
                #[trigger] all.contains(x) ==> (exists|i: int|
                    0 <= i < claimed.len() && #[trigger] raw_nodes(claimed[i]).contains(x)) || (
                exists|i: int|
                    0 <= i < listed.len() && listed[i].class != OpticalClass::Dvd
                        && listed[i].class != OpticalClass::Cd && #[trigger] raw_nodes(
                        listed[i].id@,
                    ).contains(x))
        }),
{
    let none = Seq::<Seq<char>>::empty();
    lemma_with_ids(none, claimed);
    lemma_with_nodes(with_ids(none, claimed), listed);
}

// ───────────────────────── searches ─────────────────────────

/// A pass asks one device after the other, and takes the first that says yes.
pub proof fn lemma_pass(devices: Seq<Seq<char>>, answers: Seq<bool>, rest: SearchView, k: int)
    requires
        0 <= k,
        k <= devices.len(),
        k <= answers.len(),
        forall|i: int| 0 <= i < k ==> !#[trigger] answers[i],
    ensures
        k < devices.len() && k < answers.len() && answers[k] ==> pass(devices, answers, rest)
            == SearchView::Found(devices[k]),
        k < devices.len() && k == answers.len() ==> pass(devices, answers, rest)
            == SearchView::Probe(devices[k]),
        k == devices.len() ==> pass(devices, answers, rest) == rest,
    decreases devices.len(),
{
    if k > 0 {
        assert(!answers[0]);
        let d = devices.skip(1);
        let a = answers.skip(1);
        assert forall|i: int| 0 <= i < k - 1 implies !#[trigger] a[i] by {
            assert(a[i] == answers[i + 1]);
        }
        lemma_pass(d, a, rest, k - 1);
    }
}

/// A pass is over all devices that are the same as one asked for, or over all if
/// none is, without those that are the same as one to be skipped; in order.
pub proof fn lemma_asked(
    devices: Seq<Seq<char>>,
    skip: Seq<Seq<char>>,
    only: Seq<Seq<char>>,
    x: Seq<char>,
)
    ensures
        asked(devices, skip, only).contains(x) <==> devices.contains(x) && (only.len() == 0
            || exists|i: int| 0 <= i < only.len() && same_device(x, #[trigger] only[i])) && !(exists|
            i: int,
        |
            0 <= i < skip.len() && same_device(x, #[trigger] skip[i])),
        forall|i: int|
            0 <= i < asked(devices, skip, only).len() ==> eligible(
                #[trigger] asked(devices, skip, only)[i],
                skip,
                only,
            ),
{
    let p = |d: Seq<char>| eligible(d, skip, only);
    let a = asked(devices, skip, only);
    if a.contains(x) {
        devices.lemma_filter_contains_rev(p, x);
    }
    if devices.contains(x) && p(x) {
        let i = choose|i: int| 0 <= i < devices.len() && devices[i] == x;
        devices.lemma_filter_contains(p, i);
    }
    assert forall|i: int| 0 <= i < a.len() implies eligible(#[trigger] a[i], skip, only) by {
        assert(a.contains(a[i]));
        devices.lemma_filter_contains_rev(p, a[i]);
    }
}

/// The buffered node beside a raw one has the same name without the `r`.
pub proof fn lemma_buffered(d: Seq<char>, tail: Seq<char>)
    requires
        digits(d),
        tail_ok(tail),
    ensures
        buffered_node(node(true, true, d, tail)) == Some(node(true, false, d, tail)),
        buffered_node(node(true, false, d, tail)) is None,
{
    let p = node(true, true, d, tail);
    let n = disk(d) + tail;
    let slash = seq!['/'];
    let dev = seq!['d', 'e', 'v'];
    let top = seq!['/', 'd', 'e', 'v'];
    lemma_node_names(true, true, d, tail);
    lemma_node_names(true, false, d, tail);
    lemma_node_names(false, false, d, tail);
    let raw_name = node(false, true, d, tail);
    assert(path::file_name(p) == Some(raw_name)) by {
        assert(node_name(p).len() > 0);
    }
    assert(raw_name[0] == 'r');
    assert(raw_name.skip(1) =~= n);
    let c = path::comps(p).drop_last();
    assert(c =~= seq![slash, dev]);
    let none = Seq::<Seq<char>>::empty();
    assert(path::render(none) =~= Seq::<char>::empty());
    let one = seq![slash];
    assert(one.drop_last() =~= none);
    assert(path::render(one) =~= slash);
    assert(c.drop_last() =~= one);
    assert(c.last() == dev);
    assert(path::render(c) =~= top);
    assert(path::joined(top, n) =~= node(true, false, d, tail));
    let q = node(true, false, d, tail);
    assert(path::file_name(q) == Some(node(false, false, d, tail))) by {
        assert(node_name(q).len() > 0);
    }
    assert(node(false, false, d, tail)[0] == 'd');
}

// ───────────────────────── listings and probes ─────────────────────────

/// The optical media of a listing are the last words of its lines that name a CD, a
/// DVD, a Blu-ray or a UDF volume.
pub proof fn lemma_optical_ids(lines: Seq<Seq<char>>, x: Seq<char>)
    ensures
        super::device::optical_ids(lines).contains(x) <==> exists|i: int|
            0 <= i < lines.len() && is_optical(#[trigger] lines[i]) && text::words(
                lines[i],
                text::Separator::Space,
            ).len() > 0 && text::words(lines[i], text::Separator::Space).last() == x,
    decreases lines.len(),
{
    if lines.len() > 0 {
        let d = lines.drop_last();
        let last = lines.len() - 1;
        let before = super::device::optical_ids(d);
        let n = super::device::optical_ids(lines);
        lemma_optical_ids(d, x);
        if before.contains(x) {
            let k = choose|k: int| 0 <= k < before.len() && before[k] == x;
            assert(n[k] == x);
            let i = choose|i: int|
                0 <= i < d.len() && is_optical(#[trigger] d[i]) && text::words(
                    d[i],
                    text::Separator::Space,
                ).len() > 0 && text::words(d[i], text::Separator::Space).last() == x;
            assert(is_optical(lines[i]));
        }
        if n.contains(x) && !before.contains(x) {
            let k = choose|k: int| 0 <= k < n.len() && n[k] == x;
            if k < before.len() {
                assert(before[k] == x);
            }
            assert(is_optical(lines[last]));
        }
        if exists|i: int|
            0 <= i < lines.len() && is_optical(#[trigger] lines[i]) && text::words(
                lines[i],
                text::Separator::Space,
            ).len() > 0 && text::words(lines[i], text::Separator::Space).last() == x {
            let i = choose|i: int|
                0 <= i < lines.len() && is_optical(#[trigger] lines[i]) && text::words(
                    lines[i],
                    text::Separator::Space,
                ).len() > 0 && text::words(lines[i], text::Separator::Space).last() == x;
            if i < last {
                assert(is_optical(d[i]));
            } else {
                assert(n[before.len() as int] == x);
            }
        }
    }
}

/// The line tells of an optical medium.
pub open spec fn is_optical(line: Seq<char>) -> bool {
    ||| text::contains(line, "CD_partition"@)
    ||| text::contains(line, "CD_ROM"@)
    ||| text::contains(line, "DVD_"@)
    ||| text::contains(line, "BD_"@)
    ||| text::contains(line, "Apple_UDF"@)
    ||| text::contains(line, "CD_partition_scheme"@)
}

/// A device holds a Blu-ray just when its volume opens and holds the index.
pub proof fn lemma_probed(m: super::log::Known, dev: Seq<char>)
    ensures
        super::device::probed(m, dev) is Done <==> (super::volume::opened(m, dev) matches
            super::log::Step::Done(v) && v.lookup(m, "BDMV/index.bdmv"@) is Done),
        super::device::probed(m, dev) is Need <==> super::volume::opened(m, dev) is Need || (
        super::volume::opened(m, dev) matches super::log::Step::Done(v) && v.lookup(
            m,
            "BDMV/index.bdmv"@,
        ) is Need),
{
}

/// Paths that are no nodes of a disk are the same device just when they are the
/// same path, or end in the same name but for the `r` of a raw node.
pub proof fn lemma_same_other(a: Seq<char>, b: Seq<char>)
    requires
        path::file_name(a) is Some,
        path::file_name(b) is Some,
        whole_disk(text::without_prefixes(path::file_name(a)->0, "r"@)) is None,
        whole_disk(path::file_name(a)->0) is None,
    ensures
        same_device(a, b) <==> path::comps(a) == path::comps(b) || text::without_prefixes(
            path::file_name(a)->0,
            "r"@,
        ) == text::without_prefixes(path::file_name(b)->0, "r"@),
{
}

} // verus!
