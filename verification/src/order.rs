//! Orders on texts and paths, and stable sorting.

use vstd::prelude::*;

use crate::path;
use crate::text;

verus! {

broadcast use vstd::string::group_string_axioms;

/// How two values stand to each other.
#[derive(Clone, Copy, Debug, PartialEq, Eq, Structural)]
pub enum Rank {
    Before,
    Same,
    After,
}

// ───────────────────────── texts ─────────────────────────

/// Texts by their characters; a text comes before what goes on from it. This is
/// also the order of their bytes in UTF-8.
pub open spec fn text_rank(a: Seq<char>, b: Seq<char>) -> Rank
    decreases a.len(),
{
    if a.len() == 0 {
        if b.len() == 0 {
            Rank::Same
        } else {
            Rank::Before
        }
    } else if b.len() == 0 {
        Rank::After
    } else if a[0] < b[0] {
        Rank::Before
    } else if a[0] > b[0] {
        Rank::After
    } else {
        text_rank(a.skip(1), b.skip(1))
    }
}

pub fn rank_texts(a: &[char], b: &[char]) -> (r: Rank)
    ensures
        r == text_rank(a@, b@),
{
    let mut i: usize = 0;
    assert(a@.skip(0) =~= a@);
    assert(b@.skip(0) =~= b@);
    while i < a.len() && i < b.len()
        invariant
            i <= a@.len(),
            i <= b@.len(),
            text_rank(a@, b@) == text_rank(a@.skip(i as int), b@.skip(i as int)),
        decreases a@.len() - i,
    {
        assert(a@.skip(i as int)[0] == a@[i as int]);
        assert(b@.skip(i as int)[0] == b@[i as int]);
        assert(a@.skip(i as int).skip(1) =~= a@.skip(i + 1));
        assert(b@.skip(i as int).skip(1) =~= b@.skip(i + 1));
        if a[i] < b[i] {
            return Rank::Before;
        }
        if a[i] > b[i] {
            return Rank::After;
        }
        i += 1;
    }
    if i < a.len() {
        Rank::After
    } else if i < b.len() {
        Rank::Before
    } else {
        Rank::Same
    }
}

/// Byte strings by their bytes.
pub open spec fn bytes_rank(a: Seq<u8>, b: Seq<u8>) -> Rank
    decreases a.len(),
{
    if a.len() == 0 {
        if b.len() == 0 {
            Rank::Same
        } else {
            Rank::Before
        }
    } else if b.len() == 0 {
        Rank::After
    } else if a[0] < b[0] {
        Rank::Before
    } else if a[0] > b[0] {
        Rank::After
    } else {
        bytes_rank(a.skip(1), b.skip(1))
    }
}

pub fn rank_bytes(a: &[u8], b: &[u8]) -> (r: Rank)
    ensures
        r == bytes_rank(a@, b@),
{
    let mut i: usize = 0;
    assert(a@.skip(0) =~= a@);
    assert(b@.skip(0) =~= b@);
    while i < a.len() && i < b.len()
        invariant
            i <= a@.len(),
            i <= b@.len(),
            bytes_rank(a@, b@) == bytes_rank(a@.skip(i as int), b@.skip(i as int)),
        decreases a@.len() - i,
    {
        assert(a@.skip(i as int)[0] == a@[i as int]);
        assert(b@.skip(i as int)[0] == b@[i as int]);
        assert(a@.skip(i as int).skip(1) =~= a@.skip(i + 1));
        assert(b@.skip(i as int).skip(1) =~= b@.skip(i + 1));
        if a[i] < b[i] {
            return Rank::Before;
        }
        if a[i] > b[i] {
            return Rank::After;
        }
        i += 1;
    }
    if i < a.len() {
        Rank::After
    } else if i < b.len() {
        Rank::Before
    } else {
        Rank::Same
    }
}

// ───────────────────────── paths ─────────────────────────

/// The root comes first, then `.`, then `..`, then names.
pub open spec fn component_class(c: Seq<char>) -> int {
    if c == "/"@ {
        0
    } else if c == "."@ {
        1
    } else if c == ".."@ {
        2
    } else {
        3
    }
}

pub open spec fn component_rank(a: Seq<char>, b: Seq<char>) -> Rank {
    if component_class(a) < component_class(b) {
        Rank::Before
    } else if component_class(a) > component_class(b) {
        Rank::After
    } else {
        text_rank(a, b)
    }
}

/// Paths by their components.
pub open spec fn components_rank(a: Seq<Seq<char>>, b: Seq<Seq<char>>) -> Rank
    decreases a.len(),
{
    if a.len() == 0 {
        if b.len() == 0 {
            Rank::Same
        } else {
            Rank::Before
        }
    } else if b.len() == 0 {
        Rank::After
    } else if component_rank(a[0], b[0]) == Rank::Same {
        components_rank(a.skip(1), b.skip(1))
    } else {
        component_rank(a[0], b[0])
    }
}

pub open spec fn path_rank(a: Seq<char>, b: Seq<char>) -> Rank {
    components_rank(path::comps(a), path::comps(b))
}

fn class_of(c: &[char]) -> (r: u8)
    ensures
        r == component_class(c@),
{
    if text::same(c, text::chars_of("/").as_slice()) {
        0
    } else if text::same(c, text::chars_of(".").as_slice()) {
        1
    } else if text::same(c, text::chars_of("..").as_slice()) {
        2
    } else {
        3
    }
}

pub fn rank_paths(a: &str, b: &str) -> (r: Rank)
    ensures
        r == path_rank(a@, b@),
{
    let x = path::components(a);
    let y = path::components(b);
    let ghost tx = text::texts(x@);
    let ghost ty = text::texts(y@);
    let mut i: usize = 0;
    assert(tx.skip(0) =~= tx);
    assert(ty.skip(0) =~= ty);
    while i < x.len() && i < y.len()
        invariant
            i <= x@.len(),
            i <= y@.len(),
            tx == text::texts(x@) && tx == path::comps(a@),
            ty == text::texts(y@) && ty == path::comps(b@),
            components_rank(tx, ty) == components_rank(tx.skip(i as int), ty.skip(i as int)),
        decreases x@.len() - i,
    {
        assert(tx.skip(i as int)[0] == x@[i as int]@);
        assert(ty.skip(i as int)[0] == y@[i as int]@);
        assert(tx.skip(i as int).skip(1) =~= tx.skip(i + 1));
        assert(ty.skip(i as int).skip(1) =~= ty.skip(i + 1));
        let cx: u8 = class_of(x[i].as_slice());
        let cy: u8 = class_of(y[i].as_slice());
        if cx < cy {
            return Rank::Before;
        }
        if cx > cy {
            return Rank::After;
        }
        let r = rank_texts(x[i].as_slice(), y[i].as_slice());
        if r != Rank::Same {
            return r;
        }
        i += 1;
    }
    if i < x.len() {
        Rank::After
    } else if i < y.len() {
        Rank::Before
    } else {
        Rank::Same
    }
}

// ───────────────────────── stable sorting ─────────────────────────

/// `x` put behind all that do not come after it, in a sorted `s`.
pub open spec fn inserted<T>(s: Seq<T>, x: T, rank: spec_fn(T, T) -> Rank) -> Seq<T>
    decreases s.len(),
{
    if s.len() > 0 && rank(s.last(), x) == Rank::After {
        inserted(s.drop_last(), x, rank).push(s.last())
    } else {
        s.push(x)
    }
}

/// `s` sorted; what ranks the same keeps its order.
pub open spec fn sorted<T>(s: Seq<T>, rank: spec_fn(T, T) -> Rank) -> Seq<T>
    decreases s.len(),
{
    if s.len() == 0 {
        s
    } else {
        inserted(sorted(s.drop_last(), rank), s.last(), rank)
    }
}

/// Where `inserted` puts its element: behind it all come after it.
pub open spec fn slot<T>(s: Seq<T>, x: T, rank: spec_fn(T, T) -> Rank) -> int
    decreases s.len(),
{
    if s.len() > 0 && rank(s.last(), x) == Rank::After {
        slot(s.drop_last(), x, rank)
    } else {
        s.len() as int
    }
}

pub proof fn lemma_slot<T>(s: Seq<T>, x: T, rank: spec_fn(T, T) -> Rank)
    ensures
        0 <= slot(s, x, rank) <= s.len(),
        inserted(s, x, rank) == s.insert(slot(s, x, rank), x),
    decreases s.len(),
{
    if s.len() > 0 && rank(s.last(), x) == Rank::After {
        lemma_slot(s.drop_last(), x, rank);
        let k = slot(s, x, rank);
        assert(s.drop_last().insert(k, x).push(s.last()) =~= s.insert(k, x));
    } else {
        assert(s.push(x) =~= s.insert(s.len() as int, x));
    }
}

/// Sorting loses and adds nothing.
pub proof fn lemma_sorted_keeps<T>(s: Seq<T>, rank: spec_fn(T, T) -> Rank)
    ensures
        sorted(s, rank).to_multiset() == s.to_multiset(),
        sorted(s, rank).len() == s.len(),
    decreases s.len(),
{
    broadcast use vstd::seq_lib::group_to_multiset_ensures;

    if s.len() > 0 {
        let t = sorted(s.drop_last(), rank);
        lemma_sorted_keeps(s.drop_last(), rank);
        lemma_slot(t, s.last(), rank);
        assert(s =~= s.drop_last().push(s.last()));
    }
}

/// No element of `s` ranks after a later one.
pub open spec fn in_order<T>(s: Seq<T>, rank: spec_fn(T, T) -> Rank) -> bool {
    forall|i: int, j: int| 0 <= i < j < s.len() ==> rank(#[trigger] s[i], #[trigger] s[j])
        != Rank::After
}

/// `rank` is an order: it turns round with its arguments, and what does not come
/// after what does not come after a third does not come after the third.
pub open spec fn is_order<T>(rank: spec_fn(T, T) -> Rank) -> bool {
    &&& forall|a: T, b: T| (#[trigger] rank(a, b) == Rank::After) == (rank(b, a) == Rank::Before)
    &&& forall|a: T, b: T, c: T|
        #[trigger] rank(a, b) != Rank::After && #[trigger] rank(b, c) != Rank::After ==> rank(a, c)
            != Rank::After
}

proof fn lemma_inserted_in_order<T>(s: Seq<T>, x: T, rank: spec_fn(T, T) -> Rank)
    requires
        is_order(rank),
        in_order(s, rank),
    ensures
        in_order(inserted(s, x, rank), rank),
    decreases s.len(),
{
    let r = inserted(s, x, rank);
    lemma_slot(s, x, rank);
    if s.len() > 0 && rank(s.last(), x) == Rank::After {
        let d = s.drop_last();
        lemma_inserted_in_order(d, x, rank);
        lemma_slot(d, x, rank);
        let k = slot(d, x, rank);
        assert forall|i: int, j: int| 0 <= i < j < r.len() implies rank(
            #[trigger] r[i],
            #[trigger] r[j],
        ) != Rank::After by {
            let t = inserted(d, x, rank);
            if j < t.len() {
                assert(r[i] == t[i] && r[j] == t[j]);
            } else {
                assert(r[j] == s.last());
                if i == k {
                    assert(rank(x, s.last()) == Rank::Before);
                } else if i < k {
                    assert(r[i] == s[i]);
                    assert(s[s.len() - 1] == s.last());
                } else {
                    assert(r[i] == s[i - 1]);
                    assert(s[s.len() - 1] == s.last());
                }
            }
        }
    } else {
        assert forall|i: int, j: int| 0 <= i < j < r.len() implies rank(
            #[trigger] r[i],
            #[trigger] r[j],
        ) != Rank::After by {
            if j == s.len() && i < s.len() - 1 {
                assert(rank(s[i], s[s.len() - 1]) != Rank::After);
                assert(rank(s.last(), x) != Rank::After);
            }
        }
    }
}

/// Sorting puts things in order.
pub proof fn lemma_sorted_in_order<T>(s: Seq<T>, rank: spec_fn(T, T) -> Rank)
    requires
        is_order(rank),
    ensures
        in_order(sorted(s, rank), rank),
    decreases s.len(),
{
    if s.len() > 0 {
        lemma_sorted_in_order(s.drop_last(), rank);
        lemma_inserted_in_order(sorted(s.drop_last(), rank), s.last(), rank);
    }
}

proof fn lemma_text_rank_turns(a: Seq<char>, b: Seq<char>)
    ensures
        (text_rank(a, b) == Rank::After) == (text_rank(b, a) == Rank::Before),
        (text_rank(a, b) == Rank::Same) == (a == b),
    decreases a.len(),
{
    if a.len() == 0 {
        if b.len() == 0 {
            assert(a =~= b);
        }
    } else if b.len() > 0 && a[0] == b[0] {
        lemma_text_rank_turns(a.skip(1), b.skip(1));
        if a.skip(1) == b.skip(1) {
            assert(a =~= seq![a[0]] + a.skip(1));
            assert(b =~= seq![b[0]] + b.skip(1));
        }
    } else if b.len() > 0 {
        assert(a != b);
    }
}

proof fn lemma_text_rank_through(a: Seq<char>, b: Seq<char>, c: Seq<char>)
    requires
        text_rank(a, b) != Rank::After,
        text_rank(b, c) != Rank::After,
    ensures
        text_rank(a, c) != Rank::After,
    decreases a.len(),
{
    if a.len() > 0 && b.len() > 0 && c.len() > 0 && a[0] == b[0] && b[0] == c[0] {
        lemma_text_rank_through(a.skip(1), b.skip(1), c.skip(1));
    }
}

/// Texts are ordered.
pub proof fn lemma_texts_ordered()
    ensures
        is_order(|a: Seq<char>, b: Seq<char>| text_rank(a, b)),
{
    let rank = |a: Seq<char>, b: Seq<char>| text_rank(a, b);
    assert forall|a: Seq<char>, b: Seq<char>|
        (#[trigger] rank(a, b) == Rank::After) == (rank(b, a) == Rank::Before) by {
        lemma_text_rank_turns(a, b);
    }
    assert forall|a: Seq<char>, b: Seq<char>, c: Seq<char>|
        #[trigger] rank(a, b) != Rank::After && #[trigger] rank(b, c)
            != Rank::After implies rank(a, c) != Rank::After by {
        lemma_text_rank_through(a, b, c);
    }
}

proof fn lemma_bytes_rank_turns(a: Seq<u8>, b: Seq<u8>)
    ensures
        (bytes_rank(a, b) == Rank::After) == (bytes_rank(b, a) == Rank::Before),
    decreases a.len(),
{
    if a.len() > 0 && b.len() > 0 {
        lemma_bytes_rank_turns(a.skip(1), b.skip(1));
    }
}

proof fn lemma_bytes_rank_through(a: Seq<u8>, b: Seq<u8>, c: Seq<u8>)
    requires
        bytes_rank(a, b) != Rank::After,
        bytes_rank(b, c) != Rank::After,
    ensures
        bytes_rank(a, c) != Rank::After,
    decreases a.len(),
{
    if a.len() > 0 && b.len() > 0 && c.len() > 0 && a[0] == b[0] && b[0] == c[0] {
        lemma_bytes_rank_through(a.skip(1), b.skip(1), c.skip(1));
    }
}

/// Byte strings are ordered.
pub proof fn lemma_bytes_ordered()
    ensures
        is_order(|a: Seq<u8>, b: Seq<u8>| bytes_rank(a, b)),
{
    let rank = |a: Seq<u8>, b: Seq<u8>| bytes_rank(a, b);
    assert forall|a: Seq<u8>, b: Seq<u8>|
        (#[trigger] rank(a, b) == Rank::After) == (rank(b, a) == Rank::Before) by {
        lemma_bytes_rank_turns(a, b);
    }
    assert forall|a: Seq<u8>, b: Seq<u8>, c: Seq<u8>|
        #[trigger] rank(a, b) != Rank::After && #[trigger] rank(b, c)
            != Rank::After implies rank(a, c) != Rank::After by {
        lemma_bytes_rank_through(a, b, c);
    }
}

proof fn lemma_components_turn(a: Seq<Seq<char>>, b: Seq<Seq<char>>)
    ensures
        (components_rank(a, b) == Rank::After) == (components_rank(b, a) == Rank::Before),
    decreases a.len(),
{
    if a.len() > 0 && b.len() > 0 {
        lemma_text_rank_turns(a[0], b[0]);
        lemma_text_rank_turns(b[0], a[0]);
        lemma_components_turn(a.skip(1), b.skip(1));
    }
}

proof fn lemma_components_through(a: Seq<Seq<char>>, b: Seq<Seq<char>>, c: Seq<Seq<char>>)
    requires
        components_rank(a, b) != Rank::After,
        components_rank(b, c) != Rank::After,
    ensures
        components_rank(a, c) != Rank::After,
    decreases a.len(),
{
    if a.len() > 0 && b.len() > 0 && c.len() > 0 {
        lemma_text_rank_turns(a[0], b[0]);
        lemma_text_rank_turns(b[0], c[0]);
        lemma_text_rank_turns(a[0], c[0]);
        if component_rank(a[0], b[0]) == Rank::Same && component_rank(b[0], c[0])
            == Rank::Same {
            lemma_components_through(a.skip(1), b.skip(1), c.skip(1));
        } else if component_class(a[0]) == component_class(b[0]) && component_class(b[0])
            == component_class(c[0]) {
            lemma_text_rank_through(a[0], b[0], c[0]);
            if a[0] == c[0] {
                lemma_text_rank_turns(c[0], b[0]);
            }
        }
    }
}

/// Paths are ordered.
pub proof fn lemma_paths_ordered()
    ensures
        is_order(|a: Seq<char>, b: Seq<char>| path_rank(a, b)),
{
    let rank = |a: Seq<char>, b: Seq<char>| path_rank(a, b);
    assert forall|a: Seq<char>, b: Seq<char>|
        (#[trigger] rank(a, b) == Rank::After) == (rank(b, a) == Rank::Before) by {
        lemma_components_turn(path::comps(a), path::comps(b));
    }
    assert forall|a: Seq<char>, b: Seq<char>, c: Seq<char>|
        #[trigger] rank(a, b) != Rank::After && #[trigger] rank(b, c)
            != Rank::After implies rank(a, c) != Rank::After by {
        lemma_components_through(path::comps(a), path::comps(b), path::comps(c));
    }
}

/// Byte strings come in the order of the first byte in which they differ; what goes
/// on from another comes after it, and only the same string has the same place.
pub proof fn lemma_bytes_rank(a: Seq<u8>, b: Seq<u8>, k: int)
    requires
        0 <= k <= a.len(),
        k <= b.len(),
        forall|i: int| 0 <= i < k ==> a[i] == b[i],
    ensures
        k < a.len() && k < b.len() && a[k] < b[k] ==> bytes_rank(a, b) == Rank::Before,
        k < a.len() && k < b.len() && a[k] > b[k] ==> bytes_rank(a, b) == Rank::After,
        k == a.len() && k < b.len() ==> bytes_rank(a, b) == Rank::Before,
        k < a.len() && k == b.len() ==> bytes_rank(a, b) == Rank::After,
        k == a.len() && k == b.len() ==> bytes_rank(a, b) == Rank::Same,
    decreases k,
{
    if k > 0 {
        let x = a.skip(1);
        let y = b.skip(1);
        assert forall|i: int| 0 <= i < k - 1 implies x[i] == y[i] by {
            assert(a[i + 1] == b[i + 1]);
        }
        assert(a[0] == b[0]);
        lemma_bytes_rank(x, y, k - 1);
    }
}

/// Texts come in the order of the first character in which they differ; what goes
/// on from another comes after it, and only the same text has the same place.
pub proof fn lemma_text_rank(a: Seq<char>, b: Seq<char>, k: int)
    requires
        0 <= k <= a.len(),
        k <= b.len(),
        forall|i: int| 0 <= i < k ==> a[i] == b[i],
    ensures
        k < a.len() && k < b.len() && a[k] < b[k] ==> text_rank(a, b) == Rank::Before,
        k < a.len() && k < b.len() && a[k] > b[k] ==> text_rank(a, b) == Rank::After,
        k == a.len() && k < b.len() ==> text_rank(a, b) == Rank::Before,
        k < a.len() && k == b.len() ==> text_rank(a, b) == Rank::After,
        k == a.len() && k == b.len() ==> text_rank(a, b) == Rank::Same,
    decreases k,
{
    if k > 0 {
        let x = a.skip(1);
        let y = b.skip(1);
        assert forall|i: int| 0 <= i < k - 1 implies x[i] == y[i] by {
            assert(a[i + 1] == b[i + 1]);
        }
        assert(a[0] == b[0]);
        lemma_text_rank(x, y, k - 1);
    }
}

/// Paths come in the order of the first component in which they differ: names by
/// their characters, and the root, `.` and `..` before them in this order. A path
/// comes before what lies below it.
pub proof fn lemma_path_rank(a: Seq<Seq<char>>, b: Seq<Seq<char>>, k: int)
    requires
        0 <= k <= a.len(),
        k <= b.len(),
        forall|i: int| 0 <= i < k ==> a[i] == b[i],
    ensures
        k == a.len() && k < b.len() ==> components_rank(a, b) == Rank::Before,
        k < a.len() && k == b.len() ==> components_rank(a, b) == Rank::After,
        k == a.len() && k == b.len() ==> components_rank(a, b) == Rank::Same,
        k < a.len() && k < b.len() && path::is_normal(a[k]) && path::is_normal(b[k]) && a[k] != b[k]
            ==> components_rank(a, b) == text_rank(a[k], b[k]),
        k < a.len() && k < b.len() && !path::is_normal(a[k]) && path::is_normal(b[k])
            ==> components_rank(a, b) == Rank::Before,
        k < a.len() && k < b.len() && a[k] == "/"@ && b[k] == "."@ ==> components_rank(a, b)
            == Rank::Before,
        k < a.len() && k < b.len() && a[k] == "."@ && b[k] == ".."@ ==> components_rank(a, b)
            == Rank::Before,
    decreases k,
{
    path::law::lemma_dots();
    assert(seq!['.'] != seq!['.', '.']) by {
        assert(seq!['.'].len() != seq!['.', '.'].len());
    }
    assert(seq!['/'] != seq!['.']) by {
        assert(seq!['/'][0] != seq!['.'][0]);
    }
    assert(seq!['/'] != seq!['.', '.']) by {
        assert(seq!['/'].len() != seq!['.', '.'].len());
    }
    if k > 0 {
        let x = a.skip(1);
        let y = b.skip(1);
        assert forall|i: int| 0 <= i < k - 1 implies x[i] == y[i] by {
            assert(a[i + 1] == b[i + 1]);
        }
        assert(a[0] == b[0]);
        lemma_text_rank_turns(a[0], b[0]);
        lemma_path_rank(x, y, k - 1);
    } else if a.len() > 0 && b.len() > 0 {
        lemma_text_rank_turns(a[0], b[0]);
    }
}

} // verus!
