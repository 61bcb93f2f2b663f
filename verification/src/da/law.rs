//! What is claimed and ejected, in terms of the disks that were asked for.

use vstd::prelude::*;

use super::{
    bare_name, belongs_to, bsd_of_raw, class_above, dissents, ejectable, first_node, is_only,
    targets, union, whole_disks, MediaLevel, OpticalClass,
};
use crate::rawudf::device;
use crate::rawudf::node::{digits, disk, lemma_same_disk, lemma_whole_disk, node, tail_ok};
use crate::text;

verus! {

broadcast use vstd::string::group_string_axioms;

// ───────────────────────── mounting ─────────────────────────

/// The system is kept from mounting a disc just when the disc has one of the two
/// file systems of discs and is a Blu-ray, or may be one and holds a Blu-ray tree.
/// A DVD or a CD is always left to it.
pub proof fn lemma_dissent(kind: Seq<char>, class: OpticalClass, has_bdmv: bool)
    ensures
        dissents(kind, class, has_bdmv) <==> (kind == seq!['u', 'd', 'f'] || kind == seq![
            'c',
            'd',
            '9',
            '6',
            '6',
            '0',
        ]) && match class {
            OpticalClass::BluRay => true,
            OpticalClass::Unknown => has_bdmv,
            OpticalClass::Dvd => false,
            OpticalClass::Cd => false,
        },
{
    reveal_strlit("udf");
    reveal_strlit("cd9660");
    assert("udf"@ =~= seq!['u', 'd', 'f']);
    assert("cd9660"@ =~= seq!['c', 'd', '9', '6', '6', '0']);
}

/// The class of a disk is that of the nearest of the sixteen levels above it that
/// is optical media at all; a Blu-ray comes before a DVD, and a DVD before a CD.
pub proof fn lemma_class(levels: Seq<MediaLevel>, k: int, from: int)
    requires
        0 <= from <= k < 16,
        forall|i: int|
            from <= i < k && i < levels.len() ==> !(#[trigger] levels[i]).bd && !levels[i].dvd
                && !levels[i].cd,
    ensures
        k < levels.len() && levels[k].bd ==> class_above(levels, from) == OpticalClass::BluRay,
        k < levels.len() && !levels[k].bd && levels[k].dvd ==> class_above(levels, from)
            == OpticalClass::Dvd,
        k < levels.len() && !levels[k].bd && !levels[k].dvd && levels[k].cd ==> class_above(
            levels,
            from,
        ) == OpticalClass::Cd,
        k >= levels.len() ==> class_above(levels, from) == OpticalClass::Unknown,
        k == 15 && (k < levels.len() ==> !levels[k].bd && !levels[k].dvd && !levels[k].cd)
            ==> class_above(levels, from) == OpticalClass::Unknown,
    decreases k - from,
{
    if from < k && from < levels.len() {
        assert(!levels[from].bd);
        lemma_class(levels, k, from + 1);
    } else if from < levels.len() && from == k {
        assert(class_above(levels, 16) == OpticalClass::Unknown);
    }
}

// ───────────────────────── names ─────────────────────────

proof fn lemma_bare(raw: bool, d: Seq<char>, tail: Seq<char>)
    requires
        digits(d),
        tail_ok(tail),
    ensures
        bare_name(node(true, raw, d, tail)) == disk(d) + tail,
        bare_name(node(false, false, d, tail)) == disk(d) + tail,
{
    reveal_strlit("/dev/r");
    reveal_strlit("/dev/");
    let b = disk(d) + tail;
    let p = node(true, raw, d, tail);
    assert(node(false, false, d, tail) =~= b);
    assert(b[0] == 'd');
    assert(!"/dev/r"@.is_prefix_of(b)) by {
        if "/dev/r"@.is_prefix_of(b) {
            assert(b.take(6)[0] == b[0]);
        }
    }
    assert(!"/dev/"@.is_prefix_of(b)) by {
        if "/dev/"@.is_prefix_of(b) {
            assert(b.take(5)[0] == b[0]);
        }
    }
    assert(text::without_prefixes(b, "/dev/r"@) == b);
    assert(text::without_prefixes(b, "/dev/"@) == b);
    if raw {
        assert(p.take(6) =~= "/dev/r"@);
        assert("/dev/r"@.is_prefix_of(p));
        assert(p.skip(6) =~= b);
        assert(text::without_prefixes(p, "/dev/r"@) == b);
    } else {
        assert(!"/dev/r"@.is_prefix_of(p)) by {
            if "/dev/r"@.is_prefix_of(p) {
                assert(p.take(6)[5] == p[5]);
            }
        }
        assert(p.take(5) =~= "/dev/"@);
        assert("/dev/"@.is_prefix_of(p));
        assert(p.skip(5) =~= b);
    }
}

/// A node of `/dev`, raw or not, whole or a slice, belongs to the disk with its
/// number.
pub proof fn lemma_bsd_of_node(raw: bool, d: Seq<char>, tail: Seq<char>)
    requires
        digits(d),
        tail_ok(tail),
    ensures
        bsd_of_raw(node(true, raw, d, tail)) == disk(d),
{
    lemma_bare(raw, d, tail);
    lemma_whole_disk(disk(d), d, tail);
}

/// A name belongs to a disk just when it is the disk's own or goes on from it with
/// an `s`.
pub proof fn lemma_belongs(name: Seq<char>, whole: Seq<char>)
    ensures
        belongs_to(name, whole) <==> name == whole || name.len() > whole.len() && name.take(
            whole.len() as int,
        ) == whole && name[whole.len() as int] == 's',
{
    reveal_strlit("s");
    let w = whole + "s"@;
    if w.is_prefix_of(name) {
        assert(name.take(w.len() as int) == w);
        assert(name.take(whole.len() as int) =~= w.take(whole.len() as int));
        assert(w.take(whole.len() as int) =~= whole);
        assert(name.take(w.len() as int)[whole.len() as int] == w[whole.len() as int]);
    }
    if name.len() > whole.len() && name.take(whole.len() as int) == whole && name[whole.len() as int]
        == 's' {
        assert forall|i: int| 0 <= i < whole.len() implies name[i] == whole[i] by {
            assert(name.take(whole.len() as int)[i] == name[i]);
        }
        assert(name.take(w.len() as int) =~= w);
    }
}

// ───────────────────────── claims ─────────────────────────

/// The claims are those of this process, then those that were kept; each once.
pub proof fn lemma_union(a: Seq<Seq<char>>, b: Seq<Seq<char>>, x: Seq<char>)
    ensures
        union(a, b).contains(x) <==> a.contains(x) || b.contains(x),
        a.is_prefix_of(union(a, b)),
        a.no_duplicates() ==> union(a, b).no_duplicates(),
    decreases b.len(),
{
    if b.len() > 0 {
        let d = b.drop_last();
        let before = union(a, d);
        let n = union(a, b);
        lemma_union(a, d, x);
        lemma_union(a, d, b.last());
        assert(b =~= d.push(b.last()));
        assert(n.take(a.len() as int) =~= before.take(a.len() as int));
        if d.contains(x) {
            let i = choose|i: int| 0 <= i < d.len() && d[i] == x;
            assert(b[i] == x);
        }
        if b.contains(x) && !d.contains(x) {
            let i = choose|i: int| 0 <= i < b.len() && b[i] == x;
            if i < d.len() {
                assert(d[i] == x);
            }
            assert(x == b.last());
        }
        if !before.contains(b.last()) {
            assert(n[before.len() as int] == b.last());
            assert(b[b.len() - 1] == b.last());
            if before.contains(x) {
                let i = choose|i: int| 0 <= i < before.len() && before[i] == x;
                assert(n[i] == x);
            }
            if n.contains(x) && !before.contains(x) {
                let i = choose|i: int| 0 <= i < n.len() && n[i] == x;
                if i < before.len() {
                    assert(before[i] == x);
                }
            }
            if a.no_duplicates() {
                assert forall|i: int, j: int| 0 <= i < n.len() && 0 <= j < n.len() && i
                    != j implies n[i] != n[j] by {
                    if i < before.len() {
                        assert(before[i] == n[i]);
                    }
                    if j < before.len() {
                        assert(before[j] == n[j]);
                    }
                }
            }
        }
    } else {
        assert(a.take(a.len() as int) =~= a);
    }
}

/// The claimed disks are the whole disks of the claimed names, all of them and no
/// others, each once.
pub proof fn lemma_whole_disks(names: Seq<Seq<char>>, w: Seq<char>)
    ensures
        whole_disks(names).contains(w) <==> exists|i: int|
            0 <= i < names.len() && device::whole_disk(#[trigger] names[i]) == Some(w),
        whole_disks(names).no_duplicates(),
    decreases names.len(),
{
    if names.len() > 0 {
        let d = names.drop_last();
        let before = whole_disks(d);
        let n = whole_disks(names);
        let last = names.len() - 1;
        lemma_whole_disks(d, w);
        if before.contains(w) {
            let i = choose|i: int|
                0 <= i < d.len() && device::whole_disk(#[trigger] d[i]) == Some(w);
            assert(device::whole_disk(names[i]) == Some(w));
            let k = choose|k: int| 0 <= k < before.len() && before[k] == w;
            assert(n[k] == w);
        }
        if n.contains(w) && !before.contains(w) {
            let k = choose|k: int| 0 <= k < n.len() && n[k] == w;
            if k < before.len() {
                assert(before[k] == w);
            }
            assert(device::whole_disk(names[last]) == Some(w));
        }
        if exists|i: int| 0 <= i < names.len() && device::whole_disk(#[trigger] names[i]) == Some(w) {
            let i = choose|i: int|
                0 <= i < names.len() && device::whole_disk(#[trigger] names[i]) == Some(w);
            if i < last {
                assert(device::whole_disk(d[i]) == Some(w));
            } else if !before.contains(w) {
                assert(n[before.len() as int] == w);
            }
        }
        if n.len() > before.len() {
            assert forall|i: int, j: int| 0 <= i < n.len() && 0 <= j < n.len() && i
                != j implies n[i] != n[j] by {
                if i < before.len() {
                    assert(before[i] == n[i]);
                }
                if j < before.len() {
                    assert(before[j] == n[j]);
                }
            }
        }
    }
}

// ───────────────────────── ejecting ─────────────────────────

proof fn lemma_targets(disks: Seq<Seq<char>>, only: Option<Seq<char>>, x: Seq<char>)
    ensures
        targets(disks, only).contains(x) <==> disks.contains(x) && (only matches Some(o)
            ==> is_only(x, o)),
        only is None ==> targets(disks, only) == disks,
    decreases disks.len(),
{
    if disks.len() > 0 {
        let d = disks.drop_last();
        let before = targets(d, only);
        let n = targets(disks, only);
        lemma_targets(d, only, x);
        assert(disks =~= d.push(disks.last()));
        if d.contains(x) {
            let i = choose|i: int| 0 <= i < d.len() && d[i] == x;
            assert(disks[i] == x);
        }
        if disks.contains(x) && !d.contains(x) {
            let i = choose|i: int| 0 <= i < disks.len() && disks[i] == x;
            if i < d.len() {
                assert(d[i] == x);
            }
            assert(x == disks.last());
            if only matches Some(o) ==> is_only(x, o) {
                assert(n[before.len() as int] == x);
            }
        }
        if before.contains(x) {
            let i = choose|i: int| 0 <= i < before.len() && before[i] == x;
            assert(n[i] == x);
        }
        if n.contains(x) && !before.contains(x) {
            let i = choose|i: int| 0 <= i < n.len() && n[i] == x;
            if i < before.len() {
                assert(before[i] == x);
            }
            assert(disks[disks.len() - 1] == x);
        }
    } else {
        assert(disks =~= Seq::<Seq<char>>::empty());
    }
}

/// Every claimed disk that is the same device as the one that was asked for is
/// ejected; without such a request, every claimed disk is.
pub proof fn lemma_same_device_ejected(
    claims: Seq<Seq<char>>,
    kept: Seq<Seq<char>>,
    only: Option<Seq<char>>,
    w: Seq<char>,
)
    requires
        whole_disks(union(claims, kept)).contains(w),
        only matches Some(o) ==> device::same_device(seq!['/', 'd', 'e', 'v', '/', 'r'] + w, o),
    ensures
        targets(whole_disks(union(claims, kept)), only).contains(w),
{
    reveal_strlit("/dev/r");
    assert("/dev/r"@ =~= seq!['/', 'd', 'e', 'v', '/', 'r']);
    lemma_targets(whole_disks(union(claims, kept)), only, w);
}

/// A disk of which a name was claimed, by this process or an earlier one, is
/// ejected when it is asked for by any of its nodes, or when all are.
pub proof fn lemma_asked_is_ejected(
    claims: Seq<Seq<char>>,
    kept: Seq<Seq<char>>,
    d: Seq<char>,
    tail: Seq<char>,
    in_dev: bool,
    raw: bool,
    slice: Seq<char>,
)
    requires
        digits(d),
        tail_ok(tail),
        tail_ok(slice),
        claims.contains(disk(d) + tail) || kept.contains(disk(d) + tail),
    ensures
        targets(whole_disks(union(claims, kept)), Some(node(in_dev, raw, d, slice))).contains(
            disk(d),
        ),
        targets(whole_disks(union(claims, kept)), None).contains(disk(d)),
{
    let name = disk(d) + tail;
    let names = union(claims, kept);
    let only = node(in_dev, raw, d, slice);
    lemma_union(claims, kept, name);
    lemma_whole_disk(name, d, tail);
    let i = choose|i: int| 0 <= i < names.len() && names[i] == name;
    assert(device::whole_disk(names[i]) == Some(disk(d)));
    lemma_whole_disks(names, disk(d));
    let none = Seq::<char>::empty();
    assert(seq!['/', 'd', 'e', 'v', '/', 'r'] + disk(d) =~= node(true, true, d, none));
    lemma_same_disk(true, true, d, none, in_dev, raw, d, slice);
    lemma_same_device_ejected(claims, kept, Some(only), disk(d));
    lemma_same_device_ejected(claims, kept, None, disk(d));
}

proof fn lemma_node_suffix(
    e: Seq<char>,
    in_dev: bool,
    raw: bool,
    d: Seq<char>,
    slice: Seq<char>,
)
    requires
        digits(d),
        digits(e),
        forall|i: int| 0 <= i < slice.len() ==> #[trigger] slice[i] != 'd',
        disk(e).is_suffix_of(node(in_dev, raw, d, slice)),
    ensures
        disk(e) == disk(d) + slice,
{
    let w = disk(e);
    let only = node(in_dev, raw, d, slice);
    let front = (if in_dev {
        seq!['/', 'd', 'e', 'v', '/']
    } else {
        Seq::empty()
    }) + (if raw {
        seq!['r']
    } else {
        Seq::empty()
    });
    let b = disk(d) + slice;
    let at = front.len() as int;
    assert(only =~= front + b);
    let k = only.len() - w.len();
    assert(only.skip(k) == w);
    assert(only.skip(k)[0] == 'd' && only.skip(k)[1] == 'i');
    assert(only[k] == 'd' && only[k + 1] == 'i');
    if k < at {
        assert(only[k] == front[k]);
        assert(in_dev && k == 1);
        assert(only[2] == front[2]);
        assert(false);
    }
    if k > at {
        assert(only[k] == b[k - at]);
        if k - at < 4 {
            assert(b[k - at] == disk(d)[k - at]);
        } else if k - at < 4 + d.len() {
            assert(b[k - at] == d[k - at - 4]);
        } else {
            assert(b[k - at] == slice[k - at - 4 - d.len()]);
        }
        assert(false);
    }
    assert(only.skip(at) =~= b);
}

/// The eject of one device ejects no disk with another number.
pub proof fn lemma_others_not_ejected(
    claims: Seq<Seq<char>>,
    kept: Seq<Seq<char>>,
    w: Seq<char>,
    d: Seq<char>,
    in_dev: bool,
    raw: bool,
    slice: Seq<char>,
)
    requires
        digits(d),
        tail_ok(slice),
        forall|i: int| 0 <= i < slice.len() ==> #[trigger] slice[i] != 'd',
        targets(whole_disks(union(claims, kept)), Some(node(in_dev, raw, d, slice))).contains(w),
    ensures
        w == disk(d),
{
    reveal_strlit("/dev/r");
    let names = union(claims, kept);
    let only = node(in_dev, raw, d, slice);
    let none = Seq::<char>::empty();
    lemma_targets(whole_disks(names), Some(only), w);
    lemma_whole_disks(names, w);
    let i = choose|i: int|
        0 <= i < names.len() && device::whole_disk(#[trigger] names[i]) == Some(w);
    lemma_whole_disk(names[i], d, none);
    let e = w.skip(4);
    assert(w =~= disk(e)) by {
        assert(w =~= w.take(4) + w.skip(4));
    }
    assert("/dev/r"@ + w =~= node(true, true, e, none));
    lemma_same_disk(true, true, e, none, in_dev, raw, d, slice);
    if e != d && w.is_suffix_of(only) {
        lemma_node_suffix(e, in_dev, raw, d, slice);
        lemma_whole_disk(w, d, slice);
        device::lemma_whole_disk_idempotent(names[i]);
    }
    if w == only {
        assert(w[0] == 'd');
        assert(!in_dev && !raw);
        assert(only =~= disk(d) + slice);
        lemma_whole_disk(w, d, slice);
        device::lemma_whole_disk_idempotent(names[i]);
    }
}

/// The device whose holders are waited for is the raw node of the first disk.
pub proof fn lemma_waits_for(w: Seq<char>)
    ensures
        first_node(w) == seq!['/', 'd', 'e', 'v', '/', 'r'] + w,
{
    reveal_strlit("/dev/r");
    assert("/dev/r"@ =~= seq!['/', 'd', 'e', 'v', '/', 'r']);
    let nodes = device::raw_nodes(w);
    if nodes.len() > 0 {
        let one = seq!["/dev/r"@ + w];
        assert(nodes[0] == one[0]);
    }
}

/// Of the disks of a plan, all are ejected but those that hold a DVD or a CD; the
/// order stays.
pub proof fn lemma_ejectable(disks: Seq<Seq<char>>, classes: Seq<OpticalClass>, i: int)
    requires
        disks.no_duplicates(),
        0 <= i < disks.len(),
    ensures
        ejectable(disks, classes).contains(disks[i]) <==> !(i < classes.len() && (classes[i]
            == OpticalClass::Dvd || classes[i] == OpticalClass::Cd)),
        (forall|j: int|
            0 <= j < disks.len() && j < classes.len() ==> #[trigger] classes[j] != OpticalClass::Dvd
                && classes[j] != OpticalClass::Cd) ==> ejectable(disks, classes) == disks,
    decreases disks.len(),
{
    let d = disks.drop_last();
    let before = ejectable(d, classes);
    let n = ejectable(disks, classes);
    let last = disks.len() - 1;
    assert forall|a: int, b: int| 0 <= a < d.len() && 0 <= b < d.len() && a != b implies d[a]
        != d[b] by {
        assert(d[a] == disks[a] && d[b] == disks[b]);
    }
    lemma_ejectable_only(d, classes, disks[last]);
    if d.len() > 0 {
        if i < last {
            lemma_ejectable(d, classes, i);
            assert(d[i] == disks[i]);
            if before.contains(disks[i]) {
                let k = choose|k: int| 0 <= k < before.len() && before[k] == disks[i];
                assert(n[k] == disks[i]);
            }
            if n.contains(disks[i]) && !before.contains(disks[i]) {
                let k = choose|k: int| 0 <= k < n.len() && n[k] == disks[i];
                if k < before.len() {
                    assert(before[k] == disks[i]);
                }
                assert(disks[i] == disks[last]);
            }
        } else {
            lemma_ejectable(d, classes, 0);
        }
    } else {
        assert(before =~= d);
    }
    if i == last {
        assert(!d.contains(disks[last])) by {
            if d.contains(disks[last]) {
                let k = choose|k: int| 0 <= k < d.len() && d[k] == disks[last];
                assert(disks[k] == disks[last]);
            }
        }
        if n.len() > before.len() {
            assert(n[before.len() as int] == disks[last]);
        }
    }
    assert(d.push(disks.last()) =~= disks);
}

proof fn lemma_ejectable_only(disks: Seq<Seq<char>>, classes: Seq<OpticalClass>, x: Seq<char>)
    ensures
        ejectable(disks, classes).contains(x) ==> disks.contains(x),
    decreases disks.len(),
{
    if disks.len() > 0 {
        let d = disks.drop_last();
        let before = ejectable(d, classes);
        let n = ejectable(disks, classes);
        lemma_ejectable_only(d, classes, x);
        if n.contains(x) {
            let k = choose|k: int| 0 <= k < n.len() && n[k] == x;
            if k < before.len() {
                assert(before[k] == x);
                let i = choose|i: int| 0 <= i < d.len() && d[i] == x;
                assert(disks[i] == x);
            } else {
                assert(disks[disks.len() - 1] == x);
            }
        }
    }
}

// ───────────────────────── the claim file ─────────────────────────

/// A claim file that is missing, or that holds no list of names, holds no claims.
pub proof fn lemma_claim_file(t: Seq<char>)
    ensures
        super::claims_in(None).len() == 0,
        super::names_in(t) is None ==> super::claims_in(Some(t)).len() == 0,
        super::names_in(t) matches Some(v) ==> super::claims_in(Some(t)) == v,
{
}

/// Every claimed disk that is the same device as the one that was asked for, or
/// every claimed disk where none was, is among `disks`.
pub open spec fn all_asked(
    claims: Seq<Seq<char>>,
    kept: Seq<Seq<char>>,
    only: Option<Seq<char>>,
    disks: Seq<Seq<char>>,
) -> bool {
    forall|w: Seq<char>|
        #[trigger] whole_disks(union(claims, kept)).contains(w) && (only matches Some(o)
            ==> device::same_device(seq!['/', 'd', 'e', 'v', '/', 'r'] + w, o)) ==> disks.contains(
            w,
        )
}

/// An eject is about all disks that were asked for.
pub proof fn lemma_all_asked(
    claims: Seq<Seq<char>>,
    kept: Seq<Seq<char>>,
    only: Option<Seq<char>>,
)
    ensures
        all_asked(claims, kept, only, targets(whole_disks(union(claims, kept)), only)),
{
    assert forall|w: Seq<char>|
        #[trigger] whole_disks(union(claims, kept)).contains(w) && (only matches Some(o)
            ==> device::same_device(seq!['/', 'd', 'e', 'v', '/', 'r'] + w, o)) implies targets(
        whole_disks(union(claims, kept)),
        only,
    ).contains(w) by {
        lemma_same_device_ejected(claims, kept, only, w);
    }
}

} // verus!
