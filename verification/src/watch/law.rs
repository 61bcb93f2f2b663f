//! Which discs a watch mounts, and which views it gives up.

use vstd::prelude::*;

use super::{
    backs_off, cleared, dropped, gone, remaining, to_mount, without_source, Gone, ServedView,
    ViewFacts,
};
use crate::path;

verus! {

/// A view that was released is gone; so is one whose disc vanished. Any other
/// stays.
pub proof fn lemma_gone(f: ViewFacts)
    ensures
        gone(f) == if f.active && f.present {
            None
        } else if f.active {
            Some(Gone::Vanished)
        } else {
            Some(Gone::Released)
        },
{
}

/// Of the views that are served, those whose disc is there and that were not
/// released stay, and all others are given up, each for its reason.
pub proof fn lemma_survey(active: Seq<ServedView>, facts: Seq<ViewFacts>, i: int)
    requires
        0 <= i < active.len(),
    ensures
        i >= facts.len() || facts[i].active && facts[i].present ==> remaining(
            active,
            facts,
        ).contains(active[i]),
        i < facts.len() && facts[i].active && !facts[i].present ==> dropped(active, facts).contains(
            (active[i], Gone::Vanished),
        ),
        i < facts.len() && !facts[i].active ==> dropped(active, facts).contains(
            (active[i], Gone::Released),
        ),
    decreases active.len(),
{
    let d = active.drop_last();
    let last = active.len() - 1;
    let rb = remaining(d, facts);
    let rn = remaining(active, facts);
    let db = dropped(d, facts);
    let dn = dropped(active, facts);
    if i < last {
        lemma_survey(d, facts, i);
        assert(d[i] == active[i]);
        if rb.contains(active[i]) {
            let k = choose|k: int| 0 <= k < rb.len() && rb[k] == active[i];
            assert(rn[k] == active[i]);
        }
        if db.contains((active[i], Gone::Vanished)) {
            let k = choose|k: int| 0 <= k < db.len() && db[k] == (active[i], Gone::Vanished);
            assert(dn[k] == (active[i], Gone::Vanished));
        }
        if db.contains((active[i], Gone::Released)) {
            let k = choose|k: int| 0 <= k < db.len() && db[k] == (active[i], Gone::Released);
            assert(dn[k] == (active[i], Gone::Released));
        }
    } else {
        lemma_gone(facts[i]);
        if rn.len() > rb.len() {
            assert(rn[rb.len() as int] == active[i]);
        }
        if dn.len() > db.len() {
            assert(dn[db.len() as int].0 == active[i]);
        }
    }
}

/// No view is made up: what stays was served, and what is given up was.
pub proof fn lemma_survey_only(active: Seq<ServedView>, facts: Seq<ViewFacts>, x: ServedView, g: Gone)
    ensures
        remaining(active, facts).contains(x) ==> exists|i: int|
            0 <= i < active.len() && #[trigger] active[i] == x && (i < facts.len()
                ==> facts[i].active && facts[i].present),
        dropped(active, facts).contains((x, g)) ==> exists|i: int|
            0 <= i < active.len() && i < facts.len() && #[trigger] active[i] == x && !(
            facts[i].active && facts[i].present),
    decreases active.len(),
{
    if active.len() > 0 {
        let d = active.drop_last();
        let last = active.len() - 1;
        let rb = remaining(d, facts);
        let rn = remaining(active, facts);
        let db = dropped(d, facts);
        let dn = dropped(active, facts);
        lemma_survey_only(d, facts, x, g);
        if rn.contains(x) {
            let k = choose|k: int| 0 <= k < rn.len() && rn[k] == x;
            if k < rb.len() {
                assert(rb[k] == x);
                let i = choose|i: int|
                    0 <= i < d.len() && #[trigger] d[i] == x && (i < facts.len()
                        ==> facts[i].active && facts[i].present);
                assert(active[i] == x);
            } else {
                assert(active[last] == x);
            }
        }
        if dn.contains((x, g)) {
            let k = choose|k: int| 0 <= k < dn.len() && dn[k] == (x, g);
            if k < db.len() {
                assert(db[k] == (x, g));
                let i = choose|i: int|
                    0 <= i < d.len() && i < facts.len() && #[trigger] d[i] == x && !(
                    facts[i].active && facts[i].present);
                assert(active[i] == x);
            } else {
                assert(active[last] == x);
            }
        }
    }
}

/// A disc is mounted just when it is protected, or unprotected ones are wanted
/// too; it is none of our own views; no disc with its path is served; and it did
/// not fail within the last minute.
pub proof fn lemma_to_mount(
    failed: Seq<(Seq<char>, u64)>,
    src: Seq<char>,
    protected: bool,
    include_unprotected: bool,
    base: Seq<char>,
    active: Seq<Seq<char>>,
    now: u64,
)
    ensures
        to_mount(failed, src, protected, include_unprotected, base, active, now) <==> (protected
            || include_unprotected) && !path::comps(base).is_prefix_of(path::comps(src)) && !(exists|
            i: int,
        |
            0 <= i < active.len() && path::comps(#[trigger] active[i]) == path::comps(src)) && !(
        exists|i: int|
            0 <= i < failed.len() && path::comps((#[trigger] failed[i]).0) == path::comps(src) && now
                < failed[i].1 + 60_000),
{
    if backs_off(failed, src, now) {
        let i = choose|i: int|
            0 <= i < failed.len() && path::comps((#[trigger] failed[i]).0) == path::comps(src) && now
                - failed[i].1 < super::RETRY_MS;
        assert(now < failed[i].1 + 60_000);
    } else {
        assert forall|i: int|
            0 <= i < failed.len() && path::comps((#[trigger] failed[i]).0) == path::comps(
                src,
            ) implies now >= failed[i].1 + 60_000 by {
            assert(!(now - failed[i].1 < super::RETRY_MS));
        }
    }
}

/// A disc that was mounted leaves the failures, and no other does.
pub proof fn lemma_without_source(
    v: Seq<(Seq<char>, u64)>,
    src: Seq<char>,
    e: (Seq<char>, u64),
)
    ensures
        without_source(v, src).contains(e) <==> v.contains(e) && path::comps(e.0) != path::comps(
            src,
        ),
    decreases v.len(),
{
    if v.len() > 0 {
        let d = v.drop_last();
        let before = without_source(d, src);
        let n = without_source(v, src);
        let last = v.len() - 1;
        lemma_without_source(d, src, e);
        assert(v =~= d.push(v.last()));
        if d.contains(e) {
            let i = choose|i: int| 0 <= i < d.len() && d[i] == e;
            assert(v[i] == e);
        }
        if before.contains(e) {
            let k = choose|k: int| 0 <= k < before.len() && before[k] == e;
            assert(n[k] == e);
        }
        if n.contains(e) && !before.contains(e) {
            let k = choose|k: int| 0 <= k < n.len() && n[k] == e;
            if k < before.len() {
                assert(before[k] == e);
            }
            assert(v[last] == e);
        }
        if v.contains(e) && !d.contains(e) {
            let i = choose|i: int| 0 <= i < v.len() && v[i] == e;
            if i < d.len() {
                assert(d[i] == e);
            }
            if path::comps(e.0) != path::comps(src) {
                assert(n[before.len() as int] == e);
            }
        }
    }
}

/// Views that are gone are cleared away one by one, in order.
pub proof fn lemma_cleared_in_order(
    leaving: Seq<(ServedView, Gone)>,
    hold: Seq<(Seq<char>, u64)>,
    now: u64,
)
    ensures
        leaving.len() == 0 ==> cleared(leaving, hold, now) == (leaving, hold),
        leaving.len() > 0 ==> leaving == seq![leaving[0]] + cleared(leaving, hold, now).0,
{
    if leaving.len() > 0 {
        assert(leaving =~= seq![leaving[0]] + leaving.skip(1));
    }
}

} // verus!
