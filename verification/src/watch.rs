//! The watch over `/Volumes`: which discs to mount, and which views to drop.

pub mod law;

use vstd::prelude::*;

use crate::mount;
use crate::mount::{HoldOff, MountOptions};
use crate::path;
use crate::text;

verus! {

pub struct WatchOptions {
    /// Seconds between two looks.
    pub poll: u64,
    /// Also mount discs without copy protection, which others can read anyway.
    pub include_unprotected: bool,
    pub mount: MountOptions,
}

impl WatchOptions {
    /// Options with at least a second between two looks.
    pub fn new(poll: u64, include_unprotected: bool, mount: MountOptions) -> (r: WatchOptions)
        ensures
            r.poll == if poll == 0 {
                1
            } else {
                poll
            },
            r.include_unprotected == include_unprotected,
            r.mount == mount,
    {
        WatchOptions {
            poll: if poll == 0 {
                1
            } else {
                poll
            },
            include_unprotected,
            mount,
        }
    }
}

/// How long a disc that could not be mounted is left alone, in milliseconds.
pub const RETRY_MS: u64 = 60_000;

/// What became of a view.
#[derive(Clone, Copy, Debug, PartialEq, Eq, Structural)]
pub enum Gone {
    /// Its disc vanished: the view has to be unmounted.
    Vanished,
    /// It was released already; only its directory is left.
    Released,
}

/// What is known of a view: it was not released yet, and its source is there.
#[derive(Clone, Copy, Debug, PartialEq, Eq, Structural)]
pub struct ViewFacts {
    pub active: bool,
    pub present: bool,
}

/// What became of a view, if it is no longer to be served.
pub open spec fn gone(f: ViewFacts) -> Option<Gone> {
    if !f.active {
        Some(Gone::Released)
    } else if !f.present {
        Some(Gone::Vanished)
    } else {
        None
    }
}

/// A disc that is served.
pub struct Served {
    pub source: String,
    pub mountpoint: String,
}

#[verifier::ext_equal]
pub struct ServedView {
    pub source: Seq<char>,
    pub mountpoint: Seq<char>,
}

impl View for Served {
    type V = ServedView;

    open spec fn view(&self) -> ServedView {
        ServedView { source: self.source@, mountpoint: self.mountpoint@ }
    }
}

pub open spec fn served_views(v: Seq<Served>) -> Seq<ServedView> {
    v.map_values(|s: Served| s@)
}

pub open spec fn served_sources(v: Seq<ServedView>) -> Seq<Seq<char>> {
    v.map_values(|s: ServedView| s.source)
}

/// The view at `i` is gone; one of which nothing is known is not.
pub open spec fn gone_at(facts: Seq<ViewFacts>, i: int) -> Option<Gone> {
    if 0 <= i < facts.len() {
        gone(facts[i])
    } else {
        None
    }
}

/// The views that are still served.
pub open spec fn remaining(active: Seq<ServedView>, facts: Seq<ViewFacts>) -> Seq<ServedView>
    decreases active.len(),
{
    if active.len() == 0 {
        active
    } else {
        let before = remaining(active.drop_last(), facts);
        if gone_at(facts, active.len() - 1) is Some {
            before
        } else {
            before.push(active.last())
        }
    }
}

/// The views that are gone.
pub open spec fn dropped(active: Seq<ServedView>, facts: Seq<ViewFacts>) -> Seq<(ServedView, Gone)>
    decreases active.len(),
{
    if active.len() == 0 {
        Seq::empty()
    } else {
        let before = dropped(active.drop_last(), facts);
        match gone_at(facts, active.len() - 1) {
            Some(g) => before.push((active.last(), g)),
            None => before,
        }
    }
}

pub open spec fn drop_views(v: Seq<(Served, Gone)>) -> Seq<(ServedView, Gone)> {
    v.map_values(|e: (Served, Gone)| (e.0@, e.1))
}

/// The discs that are served, the views that are gone and have yet to be cleared
/// away, and the discs that could not be mounted and when they were last tried.
pub struct Watcher {
    pub active: Vec<Served>,
    pub leaving: Vec<(Served, Gone)>,
    pub failed: HoldOff,
}

/// The disc was tried less than a while ago, in vain.
pub open spec fn backs_off(failed: Seq<(Seq<char>, u64)>, src: Seq<char>, now: u64) -> bool {
    exists|i: int|
        0 <= i < failed.len() && path::comps((#[trigger] failed[i]).0) == path::comps(src) && now
            - failed[i].1 < RETRY_MS
}

/// The disc at `src` is to be mounted: it is none of our own views, not served
/// already, protected or wanted anyway, and did not fail a moment ago.
pub open spec fn to_mount(
    failed: Seq<(Seq<char>, u64)>,
    src: Seq<char>,
    protected: bool,
    include_unprotected: bool,
    base: Seq<char>,
    active: Seq<Seq<char>>,
    now: u64,
) -> bool {
    &&& !path::comps(base).is_prefix_of(path::comps(src))
    &&& !path::has_path(active, src)
    &&& protected || include_unprotected
    &&& !backs_off(failed, src, now)
}

/// The failures without that of `src`.
pub open spec fn without_source(v: Seq<(Seq<char>, u64)>, src: Seq<char>) -> Seq<(Seq<char>, u64)>
    decreases v.len(),
{
    if v.len() == 0 {
        v
    } else {
        let before = without_source(v.drop_last(), src);
        if path::comps(v.last().0) == path::comps(src) {
            before
        } else {
            before.push(v.last())
        }
    }
}

/// A Blu-ray volume that was found, by its path without links.
pub struct Found {
    pub source: String,
    pub protected: bool,
}

/// The first of `found`, from `i` on, that is to be mounted.
pub open spec fn next_found(
    failed: Seq<(Seq<char>, u64)>,
    found: Seq<Found>,
    i: int,
    include_unprotected: bool,
    base: Seq<char>,
    active: Seq<Seq<char>>,
    now: u64,
) -> Option<usize>
    decreases found.len() - i,
{
    if i < 0 || i >= found.len() {
        None
    } else if to_mount(
        failed,
        found[i].source@,
        found[i].protected,
        include_unprotected,
        base,
        active,
        now,
    ) {
        Some(i as usize)
    } else {
        next_found(failed, found, i + 1, include_unprotected, base, active, now)
    }
}

/// The views that are left once the first was cleared away at `now`, and the
/// releases then.
pub open spec fn cleared(
    leaving: Seq<(ServedView, Gone)>,
    hold: Seq<(Seq<char>, u64)>,
    now: u64,
) -> (Seq<(ServedView, Gone)>, Seq<(Seq<char>, u64)>) {
    if leaving.len() == 0 {
        (leaving, hold)
    } else {
        (leaving.skip(1), mount::with_release(hold, leaving[0].0.source, now))
    }
}

pub(crate) fn copy_served(s: &Served) -> (r: Served)
    ensures
        r@ == s@,
{
    Served {
        source: text::owned(s.source.as_str()),
        mountpoint: text::owned(s.mountpoint.as_str()),
    }
}

impl Watcher {
    pub fn new() -> (r: Watcher)
        ensures
            served_views(r.active@) == Seq::<ServedView>::empty(),
            drop_views(r.leaving@) == Seq::<(ServedView, Gone)>::empty(),
            r.failed@ == Seq::<(Seq<char>, u64)>::empty(),
    {
        let r = Watcher { active: Vec::new(), leaving: Vec::new(), failed: HoldOff::new() };
        assert(served_views(r.active@) =~= Seq::<ServedView>::empty());
        assert(drop_views(r.leaving@) =~= Seq::<(ServedView, Gone)>::empty());
        r
    }

    /// Stops serving the views that are gone: they have to be cleared away.
    /// `facts` holds what is known of each view that is served.
    pub fn drop_gone(&mut self, facts: &[ViewFacts])
        ensures
            served_views(final(self).active@) == remaining(served_views(old(self).active@), facts@),
            drop_views(final(self).leaving@) == drop_views(old(self).leaving@) + dropped(
                served_views(old(self).active@),
                facts@,
            ),
            final(self).failed == old(self).failed,
    {
        let ghost all = served_views(self.active@);
        let ghost start = drop_views(self.leaving@);
        let mut kept: Vec<Served> = Vec::new();
        assert(all.take(0) =~= Seq::<ServedView>::empty());
        assert(served_views(kept@) =~= Seq::<ServedView>::empty());
        assert(start + Seq::<(ServedView, Gone)>::empty() =~= start);
        let mut i: usize = 0;
        while i < self.active.len()
            invariant
                i <= self.active@.len(),
                all == served_views(self.active@),
                self.failed == old(self).failed,
                served_views(kept@) == remaining(all.take(i as int), facts@),
                drop_views(self.leaving@) == start + dropped(all.take(i as int), facts@),
            decreases self.active@.len() - i,
        {
            assert(all.take(i + 1).drop_last() =~= all.take(i as int));
            assert(all.take(i + 1).last() == self.active@[i as int]@);
            let copy = copy_served(&self.active[i]);
            let fate = if i < facts.len() {
                if !facts[i].active {
                    Some(Gone::Released)
                } else if !facts[i].present {
                    Some(Gone::Vanished)
                } else {
                    None
                }
            } else {
                None
            };
            match fate {
                Some(g) => {
                    let ghost before = drop_views(self.leaving@);
                    let ghost found = dropped(all.take(i as int), facts@);
                    self.leaving.push((copy, g));
                    assert(drop_views(self.leaving@) =~= before.push((copy@, g)));
                    assert((start + found).push((copy@, g)) =~= start + found.push((copy@, g)));
                },
                None => {
                    let ghost before = served_views(kept@);
                    kept.push(copy);
                    assert(served_views(kept@) =~= before.push(copy@));
                },
            }
            i += 1;
        }
        assert(all.take(i as int) =~= all);
        self.active = kept;
    }

    /// The next view to be cleared away, and what became of it.
    pub fn next_gone(&self) -> (r: Option<(Served, Gone)>)
        ensures
            match r {
                Some((s, g)) => self.leaving@.len() > 0 && (s@, g) == drop_views(self.leaving@)[0],
                None => self.leaving@.len() == 0,
            },
    {
        if self.leaving.len() == 0 {
            return None;
        }
        Some((copy_served(&self.leaving[0].0), self.leaving[0].1))
    }

    /// The next view was cleared away: its source is held off from now on.
    pub fn released(&mut self, hold: &mut HoldOff, now_ms: u64)
        ensures
            final(self).active == old(self).active,
            final(self).failed == old(self).failed,
            (drop_views(final(self).leaving@), final(hold)@) == cleared(
                drop_views(old(self).leaving@),
                old(hold)@,
                now_ms,
            ),
    {
        if self.leaving.len() == 0 {
            return;
        }
        let ghost before = drop_views(self.leaving@);
        assert(before[0].0 == self.leaving@[0].0@);
        mount::mark_source_released(hold, self.leaving[0].0.source.as_str(), now_ms);
        self.leaving.remove(0);
        assert(drop_views(self.leaving@) =~= before.skip(1));
    }

    fn sources(&self) -> (r: Vec<String>)
        ensures
            text::strs(r@) == served_sources(served_views(self.active@)),
    {
        let ghost all = served_sources(served_views(self.active@));
        let mut out: Vec<String> = Vec::new();
        let mut i: usize = 0;
        while i < self.active.len()
            invariant
                i <= self.active@.len(),
                all == served_sources(served_views(self.active@)),
                out@.len() == i,
                forall|j: int| 0 <= j < i ==> (#[trigger] out@[j])@ == all[j],
            decreases self.active@.len() - i,
        {
            out.push(text::owned(self.active[i].source.as_str()));
            i += 1;
        }
        assert(text::strs(out@) =~= all);
        out
    }

    /// The sources that must not be looked at: those that are served, and those
    /// that are held off.
    pub fn skipped(&self, held_off: &[String]) -> (r: Vec<String>)
        ensures
            text::strs(r@) == served_sources(served_views(self.active@)) + text::strs(held_off@),
    {
        let mut out = self.sources();
        let mut more = text::clone_strings(held_off);
        let ghost a = out@;
        let ghost b = more@;
        out.append(&mut more);
        assert(text::strs(out@) =~= text::strs(a) + text::strs(b));
        out
    }

    /// The next of the volumes found, from `from` on, that is to be mounted.
    /// `base` is where our views are.
    pub fn next_mount(
        &self,
        found: &[Found],
        from: usize,
        include_unprotected: bool,
        base: &str,
        now_ms: u64,
    ) -> (r: Option<usize>)
        ensures
            r == next_found(
                self.failed@,
                found@,
                from as int,
                include_unprotected,
                base@,
                served_sources(served_views(self.active@)),
                now_ms,
            ),
            r matches Some(i) ==> i < found@.len(),
    {
        let active = self.sources();
        let ghost goal = next_found(
            self.failed@,
            found@,
            from as int,
            include_unprotected,
            base@,
            text::strs(active@),
            now_ms,
        );
        let mut i: usize = from;
        while i < found.len()
            invariant
                from <= i,
                text::strs(active@) == served_sources(served_views(self.active@)),
                goal == next_found(
                    self.failed@,
                    found@,
                    from as int,
                    include_unprotected,
                    base@,
                    text::strs(active@),
                    now_ms,
                ),
                goal == next_found(
                    self.failed@,
                    found@,
                    i as int,
                    include_unprotected,
                    base@,
                    text::strs(active@),
                    now_ms,
                ),
            decreases found@.len() - i,
        {
            if self.wants(
                found[i].source.as_str(),
                found[i].protected,
                include_unprotected,
                base,
                active.as_slice(),
                now_ms,
            ) {
                return Some(i);
            }
            i += 1;
        }
        None
    }

    fn wants(
        &self,
        src: &str,
        protected: bool,
        include_unprotected: bool,
        base: &str,
        active: &[String],
        now_ms: u64,
    ) -> (r: bool)
        ensures
            r == to_mount(
                self.failed@,
                src@,
                protected,
                include_unprotected,
                base@,
                text::strs(active@),
                now_ms,
            ),
    {
        if path::path_starts_with(src, base) || path::list_has_path(active, src) {
            return false;
        }
        if !protected && !include_unprotected {
            return false;
        }
        let ghost all = self.failed@;
        let mut i: usize = 0;
        while i < self.failed.released.len()
            invariant
                i <= self.failed.released@.len(),
                all == self.failed@,
                forall|j: int|
                    0 <= j < i ==> !(path::comps((#[trigger] all[j]).0) == path::comps(src@)
                        && now_ms - all[j].1 < RETRY_MS),
            decreases self.failed.released@.len() - i,
        {
            let t: u64 = self.failed.released[i].1;
            assert(all[i as int] == (self.failed.released@[i as int].0@, t));
            if path::path_eq(self.failed.released[i].0.as_str(), src) && (now_ms < t || now_ms - t
                < RETRY_MS) {
                assert(backs_off(all, src@, now_ms));
                return false;
            }
            i += 1;
        }
        true
    }

    /// A disc was mounted: it is served, and has not failed.
    pub fn mounted(&mut self, src: &str, mountpoint: &str)
        ensures
            final(self).failed@ == without_source(old(self).failed@, src@),
            final(self).leaving == old(self).leaving,
            served_views(final(self).active@) == served_views(old(self).active@).push(
                ServedView { source: src@, mountpoint: mountpoint@ },
            ),
    {
        let ghost before_active = served_views(self.active@);
        self.active.push(
            Served { source: text::owned(src), mountpoint: text::owned(mountpoint) },
        );
        assert(served_views(self.active@) =~= before_active.push(
            ServedView { source: src@, mountpoint: mountpoint@ },
        ));
        let ghost all = self.failed@;
        let mut kept: Vec<(String, u64)> = Vec::new();
        assert(mount::release_views(kept@) =~= Seq::<(Seq<char>, u64)>::empty());
        assert(all.take(0) =~= Seq::<(Seq<char>, u64)>::empty());
        let mut i: usize = 0;
        while i < self.failed.released.len()
            invariant
                i <= self.failed.released@.len(),
                all == self.failed@,
                self.leaving == old(self).leaving,
                served_views(self.active@) == before_active.push(
                    ServedView { source: src@, mountpoint: mountpoint@ },
                ),
                mount::release_views(kept@) == without_source(all.take(i as int), src@),
            decreases self.failed.released@.len() - i,
        {
            assert(all.take(i + 1).drop_last() =~= all.take(i as int));
            assert(all.take(i + 1).last() == all[i as int]);
            let t: u64 = self.failed.released[i].1;
            assert(all[i as int] == (self.failed.released@[i as int].0@, t));
            if !path::path_eq(self.failed.released[i].0.as_str(), src) {
                let ghost before = mount::release_views(kept@);
                let s = text::owned(self.failed.released[i].0.as_str());
                kept.push((s, t));
                assert(mount::release_views(kept@) =~= before.push(all[i as int]));
            }
            i += 1;
        }
        assert(all.take(i as int) =~= all);
        self.failed.released = kept;
    }

    /// A disc could not be mounted.
    pub fn mount_failed(&mut self, src: &str, now_ms: u64)
        ensures
            final(self).failed@ == mount::with_release(old(self).failed@, src@, now_ms),
            final(self).active == old(self).active,
            final(self).leaving == old(self).leaving,
    {
        mount::mark_source_released(&mut self.failed, src, now_ms);
    }
}

// ───────────────────────── laws ─────────────────────────

/// A disc that failed is not tried again until the time is up.
pub proof fn lemma_failed_backs_off(
    failed: Seq<(Seq<char>, u64)>,
    src: Seq<char>,
    then: u64,
    now: u64,
)
    requires
        now - then < RETRY_MS,
    ensures
        backs_off(mount::with_release(failed, src, then), src, now),
{
    mount::lemma_with_release(failed, src, then);
    let w = mount::with_release(failed, src, then);
    let i = mount::place_of(failed, src);
    assert(path::comps(w[i].0) == path::comps(src));
}

/// A disc whose view was cleared away is held off from then on: not from when it
/// vanished, but from when its release was over.
pub proof fn lemma_cleared_held(
    leaving: Seq<(ServedView, Gone)>,
    hold: Seq<(Seq<char>, u64)>,
    now: u64,
    table: Seq<mount::MountEntry>,
    later: u64,
)
    requires
        leaving.len() > 0,
        later - now < mount::HOLD_OFF_MS || mount::mounted_at(table, leaving[0].0.source),
    ensures
        path::has_path(
            mount::sources_of(mount::swept(cleared(leaving, hold, now).1, table, later)),
            leaving[0].0.source,
        ),
{
    mount::lemma_released_held(hold, leaving[0].0.source, now, table, later);
}

/// A disc that was mounted is not held to have failed.
pub proof fn lemma_mounted_clears(failed: Seq<(Seq<char>, u64)>, src: Seq<char>, now: u64)
    ensures
        !backs_off(without_source(failed, src), src, now),
    decreases failed.len(),
{
    if failed.len() > 0 {
        let d = failed.drop_last();
        let before = without_source(d, src);
        let w = without_source(failed, src);
        lemma_mounted_clears(d, src, now);
        assert forall|i: int| 0 <= i < w.len() implies !(path::comps((#[trigger] w[i]).0)
            == path::comps(src) && now - w[i].1 < RETRY_MS) by {
            if i < before.len() {
                assert(w[i] == before[i]);
            }
        }
    }
}

/// None of our own views and no disc that is served is ever mounted.
pub proof fn lemma_never_mounted(
    failed: Seq<(Seq<char>, u64)>,
    src: Seq<char>,
    protected: bool,
    include_unprotected: bool,
    base: Seq<char>,
    active: Seq<Seq<char>>,
    now: u64,
)
    requires
        path::comps(base).is_prefix_of(path::comps(src)) || path::has_path(active, src),
    ensures
        !to_mount(failed, src, protected, include_unprotected, base, active, now),
{
}

/// A view is either still served or dropped: those that are dropped are gone, and
/// the others are not.
pub proof fn lemma_served_or_dropped(active: Seq<ServedView>, facts: Seq<ViewFacts>)
    ensures
        remaining(active, facts).len() + dropped(active, facts).len() == active.len(),
    decreases active.len(),
{
    if active.len() > 0 {
        lemma_served_or_dropped(active.drop_last(), facts);
    }
}

/// What is chosen to be mounted is to be mounted, and nothing before it is.
pub proof fn lemma_next_found(
    failed: Seq<(Seq<char>, u64)>,
    found: Seq<Found>,
    from: int,
    include_unprotected: bool,
    base: Seq<char>,
    active: Seq<Seq<char>>,
    now: u64,
    i: int,
)
    requires
        0 <= from <= i < found.len() <= usize::MAX,
    ensures
        match next_found(failed, found, from, include_unprotected, base, active, now) {
            Some(k) => {
                &&& from <= k < found.len()
                &&& to_mount(
                    failed,
                    found[k as int].source@,
                    found[k as int].protected,
                    include_unprotected,
                    base,
                    active,
                    now,
                )
                &&& i < k ==> !to_mount(
                    failed,
                    found[i].source@,
                    found[i].protected,
                    include_unprotected,
                    base,
                    active,
                    now,
                )
            },
            None => !to_mount(
                failed,
                found[i].source@,
                found[i].protected,
                include_unprotected,
                base,
                active,
                now,
            ),
        },
    decreases found.len() - from,
{
    if !to_mount(
        failed,
        found[from].source@,
        found[from].protected,
        include_unprotected,
        base,
        active,
        now,
    ) {
        if from < i {
            lemma_next_found(
                failed,
                found,
                from + 1,
                include_unprotected,
                base,
                active,
                now,
                i,
            );
        } else if from + 1 < found.len() {
            lemma_next_found(
                failed,
                found,
                from + 1,
                include_unprotected,
                base,
                active,
                now,
                from + 1,
            );
        }
    }
}

} // verus!
