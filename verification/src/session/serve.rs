//! Serving every Blu-ray drive: what each tick of the `mount` command does.
//!
//! A tick ejects what was asked for, forgets discs that are gone, looks for one
//! new disc, mounts it and publishes the state.

use vstd::prelude::*;

use crate::idle;
use crate::idle::EjectRequest;
use crate::rawudf::device;
use crate::text;
use crate::watch;
use crate::watch::{
    copy_served, served_sources, served_views, Served, ServedView, ViewFacts,
};

verus! {

#[derive(Clone, Copy, Debug, PartialEq, Eq, Structural)]
pub enum Stage {
    /// Between two ticks.
    Rest,
    /// The first disc of the queue is being released.
    Release,
    /// The first disc of the queue is being ejected.
    Eject,
    Survey,
    Poll,
    Mount,
    Publish,
}

/// What happened.
pub enum Event {
    /// A tick, with a request to eject that was left.
    Tick(Option<EjectRequest>),
    Released(bool),
    Ejected,
    /// What is known of each disc that is served.
    Surveyed(Vec<ViewFacts>),
    /// The device of a new disc.
    Polled(Option<String>),
    Mounted(Option<Served>),
    Published,
}

/// What to do next.
pub enum Action {
    /// Release the disc with this source.
    Release { source: String },
    /// Open the tray of the disc with this source.
    Eject { source: String },
    /// Find out what became of each disc that is served.
    Survey,
    /// Look for a new disc, not on these.
    Poll { skip: Vec<String> },
    /// Mount the disc; only the first one goes to an explicit mount point.
    Mount { device: String, first: bool },
    /// Publish the state.
    Publish { serving: bool },
    /// Wait for the next tick.
    Rest,
    /// That was not what was waited for.
    OutOfTurn,
}

pub enum ActionView {
    Release { source: Seq<char> },
    Eject { source: Seq<char> },
    Survey,
    Poll { skip: Seq<Seq<char>> },
    Mount { device: Seq<char>, first: bool },
    Publish { serving: bool },
    Rest,
    OutOfTurn,
}

impl View for Action {
    type V = ActionView;

    open spec fn view(&self) -> ActionView {
        match *self {
            Action::Release { source } => ActionView::Release { source: source@ },
            Action::Eject { source } => ActionView::Eject { source: source@ },
            Action::Survey => ActionView::Survey,
            Action::Poll { skip } => ActionView::Poll { skip: text::strs(skip@) },
            Action::Mount { device, first } => ActionView::Mount { device: device@, first },
            Action::Publish { serving } => ActionView::Publish { serving },
            Action::Rest => ActionView::Rest,
            Action::OutOfTurn => ActionView::OutOfTurn,
        }
    }
}

/// The discs that are served, and those that are to be ejected.
pub struct Serving {
    live: Vec<Served>,
    queue: Vec<String>,
    stage: Stage,
}

#[verifier::ext_equal]
pub struct ServingView {
    pub live: Seq<ServedView>,
    pub queue: Seq<Seq<char>>,
    pub stage: Stage,
}

impl View for Serving {
    type V = ServingView;

    closed spec fn view(&self) -> ServingView {
        ServingView {
            live: served_views(self.live@),
            queue: text::strs(self.queue@),
            stage: self.stage,
        }
    }
}

/// The request is about the disc.
pub open spec fn is_hit(s: ServedView, req: EjectRequest) -> bool {
    req.all || match req.device {
        Some(d) => device::same_device(s.source, d@),
        None => false,
    }
}

/// The discs that the request is not about.
pub open spec fn missed(live: Seq<ServedView>, req: EjectRequest) -> Seq<ServedView>
    decreases live.len(),
{
    if live.len() == 0 {
        live
    } else {
        let before = missed(live.drop_last(), req);
        if is_hit(live.last(), req) {
            before
        } else {
            before.push(live.last())
        }
    }
}

/// The sources of the discs that the request is about.
pub open spec fn hits(live: Seq<ServedView>, req: EjectRequest) -> Seq<Seq<char>>
    decreases live.len(),
{
    if live.len() == 0 {
        Seq::empty()
    } else {
        let before = hits(live.drop_last(), req);
        if is_hit(live.last(), req) {
            before.push(live.last().source)
        } else {
            before
        }
    }
}

/// Goes on with the queue, or with the survey where it is empty.
pub open spec fn next_in_queue(s: ServingView) -> (ServingView, ActionView) {
    if s.queue.len() > 0 {
        (ServingView { stage: Stage::Release, ..s }, ActionView::Release { source: s.queue[0] })
    } else {
        (ServingView { stage: Stage::Survey, ..s }, ActionView::Survey)
    }
}

/// Publishes what is served.
pub open spec fn publishing(s: ServingView) -> (ServingView, ActionView) {
    (
        ServingView { stage: Stage::Publish, ..s },
        ActionView::Publish { serving: s.live.len() > 0 },
    )
}

/// The course of a tick: what is served and what to do after `event`.
pub open spec fn stepped(s: ServingView, event: Event) -> (ServingView, ActionView) {
    match (s.stage, event) {
        (Stage::Rest, Event::Tick(r)) => match r {
            None => next_in_queue(s),
            Some(req) => next_in_queue(
                ServingView {
                    live: missed(s.live, req),
                    queue: s.queue + hits(s.live, req),
                    ..s
                },
            ),
        },
        (Stage::Release, Event::Released(ok)) => if s.queue.len() == 0 {
            (s, ActionView::OutOfTurn)
        } else if ok {
            (ServingView { stage: Stage::Eject, ..s }, ActionView::Eject { source: s.queue[0] })
        } else {
            next_in_queue(ServingView { queue: s.queue.skip(1), ..s })
        },
        (Stage::Eject, Event::Ejected) => if s.queue.len() == 0 {
            (s, ActionView::OutOfTurn)
        } else {
            next_in_queue(ServingView { queue: s.queue.skip(1), ..s })
        },
        (Stage::Survey, Event::Surveyed(facts)) => {
            let live = watch::remaining(s.live, facts@);
            (
                ServingView { live, stage: Stage::Poll, ..s },
                ActionView::Poll { skip: served_sources(live) },
            )
        },
        (Stage::Poll, Event::Polled(d)) => match d {
            Some(device) => (
                ServingView { stage: Stage::Mount, ..s },
                ActionView::Mount { device: device@, first: s.live.len() == 0 },
            ),
            None => publishing(s),
        },
        (Stage::Mount, Event::Mounted(m)) => match m {
            Some(d) => publishing(ServingView { live: s.live.push(d@), ..s }),
            None => publishing(s),
        },
        (Stage::Publish, Event::Published) => (
            ServingView { stage: Stage::Rest, ..s },
            ActionView::Rest,
        ),
        _ => (s, ActionView::OutOfTurn),
    }
}

fn sources(live: &Vec<Served>) -> (r: Vec<String>)
    ensures
        text::strs(r@) == served_sources(served_views(live@)),
{
    let ghost all = served_sources(served_views(live@));
    let mut out: Vec<String> = Vec::new();
    let mut i: usize = 0;
    while i < live.len()
        invariant
            i <= live@.len(),
            all == served_sources(served_views(live@)),
            out@.len() == i,
            forall|j: int| 0 <= j < i ==> (#[trigger] out@[j])@ == all[j],
        decreases live@.len() - i,
    {
        out.push(text::owned(live[i].source.as_str()));
        i += 1;
    }
    assert(text::strs(out@) =~= all);
    out
}

impl Serving {
    /// Nothing is served.
    pub fn new() -> (r: Serving)
        ensures
            r@ == (ServingView { live: Seq::empty(), queue: Seq::empty(), stage: Stage::Rest }),
    {
        let r = Serving { live: Vec::new(), queue: Vec::new(), stage: Stage::Rest };
        assert(r@.live =~= Seq::<ServedView>::empty());
        assert(r@.queue =~= Seq::<Seq<char>>::empty());
        r
    }

    fn go_on(&mut self) -> (r: Action)
        ensures
            (final(self)@, r@) == next_in_queue(old(self)@),
    {
        if self.queue.len() > 0 {
            self.stage = Stage::Release;
            assert(self@.queue[0] == self.queue@[0]@);
            Action::Release { source: text::owned(self.queue[0].as_str()) }
        } else {
            self.stage = Stage::Survey;
            Action::Survey
        }
    }

    fn publish(&mut self) -> (r: Action)
        ensures
            (final(self)@, r@) == publishing(old(self)@),
    {
        self.stage = Stage::Publish;
        Action::Publish { serving: self.live.len() > 0 }
    }

    /// Puts the discs that the request is about into the queue.
    fn ask(&mut self, req: &EjectRequest)
        ensures
            final(self)@ == (ServingView {
                live: missed(old(self)@.live, *req),
                queue: old(self)@.queue + hits(old(self)@.live, *req),
                ..old(self)@
            }),
    {
        broadcast use text::lemma_strs_push;

        let ghost all = served_views(self.live@);
        let ghost start = text::strs(self.queue@);
        let mut kept: Vec<Served> = Vec::new();
        let mut i: usize = 0;
        assert(all.take(0) =~= Seq::<ServedView>::empty());
        assert(served_views(kept@) =~= Seq::<ServedView>::empty());
        assert(start + Seq::<Seq<char>>::empty() =~= start);
        while i < self.live.len()
            invariant
                i <= self.live@.len(),
                all == served_views(self.live@),
                self.stage == old(self).stage,
                served_views(kept@) == missed(all.take(i as int), *req),
                text::strs(self.queue@) == start + hits(all.take(i as int), *req),
            decreases self.live@.len() - i,
        {
            assert(all.take(i + 1).drop_last() =~= all.take(i as int));
            assert(all.take(i + 1).last() == self.live@[i as int]@);
            let hit = req.all || match &req.device {
                Some(d) => device::devices_match(self.live[i].source.as_str(), d.as_str()),
                None => false,
            };
            if hit {
                let ghost before = text::strs(self.queue@);
                let ghost found = hits(all.take(i as int), *req);
                let s = text::owned(self.live[i].source.as_str());
                self.queue.push(s);
                assert(text::strs(self.queue@) == before.push(s@));
                assert((start + found).push(s@) =~= start + found.push(s@));
            } else {
                let ghost before = served_views(kept@);
                let one = copy_served(&self.live[i]);
                kept.push(one);
                assert(served_views(kept@) =~= before.push(one@));
            }
            i += 1;
        }
        assert(all.take(i as int) =~= all);
        self.live = kept;
    }

    /// Forgets the discs that are gone.
    fn survey(&mut self, facts: &[ViewFacts])
        ensures
            final(self)@ == (ServingView {
                live: watch::remaining(old(self)@.live, facts@),
                ..old(self)@
            }),
    {
        let ghost all = served_views(self.live@);
        let mut kept: Vec<Served> = Vec::new();
        let mut i: usize = 0;
        assert(all.take(0) =~= Seq::<ServedView>::empty());
        assert(served_views(kept@) =~= Seq::<ServedView>::empty());
        while i < self.live.len()
            invariant
                i <= self.live@.len(),
                all == served_views(self.live@),
                self.stage == old(self).stage,
                self.queue == old(self).queue,
                served_views(kept@) == watch::remaining(all.take(i as int), facts@),
            decreases self.live@.len() - i,
        {
            assert(all.take(i + 1).drop_last() =~= all.take(i as int));
            assert(all.take(i + 1).last() == self.live@[i as int]@);
            let there = i >= facts.len() || (facts[i].active && facts[i].present);
            if there {
                let ghost before = served_views(kept@);
                let one = copy_served(&self.live[i]);
                kept.push(one);
                assert(served_views(kept@) =~= before.push(one@));
            }
            i += 1;
        }
        assert(all.take(i as int) =~= all);
        self.live = kept;
    }

    fn drop_first(&mut self)
        requires
            old(self)@.queue.len() > 0,
        ensures
            final(self)@ == (ServingView { queue: old(self)@.queue.skip(1), ..old(self)@ }),
    {
        let ghost before = text::strs(self.queue@);
        self.queue.remove(0);
        assert(text::strs(self.queue@) =~= before.skip(1));
    }

    /// Takes in what happened, and says what to do next.
    pub fn step(&mut self, event: Event) -> (r: Action)
        ensures
            (final(self)@, r@) == stepped(old(self)@, event),
    {
        match (self.stage, event) {
            (Stage::Rest, Event::Tick(req)) => {
                if let Some(q) = &req {
                    self.ask(q);
                }
                self.go_on()
            },
            (Stage::Release, Event::Released(ok)) => if self.queue.len() == 0 {
                Action::OutOfTurn
            } else if ok {
                self.stage = Stage::Eject;
                assert(self@.queue[0] == self.queue@[0]@);
                Action::Eject { source: text::owned(self.queue[0].as_str()) }
            } else {
                self.drop_first();
                self.go_on()
            },
            (Stage::Eject, Event::Ejected) => if self.queue.len() == 0 {
                Action::OutOfTurn
            } else {
                self.drop_first();
                self.go_on()
            },
            (Stage::Survey, Event::Surveyed(facts)) => {
                self.survey(facts.as_slice());
                self.stage = Stage::Poll;
                Action::Poll { skip: sources(&self.live) }
            },
            (Stage::Poll, Event::Polled(d)) => match d {
                Some(device) => {
                    self.stage = Stage::Mount;
                    Action::Mount { device, first: self.live.len() == 0 }
                },
                None => self.publish(),
            },
            (Stage::Mount, Event::Mounted(m)) => match m {
                Some(d) => {
                    let ghost before = served_views(self.live@);
                    self.live.push(d);
                    assert(served_views(self.live@) =~= before.push(d@));
                    self.publish()
                },
                None => self.publish(),
            },
            (Stage::Publish, Event::Published) => {
                self.stage = Stage::Rest;
                Action::Rest
            },
            _ => Action::OutOfTurn,
        }
    }
}

// ───────────────────────── laws ─────────────────────────

/// A disc is ejected only after it was released.
pub proof fn lemma_released_before_ejected(s: ServingView, event: Event)
    requires
        stepped(s, event).1 is Eject,
    ensures
        s.stage == Stage::Release,
        event == Event::Released(true),
        stepped(s, event).1->Eject_source == s.queue[0],
{
}

/// A device whose disc is served is not mounted again: no search finds it.
pub proof fn lemma_served_not_found(
    s: ServingView,
    facts: Vec<ViewFacts>,
    devices: Seq<Seq<char>>,
    answers: Seq<bool>,
    only: Seq<Seq<char>>,
    i: int,
)
    requires
        s.stage == Stage::Survey,
        0 <= i < stepped(s, Event::Surveyed(facts)).0.live.len(),
    ensures
        ({
            let next = stepped(s, Event::Surveyed(facts));
            let skip = next.1->Poll_skip;
            match device::pass(
                device::asked(devices, skip, only),
                answers,
                device::SearchView::Nothing,
            ) {
                device::SearchView::Found(p) => !device::same_device(p, next.0.live[i].source),
                _ => true,
            }
        }),
{
    let next = stepped(s, Event::Surveyed(facts));
    let skip = next.1->Poll_skip;
    device::lemma_poll_found(devices, answers, skip, only);
    assert(skip[i] == next.0.live[i].source);
}

/// Only the first disc goes to an explicit mount point.
pub proof fn lemma_explicit_for_first(s: ServingView, event: Event)
    requires
        stepped(s, event).1 is Mount,
    ensures
        stepped(s, event).1->Mount_first == (s.live.len() == 0),
{
}

/// A request to eject is about some discs and leaves the others: every disc is
/// either still served or in the queue.
pub proof fn lemma_request_leaves_others(live: Seq<ServedView>, req: EjectRequest)
    ensures
        missed(live, req).len() + hits(live, req).len() == live.len(),
        forall|i: int| 0 <= i < missed(live, req).len() ==> !is_hit(
            #[trigger] missed(live, req)[i],
            req,
        ),
        req.all ==> missed(live, req).len() == 0,
    decreases live.len(),
{
    if live.len() > 0 {
        let d = live.drop_last();
        lemma_request_leaves_others(d, req);
        let before = missed(d, req);
        let all = missed(live, req);
        assert forall|i: int| 0 <= i < all.len() implies !is_hit(#[trigger] all[i], req) by {
            if i < before.len() {
                assert(all[i] == before[i]);
            }
        }
    }
}

} // verus!
