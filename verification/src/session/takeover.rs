//! Taking over a Blu-ray that the system has mounted already.
//!
//! The volume is unmounted politely, never with force, and only when no program
//! is using it in earnest. Then its device is claimed and opened raw.

use vstd::prelude::*;

use crate::da;
use crate::idle;
use crate::idle::{holder_views, Holder, HolderView};
use crate::number;
use crate::text;

verus! {

broadcast use vstd::string::group_string_axioms;

/// The volume is one to be taken: no device was named, or its own was.
pub open spec fn is_wanted(raw: Option<Seq<char>>, only: Seq<Seq<char>>) -> bool {
    only.len() == 0 || match raw {
        Some(r) => super::any_names(only, r),
        None => false,
    }
}

/// The paths whose holders matter.
pub open spec fn held_paths(volume: Seq<char>, raw: Option<Seq<char>>) -> Seq<Seq<char>> {
    seq![volume] + match raw {
        Some(r) => idle::busy_paths(volume, Some(r)),
        None => Seq::empty(),
    }
}

/// The holders that forbid a take-over.
pub open spec fn hard_ones(v: Seq<HolderView>) -> Seq<HolderView>
    decreases v.len(),
{
    if v.len() == 0 {
        v
    } else {
        let before = hard_ones(v.drop_last());
        if idle::hard_holder(v.last()) {
            before.push(v.last())
        } else {
            before
        }
    }
}

/// A holder as it is named to the user.
pub open spec fn named(h: HolderView) -> Seq<char> {
    h.name + " (pid "@ + number::decimal(h.pid as nat) + ")"@
}

/// Holders as they are named to the user.
pub open spec fn named_list(v: Seq<HolderView>) -> Seq<char> {
    text::joined_with(v.map_values(|h: HolderView| named(h)), ", "@)
}

#[derive(Clone, Copy, Debug, PartialEq, Eq, Structural)]
pub enum Stage {
    Holders,
    Unmount,
    Gone,
    Claim,
    Open,
    Over,
}

/// How the last action went.
pub enum Event {
    /// The processes with an open file on one of the paths.
    Holders(Vec<Holder>),
    Unmounted(bool),
    /// Whether the volume is still mounted, and whether the time is up.
    Seen { mounted: bool, expired: bool },
    Claimed,
    /// The raw device with a readable index, if there is one.
    Opened(Option<String>),
}

/// Why a volume could not be taken over.
pub enum TakeError {
    /// It is in use, by these.
    InUse(String),
    NotUnmounted,
    /// The unmount did not finish.
    NotGone,
    /// Its device is not known.
    NoDevice,
    NotOpened,
    /// The answer is not one to what was asked.
    OutOfTurn,
}

pub enum TakeErrorView {
    InUse(Seq<char>),
    NotUnmounted,
    NotGone,
    NoDevice,
    NotOpened,
    OutOfTurn,
}

/// What to do next.
pub enum Action {
    /// Find the processes with an open file on one of these.
    FindHolders { paths: Vec<String> },
    /// Unmount the volume without force.
    Unmount,
    /// See whether the volume is gone.
    See,
    Claim { bsd: String },
    Open { bsd: String },
    Done { device: String },
    Fail(TakeError),
}

pub enum ActionView {
    FindHolders { paths: Seq<Seq<char>> },
    Unmount,
    See,
    Claim { bsd: Seq<char> },
    Open { bsd: Seq<char> },
    Done { device: Seq<char> },
    Fail(TakeErrorView),
}

impl View for Action {
    type V = ActionView;

    open spec fn view(&self) -> ActionView {
        match *self {
            Action::FindHolders { paths } => ActionView::FindHolders { paths: text::strs(paths@) },
            Action::Unmount => ActionView::Unmount,
            Action::See => ActionView::See,
            Action::Claim { bsd } => ActionView::Claim { bsd: bsd@ },
            Action::Open { bsd } => ActionView::Open { bsd: bsd@ },
            Action::Done { device } => ActionView::Done { device: device@ },
            Action::Fail(e) => ActionView::Fail(
                match e {
                    TakeError::InUse(s) => TakeErrorView::InUse(s@),
                    TakeError::NotUnmounted => TakeErrorView::NotUnmounted,
                    TakeError::NotGone => TakeErrorView::NotGone,
                    TakeError::NoDevice => TakeErrorView::NoDevice,
                    TakeError::NotOpened => TakeErrorView::NotOpened,
                    TakeError::OutOfTurn => TakeErrorView::OutOfTurn,
                },
            ),
        }
    }
}

/// A take-over under way.
pub struct TakeOver {
    raw: Option<String>,
    stage: Stage,
}

#[verifier::ext_equal]
pub struct TakeView {
    pub raw: Option<Seq<char>>,
    pub stage: Stage,
}

impl View for TakeOver {
    type V = TakeView;

    closed spec fn view(&self) -> TakeView {
        TakeView { raw: idle::opt_string(self.raw), stage: self.stage }
    }
}

pub open spec fn failed(t: TakeView, e: TakeErrorView) -> (TakeView, ActionView) {
    (TakeView { stage: Stage::Over, ..t }, ActionView::Fail(e))
}

/// The course of a take-over: what it is and needs after `event`.
pub open spec fn stepped(t: TakeView, event: Event) -> (TakeView, ActionView) {
    match (t.stage, event) {
        (Stage::Holders, Event::Holders(v)) => {
            let hard = hard_ones(holder_views(v@));
            if hard.len() > 0 {
                failed(t, TakeErrorView::InUse(named_list(hard)))
            } else {
                (TakeView { stage: Stage::Unmount, ..t }, ActionView::Unmount)
            }
        },
        (Stage::Unmount, Event::Unmounted(ok)) => if ok {
            (TakeView { stage: Stage::Gone, ..t }, ActionView::See)
        } else {
            failed(t, TakeErrorView::NotUnmounted)
        },
        (Stage::Gone, Event::Seen { mounted, expired }) => if mounted {
            if expired {
                failed(t, TakeErrorView::NotGone)
            } else {
                (t, ActionView::See)
            }
        } else {
            match t.raw {
                None => failed(t, TakeErrorView::NoDevice),
                Some(r) => (
                    TakeView { stage: Stage::Claim, ..t },
                    ActionView::Claim { bsd: da::bsd_of_raw(r) },
                ),
            }
        },
        (Stage::Claim, Event::Claimed) => match t.raw {
            None => failed(t, TakeErrorView::NoDevice),
            Some(r) => (
                TakeView { stage: Stage::Open, ..t },
                ActionView::Open { bsd: da::bsd_of_raw(r) },
            ),
        },
        (Stage::Open, Event::Opened(d)) => match d {
            None => failed(t, TakeErrorView::NotOpened),
            Some(device) => (
                TakeView { stage: Stage::Over, ..t },
                ActionView::Done { device: device@ },
            ),
        },
        _ => failed(t, TakeErrorView::OutOfTurn),
    }
}

fn list_hard(v: &[Holder]) -> (r: Option<String>)
    ensures
        match r {
            None => hard_ones(holder_views(v@)).len() == 0,
            Some(s) => hard_ones(holder_views(v@)).len() > 0 && s@ == named_list(
                hard_ones(holder_views(v@)),
            ),
        },
{
    broadcast use text::lemma_strs_push;

    let ghost all = holder_views(v@);
    let ghost name = |h: HolderView| named(h);
    let mut out: Vec<String> = Vec::new();
    let mut i: usize = 0;
    assert(all.take(0) =~= Seq::<HolderView>::empty());
    assert(text::strs(out@) =~= hard_ones(all.take(0)).map_values(name));
    while i < v.len()
        invariant
            i <= v@.len(),
            all == holder_views(v@),
            name == (|h: HolderView| named(h)),
            text::strs(out@) == hard_ones(all.take(i as int)).map_values(name),
        decreases v@.len() - i,
    {
        assert(all.take(i + 1).drop_last() =~= all.take(i as int));
        assert(all.take(i + 1).last() == v@[i as int]@);
        if idle::is_hard_os_udf_holder(&v[i]) {
            let pid = text::string_of(number::to_decimal(v[i].pid as u64).as_slice());
            let a = text::concat(v[i].name.as_str(), " (pid ");
            let b = text::concat(a.as_str(), pid.as_str());
            let one = text::concat(b.as_str(), ")");
            assert(one@ =~= named(v@[i as int]@));
            let ghost before = text::strs(out@);
            let ghost hard = hard_ones(all.take(i as int));
            out.push(one);
            assert(text::strs(out@) == before.push(one@));
            assert(hard.push(v@[i as int]@).map_values(name) =~= hard.map_values(name).push(one@));
        }
        i += 1;
    }
    assert(all.take(i as int) =~= all);
    assert(text::strs(out@).len() == hard_ones(all).len());
    if out.len() == 0 {
        None
    } else {
        Some(text::join_strings(out.as_slice(), ", "))
    }
}

impl TakeOver {
    /// Begins the take-over of a volume, if it is one to be taken.
    pub fn take_over_os_bd_if_needed(volume: &str, raw: Option<&str>, only: &[String]) -> (r: Option<
        (TakeOver, Action),
    >)
        ensures
            match r {
                None => !is_wanted(idle::opt_view(raw), text::strs(only@)),
                Some((t, a)) => {
                    &&& is_wanted(idle::opt_view(raw), text::strs(only@))
                    &&& t@ == (TakeView { raw: idle::opt_view(raw), stage: Stage::Holders })
                    &&& a@ == (ActionView::FindHolders {
                        paths: held_paths(volume@, idle::opt_view(raw)),
                    })
                },
            },
    {
        if only.len() > 0 {
            match raw {
                None => {
                    return None;
                },
                Some(r) => {
                    if !super::names_any(only, r) {
                        return None;
                    }
                },
            }
        }
        let mut paths: Vec<String> = Vec::new();
        paths.push(text::owned(volume));
        let own = match raw {
            Some(r) => {
                let mut more = idle::optical_paths(volume, Some(r));
                let ghost a = paths@;
                let ghost b = more@;
                paths.append(&mut more);
                assert(text::strs(paths@) =~= text::strs(a) + text::strs(b));
                Some(text::owned(r))
            },
            None => None,
        };
        assert(text::strs(paths@) =~= held_paths(volume@, idle::opt_view(raw)));
        let t = TakeOver { raw: own, stage: Stage::Holders };
        Some((t, Action::FindHolders { paths }))
    }

    fn fail(&mut self, e: TakeError) -> (r: Action)
        ensures
            final(self)@ == (TakeView { stage: Stage::Over, ..old(self)@ }),
            r == Action::Fail(e),
    {
        self.stage = Stage::Over;
        Action::Fail(e)
    }

    /// Takes in how the last action went, and says what to do next.
    pub fn step(&mut self, event: Event) -> (r: Action)
        ensures
            (final(self)@, r@) == stepped(old(self)@, event),
    {
        match (self.stage, event) {
            (Stage::Holders, Event::Holders(v)) => match list_hard(v.as_slice()) {
                Some(s) => self.fail(TakeError::InUse(s)),
                None => {
                    self.stage = Stage::Unmount;
                    Action::Unmount
                },
            },
            (Stage::Unmount, Event::Unmounted(ok)) => if ok {
                self.stage = Stage::Gone;
                Action::See
            } else {
                self.fail(TakeError::NotUnmounted)
            },
            (Stage::Gone, Event::Seen { mounted, expired }) => if mounted {
                if expired {
                    self.fail(TakeError::NotGone)
                } else {
                    Action::See
                }
            } else {
                let bsd = match &self.raw {
                    None => None,
                    Some(r) => Some(da::bsd_for_raw(r.as_str())),
                };
                match bsd {
                    None => self.fail(TakeError::NoDevice),
                    Some(bsd) => {
                        self.stage = Stage::Claim;
                        Action::Claim { bsd }
                    },
                }
            },
            (Stage::Claim, Event::Claimed) => {
                let bsd = match &self.raw {
                    None => None,
                    Some(r) => Some(da::bsd_for_raw(r.as_str())),
                };
                match bsd {
                    None => self.fail(TakeError::NoDevice),
                    Some(bsd) => {
                        self.stage = Stage::Open;
                        Action::Open { bsd }
                    },
                }
            },
            (Stage::Open, Event::Opened(d)) => match d {
                None => self.fail(TakeError::NotOpened),
                Some(device) => {
                    self.stage = Stage::Over;
                    Action::Done { device }
                },
            },
            _ => self.fail(TakeError::OutOfTurn),
        }
    }
}

// ───────────────────────── laws ─────────────────────────

proof fn lemma_hard_ones(v: Seq<HolderView>, i: int)
    requires
        0 <= i < v.len(),
        idle::hard_holder(v[i]),
    ensures
        hard_ones(v).len() > 0,
    decreases v.len(),
{
    if i < v.len() - 1 {
        lemma_hard_ones(v.drop_last(), i);
    }
}

/// A volume that a scan or a player is using is not unmounted.
pub proof fn lemma_in_use_not_unmounted(t: TakeView, v: Vec<Holder>, i: int)
    requires
        t.stage == Stage::Holders,
        0 <= i < v@.len(),
        idle::hard_holder(v@[i]@),
    ensures
        stepped(t, Event::Holders(v)).1 is Fail,
        stepped(t, Event::Holders(v)).1->Fail_0 is InUse,
{
    assert(holder_views(v@)[i] == v@[i]@);
    lemma_hard_ones(holder_views(v@), i);
}

/// A device is claimed only once its volume is gone, and opened only once it is
/// claimed.
pub proof fn lemma_claimed_when_gone(t: TakeView, event: Event)
    ensures
        stepped(t, event).1 is Claim ==> t.stage == Stage::Gone && event matches Event::Seen {
            mounted: false,
            ..
        },
        stepped(t, event).1 is Open ==> t.stage == Stage::Claim && event == Event::Claimed,
{
}

} // verus!
