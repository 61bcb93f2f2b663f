//! What the commands print.

use vstd::prelude::*;

use crate::disc::{BdVolume, BdVolumeView};
use crate::drives;
use crate::drives::{DriveView, OpticalDrive};
use crate::idle;
use crate::idle::{DriveStatus, DriveStatusView, HolderView, Snapshot, SnapshotView, State};
use crate::text;

verus! {

broadcast use {vstd::string::group_string_axioms, text::lemma_strs_push};

pub open spec fn state_name(s: State) -> Seq<char> {
    match s {
        State::Idle => "Idle"@,
        State::Opening => "Opening"@,
        State::Serving => "Serving"@,
        State::Releasing => "Releasing"@,
        State::SafeToEject => "SafeToEject"@,
        State::Stuck => "Stuck"@,
    }
}

fn name_of_state(s: State) -> (r: &'static str)
    ensures
        r@ == state_name(s),
{
    match s {
        State::Idle => "Idle",
        State::Opening => "Opening",
        State::Serving => "Serving",
        State::Releasing => "Releasing",
        State::SafeToEject => "SafeToEject",
        State::Stuck => "Stuck",
    }
}

/// A line about what a drive is doing.
pub open spec fn status_line(d: DriveStatusView) -> Seq<char> {
    "  "@ + text::at_left(d.device, 14) + "  "@ + text::at_left(d.bus, 8) + "  "@ + text::at_left(
        d.media_class,
        10,
    ) + "  "@ + d.state + match d.label {
        Some(l) => "  "@ + l,
        None => ""@,
    }
}

fn column(s: &str, width: usize) -> (r: String)
    ensures
        r@ == text::at_left(s@, width as int),
{
    text::string_of(text::pad_left(text::chars_of(s).as_slice(), width).as_slice())
}

fn drive_line(d: &DriveStatus) -> (r: String)
    ensures
        r@ == status_line(d@),
{
    let a = text::concat("  ", column(d.device.as_str(), 14).as_str());
    let b = text::concat(text::concat(a.as_str(), "  ").as_str(), column(d.bus.as_str(), 8).as_str());
    let c = text::concat(
        text::concat(b.as_str(), "  ").as_str(),
        column(d.media_class.as_str(), 10).as_str(),
    );
    let e = text::concat(text::concat(c.as_str(), "  ").as_str(), d.state.as_str());
    let tail = match &d.label {
        Some(l) => text::concat("  ", l.as_str()),
        None => text::owned(""),
    };
    text::concat(e.as_str(), tail.as_str())
}

pub open spec fn opt_line(head: Seq<char>, s: Option<Seq<char>>) -> Seq<Seq<char>> {
    match s {
        Some(x) => seq![head + x],
        None => Seq::empty(),
    }
}

pub open spec fn holder_block(v: Seq<HolderView>) -> Seq<Seq<char>> {
    if v.len() == 0 {
        seq!["holders:         (none)"@]
    } else {
        seq!["holders:"@] + v.map_values(|h: HolderView| idle::holder_text(h))
    }
}

pub open spec fn claim_block(v: Seq<Seq<char>>) -> Seq<Seq<char>> {
    if v.len() == 0 {
        Seq::empty()
    } else {
        seq!["claimed:         "@ + text::joined_with(v, ", "@)]
    }
}

pub open spec fn drive_block(v: Seq<DriveStatusView>) -> Seq<Seq<char>> {
    if v.len() == 0 {
        Seq::empty()
    } else {
        seq!["drives:"@] + v.map_values(|d: DriveStatusView| status_line(d))
    }
}

/// A snapshot for the user.
pub open spec fn status_text(s: SnapshotView) -> Seq<Seq<char>> {
    seq![
        "state:           "@ + state_name(s.state),
        "safe_to_eject:   "@ + if s.safe_to_eject {
            "true"@
        } else {
            "false"@
        },
    ] + opt_line("source:          "@, s.source) + opt_line("mountpoint:      "@, s.mountpoint)
        + holder_block(s.holders) + claim_block(s.claimed_bsd) + drive_block(s.drives)
}

fn add_opt(out: &mut Vec<String>, head: &str, s: &Option<String>)
    ensures
        text::strs(final(out)@) == text::strs(old(out)@) + opt_line(head@, idle::opt_string(*s)),
{
    let ghost before = text::strs(out@);
    match s {
        Some(x) => {
            let line = text::concat(head, x.as_str());
            out.push(line);
            assert(text::strs(out@) =~= before + seq![head@ + x@]);
        },
        None => {
            assert(before + Seq::<Seq<char>>::empty() =~= before);
        },
    }
}

fn add_holders(out: &mut Vec<String>, v: &Vec<idle::Holder>)
    ensures
        text::strs(final(out)@) == text::strs(old(out)@) + holder_block(idle::holder_views(v@)),
{
    let ghost start = text::strs(out@);
    let ghost hv = idle::holder_views(v@);
    if v.len() == 0 {
        out.push(text::owned("holders:         (none)"));
        assert(text::strs(out@) =~= start + holder_block(hv));
        return;
    }
    let ghost lines = hv.map_values(|h: HolderView| idle::holder_text(h));
    out.push(text::owned("holders:"));
    assert(text::strs(out@) =~= start + (seq!["holders:"@] + lines.take(0)));
    let mut i: usize = 0;
    while i < v.len()
        invariant
            i <= v@.len(),
            hv == idle::holder_views(v@),
            lines == hv.map_values(|h: HolderView| idle::holder_text(h)),
            text::strs(out@) == start + (seq!["holders:"@] + lines.take(i as int)),
        decreases v@.len() - i,
    {
        let ghost before = text::strs(out@);
        let line = idle::holder_line(&v[i]);
        assert(line@ == lines[i as int]);
        out.push(line);
        i += 1;
        assert(text::strs(out@) =~= before.push(line@));
        assert(text::strs(out@) =~= start + (seq!["holders:"@] + lines.take(i as int)));
    }
    assert(lines.take(i as int) =~= lines);
}

fn add_drives(out: &mut Vec<String>, v: &Vec<DriveStatus>)
    ensures
        text::strs(final(out)@) == text::strs(old(out)@) + drive_block(idle::status_views(v@)),
{
    let ghost start = text::strs(out@);
    let ghost dv = idle::status_views(v@);
    if v.len() == 0 {
        assert(start + Seq::<Seq<char>>::empty() =~= start);
        return;
    }
    let ghost lines = dv.map_values(|d: DriveStatusView| status_line(d));
    out.push(text::owned("drives:"));
    assert(text::strs(out@) =~= start + (seq!["drives:"@] + lines.take(0)));
    let mut i: usize = 0;
    while i < v.len()
        invariant
            i <= v@.len(),
            dv == idle::status_views(v@),
            lines == dv.map_values(|d: DriveStatusView| status_line(d)),
            text::strs(out@) == start + (seq!["drives:"@] + lines.take(i as int)),
        decreases v@.len() - i,
    {
        let ghost before = text::strs(out@);
        let line = drive_line(&v[i]);
        assert(line@ == lines[i as int]);
        out.push(line);
        i += 1;
        assert(text::strs(out@) =~= before.push(line@));
        assert(text::strs(out@) =~= start + (seq!["drives:"@] + lines.take(i as int)));
    }
    assert(lines.take(i as int) =~= lines);
}

/// The lines of `bdmount status`.
pub fn status_lines(snap: &Snapshot) -> (r: Vec<String>)
    ensures
        text::strs(r@) == status_text(snap@),
{
    let mut out: Vec<String> = Vec::new();
    out.push(text::concat("state:           ", name_of_state(snap.state)));
    out.push(
        text::concat(
            "safe_to_eject:   ",
            if snap.safe_to_eject {
                "true"
            } else {
                "false"
            },
        ),
    );
    assert(text::strs(out@) =~= seq![
        "state:           "@ + state_name(snap.state),
        "safe_to_eject:   "@ + if snap.safe_to_eject {
            "true"@
        } else {
            "false"@
        },
    ]);
    add_opt(&mut out, "source:          ", &snap.source);
    add_opt(&mut out, "mountpoint:      ", &snap.mountpoint);
    add_holders(&mut out, &snap.holders);
    let ghost before = text::strs(out@);
    if snap.claimed_bsd.len() > 0 {
        let names = text::join_strings(snap.claimed_bsd.as_slice(), ", ");
        out.push(text::concat("claimed:         ", names.as_str()));
    }
    assert(text::strs(out@) =~= before + claim_block(snap@.claimed_bsd));
    add_drives(&mut out, &snap.drives);
    out
}

/// A line about a drive.
pub open spec fn list_line(d: DriveView) -> Seq<char> {
    "  "@ + text::at_left(d.device, 14) + "  "@ + text::at_left(d.bus, 12) + "  "@
        + drives::class_name(d.class, d.media) + if d.bd_capable {
        ""@
    } else {
        "  (no BD drive)"@
    }
}

pub fn drive_list_line(d: &OpticalDrive) -> (r: String)
    ensures
        r@ == list_line(d@),
{
    let a = text::concat("  ", column(d.device.as_str(), 14).as_str());
    let b = text::concat(
        text::concat(a.as_str(), "  ").as_str(),
        column(d.bus.as_str(), 12).as_str(),
    );
    let c = text::concat(
        text::concat(b.as_str(), "  ").as_str(),
        drives::media_class_name(d.class, d.media),
    );
    text::concat(
        c.as_str(),
        if d.bd_capable {
            ""
        } else {
            "  (no BD drive)"
        },
    )
}

/// A line about a Blu-ray that the system has mounted.
pub open spec fn volume_line(v: BdVolumeView) -> Seq<char> {
    "  "@ + text::at_left(v.path, 40) + " "@ + if v.protected {
        "AACS protected"@
    } else {
        "unprotected"@
    }
}

pub fn volume_list_line(v: &BdVolume) -> (r: String)
    ensures
        r@ == volume_line(v@),
{
    let a = text::concat("  ", column(v.path.as_str(), 40).as_str());
    let b = text::concat(a.as_str(), " ");
    text::concat(
        b.as_str(),
        if v.protected {
            "AACS protected"
        } else {
            "unprotected"
        },
    )
}

} // verus!
