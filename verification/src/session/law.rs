//! What the commands do, in terms of what they were asked.

use vstd::prelude::*;

use super::report::{drive_block, holder_block, status_line, status_text, volume_line};
use super::serve::{hits, missed, ActionView, Event, ServingView, Stage};
use super::takeover;
use super::{
    by_name, clean_and_bad, first_protected, is_clean, picked, probe_bytes, shared_label,
    still_serves, streams_upto,
};
use crate::disc::{BdVolumeView, NodeView};
use crate::idle;
use crate::idle::{DriveStatusView, EjectRequest, HolderView, SnapshotView};
use crate::order;
use crate::rawudf::device;
use crate::rawudf::log::clip;
use crate::text;
use crate::watch::{ServedView, ViewFacts};

verus! {

broadcast use vstd::string::group_string_axioms;

// ───────────────────────── which disc ─────────────────────────

proof fn lemma_first_protected(vols: Seq<BdVolumeView>)
    ensures
        match first_protected(vols) {
            Some(p) => exists|k: int|
                0 <= k < vols.len() && (#[trigger] vols[k]).path == p && vols[k].protected && forall|
                    j: int,
                |
                    0 <= j < k ==> !(#[trigger] vols[j]).protected,
            None => forall|j: int| 0 <= j < vols.len() ==> !(#[trigger] vols[j]).protected,
        },
    decreases vols.len(),
{
    if vols.len() > 0 {
        if vols[0].protected {
            assert(vols[0].path == first_protected(vols)->0);
        } else {
            let r = vols.skip(1);
            lemma_first_protected(r);
            match first_protected(vols) {
                Some(p) => {
                    let k = choose|k: int|
                        0 <= k < r.len() && (#[trigger] r[k]).path == p && r[k].protected && forall|
                            j: int,
                        |
                            0 <= j < k ==> !(#[trigger] r[j]).protected;
                    assert(vols[k + 1].path == p);
                    assert forall|j: int| 0 <= j < k + 1 implies !(#[trigger] vols[j]).protected by {
                        if j > 0 {
                            assert(r[j - 1] == vols[j]);
                        }
                    }
                },
                None => {
                    assert forall|j: int| 0 <= j < vols.len() implies !(
                    #[trigger] vols[j]).protected by {
                        if j > 0 {
                            assert(r[j - 1] == vols[j]);
                        }
                    }
                },
            }
        }
    }
}

/// A command is about the volume that was named; else about the first protected
/// one, else about the first. It is about none only where there is none.
pub proof fn lemma_picked(volume: Option<Seq<char>>, vols: Seq<BdVolumeView>, k: int)
    ensures
        volume matches Some(v) ==> picked(volume, vols) == Some(v),
        volume is None && 0 <= k < vols.len() && vols[k].protected && (forall|j: int|
            0 <= j < k ==> !(#[trigger] vols[j]).protected) ==> picked(volume, vols) == Some(
            vols[k].path,
        ),
        volume is None && vols.len() > 0 && (forall|j: int|
            0 <= j < vols.len() ==> !(#[trigger] vols[j]).protected) ==> picked(volume, vols)
            == Some(vols[0].path),
        volume is None && vols.len() == 0 ==> picked(volume, vols) is None,
{
    lemma_first_protected(vols);
    if volume is None && 0 <= k < vols.len() && vols[k].protected && (forall|j: int|
        0 <= j < k ==> !(#[trigger] vols[j]).protected) {
        match first_protected(vols) {
            Some(p) => {
                let i = choose|i: int|
                    0 <= i < vols.len() && (#[trigger] vols[i]).path == p && vols[i].protected
                        && forall|j: int| 0 <= j < i ==> !(#[trigger] vols[j]).protected;
                if i < k {
                    assert(!vols[i].protected);
                }
                if k < i {
                    assert(!vols[k].protected);
                }
            },
            None => {
                assert(!vols[k].protected);
            },
        }
    }
}

// ───────────────────────── probing ─────────────────────────

/// So many units of a stream are tried as were asked for, eight at most where all
/// streams are, and no more than the stream has.
pub proof fn lemma_probe_bytes(units: u64, all_streams: bool, size: u64)
    ensures
        !all_streams ==> probe_bytes(units, all_streams, size) == vstd::math::min(
            units * 6144,
            size as int,
        ),
        all_streams ==> probe_bytes(units, all_streams, size) == vstd::math::min(
            vstd::math::min(units as int, 8) * 6144,
            size as int,
        ),
{
}

/// The stretch of the data is a whole unit, every packet of which starts with a
/// sync byte, and whose first byte does not mark it as encrypted.
pub open spec fn decrypted_unit(data: Seq<u8>, at: int) -> bool {
    &&& at + 6144 <= data.len()
    &&& forall|i: int| 0 <= i < 32 ==> data[at + 192 * i + 4] == #[trigger] sync_of(i)
    &&& data[at] < 0x40
}

/// The sync byte of each packet.
pub open spec fn sync_of(i: int) -> u8 {
    0x47
}

proof fn lemma_clean(data: Seq<u8>, at: int)
    requires
        0 <= at < data.len(),
    ensures
        is_clean(clip(data, at, at + 6144)) <==> decrypted_unit(data, at),
{
    let u = clip(data, at, at + 6144);
    if at + 6144 <= data.len() {
        assert(forall|k: int| 0 <= k < 6144 ==> #[trigger] u[k] == data[at + k]);
        if is_clean(u) {
            assert forall|i: int| 0 <= i < 32 implies data[at + 192 * i + 4] == #[trigger] sync_of(
                i,
            ) by {
                assert(u[(i * 192) + 4] == 0x47);
                assert(u[(i * 192) + 4] == data[at + (i * 192 + 4)]);
            }
        }
        if decrypted_unit(data, at) {
            assert forall|i: int| 0 <= i < 32 implies u[#[trigger] (i * 192) + 4] == 0x47 by {
                assert(data[at + 192 * i + 4] == sync_of(i));
                assert(u[(i * 192) + 4] == data[at + (i * 192 + 4)]);
            }
        }
    }
}

/// How many of the first `k` units are decrypted.
pub open spec fn decrypted_upto(data: Seq<u8>, k: int) -> int
    decreases k,
{
    if k <= 0 {
        0
    } else {
        decrypted_upto(data, k - 1) + if decrypted_unit(data, (k - 1) * 6144) {
            1int
        } else {
            0int
        }
    }
}

proof fn lemma_counted_from(data: Seq<u8>, k: int)
    requires
        0 <= k,
        (k - 1) * 6144 < data.len(),
    ensures
        clean_and_bad(data, 0).0 == decrypted_upto(data, k) + clean_and_bad(data, k * 6144).0,
    decreases k,
{
    if k > 0 {
        assert((k - 2) * 6144 < data.len());
        lemma_counted_from(data, k - 1);
        lemma_clean(data, (k - 1) * 6144);
        assert((k - 1) * 6144 + 6144 == k * 6144);
    }
}

/// The units that count as clean are those that are decrypted, and a short one at
/// the end is not; all others count as bad.
pub proof fn lemma_counted(data: Seq<u8>)
    ensures
        clean_and_bad(data, 0).0 == decrypted_upto(data, (data.len() as int + 6143) / 6144),
        clean_and_bad(data, 0).1 == (data.len() as int + 6143) / 6144 - decrypted_upto(
            data,
            (data.len() as int + 6143) / 6144,
        ),
{
    let n = (data.len() as int + 6143) / 6144;
    lemma_counted_from(data, n);
    super::lemma_every_unit_counted(data);
    assert(n * 6144 >= data.len());
}

/// All encrypted streams are tried, and nothing else, by name.
pub proof fn lemma_streams(nodes: Seq<NodeView>, k: int, i: int)
    requires
        0 <= k <= nodes.len(),
    ensures
        streams_upto(nodes, k).contains(i) <==> 0 <= i < k && nodes[i].kind is Encrypted,
        order::in_order(order::sorted(streams_upto(nodes, k), by_name(nodes)), by_name(nodes)),
        order::sorted(streams_upto(nodes, k), by_name(nodes)).to_multiset() == streams_upto(
            nodes,
            k,
        ).to_multiset(),
    decreases k,
{
    let rank = by_name(nodes);
    let by_bytes = |a: Seq<u8>, b: Seq<u8>| order::bytes_rank(a, b);
    order::lemma_bytes_ordered();
    assert(order::is_order(by_bytes));
    assert forall|x: int, y: int|
        (#[trigger] rank(x, y) == order::Rank::After) == (rank(y, x) == order::Rank::Before) by {
        assert(by_bytes(nodes[x].name, nodes[y].name) == rank(x, y));
        assert(by_bytes(nodes[y].name, nodes[x].name) == rank(y, x));
    }
    assert forall|x: int, y: int, z: int|
        #[trigger] rank(x, y) != order::Rank::After && #[trigger] rank(y, z)
            != order::Rank::After implies rank(x, z) != order::Rank::After by {
        assert(by_bytes(nodes[x].name, nodes[y].name) == rank(x, y));
        assert(by_bytes(nodes[y].name, nodes[z].name) == rank(y, z));
        assert(by_bytes(nodes[x].name, nodes[z].name) == rank(x, z));
    }
    order::lemma_sorted_in_order(streams_upto(nodes, k), rank);
    order::lemma_sorted_keeps(streams_upto(nodes, k), rank);
    if k > 0 {
        let before = streams_upto(nodes, k - 1);
        let n = streams_upto(nodes, k);
        lemma_streams(nodes, k - 1, i);
        if before.contains(i) {
            let p = choose|p: int| 0 <= p < before.len() && before[p] == i;
            assert(n[p] == i);
        }
        if n.contains(i) && !before.contains(i) {
            let p = choose|p: int| 0 <= p < n.len() && n[p] == i;
            if p < before.len() {
                assert(before[p] == i);
            }
        }
        if i == k - 1 && nodes[i].kind is Encrypted {
            assert(n[before.len() as int] == i);
        }
    }
}

// ───────────────────────── a tick ─────────────────────────

/// A request to eject is about every disc that is the same device as the one that
/// was named, or about all; each of them is queued, and the others stay served.
pub proof fn lemma_request(live: Seq<ServedView>, req: EjectRequest, i: int)
    requires
        0 <= i < live.len(),
    ensures
        req.all || (req.device matches Some(d) && device::same_device(live[i].source, d@)) ==> hits(
            live,
            req,
        ).contains(live[i].source),
        !(req.all || (req.device matches Some(d) && device::same_device(live[i].source, d@)))
            ==> missed(live, req).contains(live[i]),
    decreases live.len(),
{
    let d = live.drop_last();
    let last = live.len() - 1;
    let hb = hits(d, req);
    let hn = hits(live, req);
    let mb = missed(d, req);
    let mn = missed(live, req);
    if i < last {
        lemma_request(d, req, i);
        assert(d[i] == live[i]);
        if hb.contains(live[i].source) {
            let k = choose|k: int| 0 <= k < hb.len() && hb[k] == live[i].source;
            assert(hn[k] == live[i].source);
        }
        if mb.contains(live[i]) {
            let k = choose|k: int| 0 <= k < mb.len() && mb[k] == live[i];
            assert(mn[k] == live[i]);
        }
    } else {
        if hn.len() > hb.len() {
            assert(hn[hb.len() as int] == live[i].source);
        }
        if mn.len() > mb.len() {
            assert(mn[mb.len() as int] == live[i]);
        }
    }
}

/// A disc that was asked for is released first and then ejected, by its source;
/// where it could not be released it is not ejected. The next one follows, and
/// after the last one the tick goes on.
pub proof fn lemma_queue(s: ServingView, ok: bool)
    requires
        s.queue.len() > 0,
        s.stage == Stage::Release,
    ensures
        ({
            let (s1, a1) = super::serve::stepped(s, Event::Released(true));
            let (s2, a2) = super::serve::stepped(s1, Event::Ejected);
            let (s3, a3) = super::serve::stepped(s, Event::Released(false));
            let next = if s.queue.len() > 1 {
                ActionView::Release { source: s.queue[1] }
            } else {
                ActionView::Survey
            };
            &&& a1 == (ActionView::Eject { source: s.queue[0] })
            &&& a2 == next && a3 == next
            &&& s2.queue == s.queue.skip(1) && s3.queue == s.queue.skip(1)
            &&& s2.live == s.live && s3.live == s.live
        }),
{
}

/// A tick without a request, once nothing is queued: the discs are surveyed, those
/// that are gone are dropped, a new disc is looked for but not on those that are
/// still served, it is mounted and added, and the state is published.
pub proof fn lemma_tick(s: ServingView, facts: Vec<ViewFacts>, d: String, m: crate::watch::Served)
    requires
        s.stage == Stage::Rest,
        s.queue.len() == 0,
    ensures
        ({
            let (s1, a1) = super::serve::stepped(s, Event::Tick(None));
            let (s2, a2) = super::serve::stepped(s1, Event::Surveyed(facts));
            let (s3, a3) = super::serve::stepped(s2, Event::Polled(Some(d)));
            let (s4, a4) = super::serve::stepped(s3, Event::Mounted(Some(m)));
            let (s5, a5) = super::serve::stepped(s4, Event::Published);
            let (s6, a6) = super::serve::stepped(s2, Event::Polled(None));
            let (s7, a7) = super::serve::stepped(s3, Event::Mounted(None));
            &&& a1 == ActionView::Survey
            &&& a2 is Poll && a2->Poll_skip.len() == s2.live.len()
            &&& forall|i: int|
                0 <= i < s2.live.len() ==> #[trigger] a2->Poll_skip[i] == s2.live[i].source
            &&& a3 == (ActionView::Mount { device: d@, first: s2.live.len() == 0 })
            &&& s4.live == s2.live.push(m@) && a4 == (ActionView::Publish { serving: true })
            &&& a5 == ActionView::Rest && s5.stage == Stage::Rest && s5.live == s4.live
            &&& a6 == (ActionView::Publish { serving: s2.live.len() > 0 }) && s6.live == s2.live
            &&& a7 == (ActionView::Publish { serving: s2.live.len() > 0 }) && s7.live == s2.live
        }),
{
}

/// A request to eject was not met while a drive that it was about serves.
pub proof fn lemma_still_serves(d: DriveStatusView, dev: Option<Seq<char>>)
    ensures
        still_serves(d, dev) <==> d.state == "serving"@ && (dev matches Some(x)
            ==> device::same_device(d.device, x)),
{
}

/// Several discs are counted; one is called by its own label.
pub proof fn lemma_shared_label(n: nat, label: Option<Seq<char>>)
    ensures
        n <= 1 ==> shared_label(n, label) == label,
        n > 1 ==> shared_label(n, label) == Some(crate::number::decimal(n) + " discs"@),
{
}

// ───────────────────────── taking over ─────────────────────────

/// A volume is taken over if its device was named, in whichever form, or if none
/// was.
pub proof fn lemma_wanted(raw: Option<Seq<char>>, only: Seq<Seq<char>>)
    ensures
        takeover::is_wanted(raw, only) <==> only.len() == 0 || (raw matches Some(r) && exists|
            i: int,
        |
            0 <= i < only.len() && device::same_device(#[trigger] only[i], r)),
{
}

proof fn lemma_hard_ones(v: Seq<HolderView>, h: HolderView)
    ensures
        takeover::hard_ones(v).contains(h) <==> v.contains(h) && idle::hard_holder(h),
    decreases v.len(),
{
    if v.len() > 0 {
        let d = v.drop_last();
        let before = takeover::hard_ones(d);
        let n = takeover::hard_ones(v);
        lemma_hard_ones(d, h);
        assert(v =~= d.push(v.last()));
        if d.contains(h) {
            let i = choose|i: int| 0 <= i < d.len() && d[i] == h;
            assert(v[i] == h);
        }
        if before.contains(h) {
            let i = choose|i: int| 0 <= i < before.len() && before[i] == h;
            assert(n[i] == h);
        }
        if n.contains(h) && !before.contains(h) {
            let i = choose|i: int| 0 <= i < n.len() && n[i] == h;
            if i < before.len() {
                assert(before[i] == h);
            }
            assert(v[v.len() - 1] == h);
        }
        if v.contains(h) && !d.contains(h) {
            let i = choose|i: int| 0 <= i < v.len() && v[i] == h;
            if i < d.len() {
                assert(d[i] == h);
            }
            if idle::hard_holder(h) {
                assert(n[before.len() as int] == h);
            }
        }
    }
}

/// A take-over unmounts the volume unless a scan or a player uses it, waits until
/// it is gone, claims its disk and opens it.
pub proof fn lemma_take_over(t: takeover::TakeView, v: Vec<idle::Holder>, d: String)
    requires
        t.stage == takeover::Stage::Holders,
        t.raw is Some,
    ensures
        ({
            let r = t.raw->0;
            let used = exists|i: int|
                0 <= i < v@.len() && idle::hard_holder(#[trigger] idle::holder_views(v@)[i]);
            let (t1, a1) = takeover::stepped(t, takeover::Event::Holders(v));
            let (t2, a2) = takeover::stepped(t1, takeover::Event::Unmounted(true));
            let (t3, a3) = takeover::stepped(
                t2,
                takeover::Event::Seen { mounted: true, expired: false },
            );
            let (t4, a4) = takeover::stepped(
                t3,
                takeover::Event::Seen { mounted: false, expired: false },
            );
            let (t5, a5) = takeover::stepped(t4, takeover::Event::Claimed);
            let (t6, a6) = takeover::stepped(t5, takeover::Event::Opened(Some(d)));
            &&& used ==> a1 is Fail && a1->Fail_0 is InUse
            &&& !used ==> {
                &&& a1 == takeover::ActionView::Unmount
                &&& a2 == takeover::ActionView::See && a3 == takeover::ActionView::See
                &&& a4 == (takeover::ActionView::Claim { bsd: crate::da::bsd_of_raw(r) })
                &&& a5 == (takeover::ActionView::Open { bsd: crate::da::bsd_of_raw(r) })
                &&& a6 == (takeover::ActionView::Done { device: d@ })
            }
        }),
{
    let all = idle::holder_views(v@);
    let hard = takeover::hard_ones(all);
    if exists|i: int| 0 <= i < v@.len() && idle::hard_holder(#[trigger] all[i]) {
        let i = choose|i: int| 0 <= i < v@.len() && idle::hard_holder(#[trigger] all[i]);
        lemma_hard_ones(all, all[i]);
        assert(all.contains(all[i]));
        let k = choose|k: int| 0 <= k < hard.len() && hard[k] == all[i];
    } else if hard.len() > 0 {
        lemma_hard_ones(all, hard[0]);
        assert(hard.contains(hard[0]));
        let i = choose|i: int| 0 <= i < all.len() && all[i] == hard[0];
        assert(idle::hard_holder(all[i]));
    }
}

/// A take-over fails for what failed.
pub proof fn lemma_take_over_fails(t: takeover::TakeView)
    ensures
        t.stage == takeover::Stage::Unmount ==> takeover::stepped(
            t,
            takeover::Event::Unmounted(false),
        ).1 == takeover::ActionView::Fail(takeover::TakeErrorView::NotUnmounted),
        t.stage == takeover::Stage::Gone ==> takeover::stepped(
            t,
            takeover::Event::Seen { mounted: true, expired: true },
        ).1 == takeover::ActionView::Fail(takeover::TakeErrorView::NotGone),
        t.stage == takeover::Stage::Gone && t.raw is None ==> takeover::stepped(
            t,
            takeover::Event::Seen { mounted: false, expired: false },
        ).1 == takeover::ActionView::Fail(takeover::TakeErrorView::NoDevice),
        t.stage == takeover::Stage::Open ==> takeover::stepped(
            t,
            takeover::Event::Opened(None),
        ).1 == takeover::ActionView::Fail(takeover::TakeErrorView::NotOpened),
{
}

// ───────────────────────── reports ─────────────────────────

/// The status tells the state and whether it is safe to eject, first of all; then
/// the source and the place of the view, each holder, the claims and each drive.
pub proof fn lemma_status_lines(s: SnapshotView)
    ensures
        ({
            let t = status_text(s);
            &&& t.len() >= 3
            &&& t[1] == "safe_to_eject:   "@ + if s.safe_to_eject {
                "true"@
            } else {
                "false"@
            }
            &&& t[0] == "state:           "@ + match s.state {
                idle::State::Idle => "Idle"@,
                idle::State::Opening => "Opening"@,
                idle::State::Serving => "Serving"@,
                idle::State::Releasing => "Releasing"@,
                idle::State::SafeToEject => "SafeToEject"@,
                idle::State::Stuck => "Stuck"@,
            }
            &&& s.source matches Some(src) ==> t[2] == "source:          "@ + src
            &&& (s.source is None && s.mountpoint is Some) ==> t[2] == "mountpoint:      "@
                + s.mountpoint->0
            &&& (s.source is Some && s.mountpoint is Some) ==> t[3] == "mountpoint:      "@
                + s.mountpoint->0
            &&& holder_block(s.holders).len() == s.holders.len() + 1
            &&& s.drives.len() > 0 ==> drive_block(s.drives).is_suffix_of(t) && drive_block(
                s.drives,
            ).len() == s.drives.len() + 1
            &&& forall|i: int|
                0 <= i < s.drives.len() ==> drive_block(s.drives)[i + 1] == status_line(
                    #[trigger] s.drives[i],
                )
        }),
{
    let t = status_text(s);
    let b = drive_block(s.drives);
    if s.drives.len() > 0 {
        assert(t.skip(t.len() - b.len()) =~= b);
    }
}

/// A line about a volume says where it is and whether it is protected.
pub proof fn lemma_volume_line(v: BdVolumeView)
    ensures
        volume_line(v) == "  "@ + text::at_left(v.path, 40) + " "@ + if v.protected {
            "AACS protected"@
        } else {
            "unprotected"@
        },
{
}

/// The holders of a volume that matter are those of the volume itself, of its
/// device and of the device's other node.
pub proof fn lemma_held_paths(volume: Seq<char>, x: Seq<char>)
    ensures
        takeover::held_paths(volume, None) == seq![volume],
        ({
            let raw = "/dev/r"@ + x;
            let p = takeover::held_paths(volume, Some(raw));
            p.contains(volume) && p.contains(raw) && p.contains("/dev/"@ + x)
        }),
{
    idle::law::lemma_other_node(x);
    let raw = "/dev/r"@ + x;
    let p = takeover::held_paths(volume, Some(raw));
    assert(takeover::held_paths(volume, None) =~= seq![volume]);
    assert(p[0] == volume && p[2] == raw && p[3] == "/dev/"@ + x);
}

/// A drive in the list is told by its node, its bus and what is in it.
pub proof fn lemma_list_line(d: crate::drives::DriveView)
    ensures
        super::report::list_line(d) == "  "@ + text::at_left(d.device, 14) + "  "@ + text::at_left(
            d.bus,
            12,
        ) + "  "@ + crate::drives::class_name(d.class, d.media) + if d.bd_capable {
            ""@
        } else {
            "  (no BD drive)"@
        },
{
}

/// A drive in the status is told by its node, its bus, what is in it, what it does
/// and the label of the disc that it serves.
pub proof fn lemma_status_line(d: DriveStatusView)
    ensures
        status_line(d) == "  "@ + text::at_left(d.device, 14) + "  "@ + text::at_left(d.bus, 8)
            + "  "@ + text::at_left(d.media_class, 10) + "  "@ + d.state + match d.label {
            Some(l) => "  "@ + l,
            None => ""@,
        },
{
}

} // verus!
