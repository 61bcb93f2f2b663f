//! What the list of drives says of each.

use vstd::prelude::*;

use super::{
    bus_name, by_text, class_named, disks_in, drive_of, info_of, is_in, live_in, optical_disks,
    optical_info, status_of, with_disk, with_line, DriveFacts, DriveView, Live,
};
use crate::da::OpticalClass;
use crate::order;
use crate::path;
use crate::plist;
use crate::rawudf::device;
use crate::text;
use crate::text::law::{alike, lemma_case};

verus! {

broadcast use vstd::string::group_string_axioms;

// ───────────────────────── names ─────────────────────────

proof fn lemma_lower_words()
    ensures
        text::lower("serial ata"@) == "serial ata"@,
        text::lower("atapi"@) == "atapi"@,
        text::upper("BD"@) == "BD"@,
        text::upper("BLU"@) == "BLU"@,
        text::upper("DVD"@) == "DVD"@,
        text::upper("CD"@) == "CD"@,
{
    reveal_strlit("serial ata");
    reveal_strlit("atapi");
    reveal_strlit("BD");
    reveal_strlit("BLU");
    reveal_strlit("DVD");
    reveal_strlit("CD");
    assert(text::lower("serial ata"@) =~= "serial ata"@);
    assert(text::lower("atapi"@) =~= "atapi"@);
    assert(text::upper("BD"@) =~= "BD"@);
    assert(text::upper("BLU"@) =~= "BLU"@);
    assert(text::upper("DVD"@) =~= "DVD"@);
    assert(text::upper("CD"@) =~= "CD"@);
}

/// A bus has its name in lower case; two have a shorter one.
pub proof fn lemma_bus(p: Seq<char>)
    ensures
        alike(p, "serial ata"@) ==> bus_name(p) == "sata"@,
        alike(p, "atapi"@) ==> bus_name(p) == "ata"@,
        !alike(p, "serial ata"@) && !alike(p, "atapi"@) ==> alike(bus_name(p), p) && bus_name(p)
            == text::lower(p),
{
    lemma_lower_words();
    lemma_case(p, "serial ata"@);
    lemma_case(p, "atapi"@);
    text::law::lemma_case_of(p);
    reveal_strlit("serial ata");
    reveal_strlit("atapi");
}

/// The text holds the word, in whichever case.
pub open spec fn holds_word(s: Seq<char>, word: Seq<char>) -> bool {
    exists|i: int|
        0 <= i && i + word.len() <= s.len() && alike(#[trigger] s.subrange(i, i + word.len()), word)
}

proof fn lemma_holds(s: Seq<char>, word: Seq<char>)
    requires
        text::upper(word) == word,
    ensures
        text::contains(text::upper(s), word) <==> holds_word(s, word),
{
    let u = text::upper(s);
    let n = word.len() as int;
    if text::contains(u, word) {
        let i = choose|i: int| text::occurs_at(u, word, i);
        let part = s.subrange(i, i + n);
        assert(text::upper(part) =~= u.subrange(i, i + n));
        lemma_case(part, word);
        assert(alike(s.subrange(i, i + word.len()), word));
    }
    if holds_word(s, word) {
        let i = choose|i: int|
            0 <= i && i + word.len() <= s.len() && alike(
                #[trigger] s.subrange(i, i + word.len()),
                word,
            );
        let part = s.subrange(i, i + n);
        lemma_case(part, word);
        assert(text::upper(part) =~= u.subrange(i, i + n));
        assert(text::occurs_at(u, word, i));
    }
}

/// The class of a medium or a drive: Blu-ray if its type says BD or BLU, else DVD
/// or CD if it says that, else none; in whichever case.
pub proof fn lemma_class_named(s: Seq<char>)
    ensures
        class_named(s) == if holds_word(s, "BD"@) || holds_word(s, "BLU"@) {
            Some(OpticalClass::BluRay)
        } else if holds_word(s, "DVD"@) {
            Some(OpticalClass::Dvd)
        } else if holds_word(s, "CD"@) {
            Some(OpticalClass::Cd)
        } else {
            None
        },
{
    lemma_lower_words();
    lemma_holds(s, "BD"@);
    lemma_holds(s, "BLU"@);
    lemma_holds(s, "DVD"@);
    lemma_holds(s, "CD"@);
}

// ───────────────────────── which drives there are ─────────────────────────

/// The line names the disk: behind `/dev/` at its front, or as the last word of an
/// optical medium.
pub open spec fn line_names(line: Seq<char>, w: Seq<char>) -> bool {
    let behind = text::words(line.skip(5), text::Separator::Space);
    let all = text::words(line, text::Separator::Space);
    ||| "/dev/"@.is_prefix_of(line) && behind.len() > 0 && device::whole_disk(behind[0]) == Some(w)
    ||| (text::contains(line, "CD_partition"@) || text::contains(line, "CD_ROM"@) || text::contains(
        line,
        "DVD_"@,
    ) || text::contains(line, "BD_"@) || text::contains(line, "Apple_UDF"@) || text::contains(
        line,
        "CD_partition_scheme"@,
    )) && all.len() > 0 && device::whole_disk(all.last()) == Some(w)
}

proof fn lemma_with_disk(ids: Seq<Seq<char>>, id: Seq<char>, w: Seq<char>)
    ensures
        with_disk(ids, id).contains(w) <==> ids.contains(w) || device::whole_disk(id) == Some(w) && w
            != "disk0"@,
{
    let n = with_disk(ids, id);
    if n.len() > ids.len() {
        assert(n[ids.len() as int] == device::whole_disk(id)->0);
        if ids.contains(w) {
            let i = choose|i: int| 0 <= i < ids.len() && ids[i] == w;
            assert(n[i] == w);
        }
        if n.contains(w) && !ids.contains(w) {
            let i = choose|i: int| 0 <= i < n.len() && n[i] == w;
            if i < ids.len() {
                assert(ids[i] == w);
            }
        }
    }
}

proof fn lemma_with_line(ids: Seq<Seq<char>>, line: Seq<char>, w: Seq<char>)
    ensures
        with_line(ids, line).contains(w) <==> ids.contains(w) || line_names(line, w) && w
            != "disk0"@,
{
    let behind = text::words(line.skip(5), text::Separator::Space);
    let all = text::words(line, text::Separator::Space);
    lemma_with_disk(ids, behind[0], w);
    lemma_with_disk(ids, all.last(), w);
    lemma_with_disk(with_disk(ids, behind[0]), all.last(), w);
}

/// The disks of a listing are those that one of its lines names, but for the
/// system disk.
pub proof fn lemma_disks_listed(lines: Seq<Seq<char>>, w: Seq<char>)
    ensures
        disks_in(lines).contains(w) <==> w != "disk0"@ && exists|i: int|
            0 <= i < lines.len() && line_names(#[trigger] lines[i], w),
    decreases lines.len(),
{
    if lines.len() > 0 {
        let d = lines.drop_last();
        let last = lines.len() - 1;
        lemma_disks_listed(d, w);
        lemma_with_line(disks_in(d), lines.last(), w);
        if disks_in(d).contains(w) {
            let i = choose|i: int| 0 <= i < d.len() && line_names(#[trigger] d[i], w);
            assert(line_names(lines[i], w));
        }
        if line_names(lines.last(), w) {
            assert(line_names(lines[last], w));
        }
        if exists|i: int| 0 <= i < lines.len() && line_names(#[trigger] lines[i], w) {
            let i = choose|i: int| 0 <= i < lines.len() && line_names(#[trigger] lines[i], w);
            if i < last {
                assert(line_names(d[i], w));
            }
        }
    }
}

/// What is said of a disk shows that it is optical if it tells an optical type, a
/// CD's partition or a Blu-ray.
pub proof fn lemma_optical(info: Seq<char>)
    ensures
        optical_info(info) <==> text::contains(info, "<key>OpticalDeviceType</key>"@)
            || text::contains(info, "<key>OpticalMediaType</key>"@) || text::contains(
            info,
            "CD_partition"@,
        ) || text::contains(info, "Blu-ray"@),
{
}

/// The optical disks are those of which something is said that shows it, by name.
pub proof fn lemma_optical_disks(ids: Seq<Seq<char>>, infos: Seq<Option<String>>, x: Seq<char>)
    ensures
        optical_disks(ids, infos).contains(x) <==> exists|i: int|
            0 <= i < ids.len() && i < infos.len() && #[trigger] ids[i] == x && infos[i] is Some
                && optical_info(infos[i]->0@),
        order::in_order(order::sorted(optical_disks(ids, infos), by_text()), by_text()),
        order::sorted(optical_disks(ids, infos), by_text()).to_multiset() == optical_disks(
            ids,
            infos,
        ).to_multiset(),
    decreases ids.len(),
{
    order::lemma_texts_ordered();
    order::lemma_sorted_in_order(optical_disks(ids, infos), by_text());
    order::lemma_sorted_keeps(optical_disks(ids, infos), by_text());
    if ids.len() > 0 {
        let d = ids.drop_last();
        let before = optical_disks(d, infos);
        let n = optical_disks(ids, infos);
        let last = ids.len() - 1;
        lemma_optical_disks(d, infos, x);
        if before.contains(x) {
            let k = choose|k: int| 0 <= k < before.len() && before[k] == x;
            assert(n[k] == x);
            let i = choose|i: int|
                0 <= i < d.len() && i < infos.len() && #[trigger] d[i] == x && infos[i] is Some
                    && optical_info(infos[i]->0@);
            assert(ids[i] == x);
        }
        if n.contains(x) && !before.contains(x) {
            let k = choose|k: int| 0 <= k < n.len() && n[k] == x;
            if k < before.len() {
                assert(before[k] == x);
            }
            assert(ids[last] == x);
        }
        if exists|i: int|
            0 <= i < ids.len() && i < infos.len() && #[trigger] ids[i] == x && infos[i] is Some
                && optical_info(infos[i]->0@) {
            let i = choose|i: int|
                0 <= i < ids.len() && i < infos.len() && #[trigger] ids[i] == x && infos[i] is Some
                    && optical_info(infos[i]->0@);
            if i < last {
                assert(d[i] == x);
            } else {
                assert(n[before.len() as int] == x);
            }
        }
    }
}

// ───────────────────────── what is in them ─────────────────────────

/// A drive is known by its raw node. Its medium is of the class that its type
/// names, or that the registry has; without either the drive is empty. It takes
/// Blu-rays if its own type says so, or if one is in it.
pub proof fn lemma_drive(f: DriveFacts)
    ensures
        ({
            let d = drive_of(f);
            let info = info_of(f);
            let medium = plist::string_of_key(info, "OpticalMediaType"@);
            let kind = plist::string_of_key(info, "OpticalDeviceType"@);
            &&& d.id == f.id@
            &&& d.device == "/dev/r"@ + f.id@
            &&& plist::string_of_key(info, "BusProtocol"@) matches Some(b) ==> d.bus == bus_name(b)
            &&& plist::string_of_key(info, "BusProtocol"@) is None ==> d.bus == "unknown"@
            &&& (medium matches Some(t) && class_named(t) is Some) ==> d.class == class_named(
                medium->0,
            )->0
            &&& !(medium matches Some(t) && class_named(t) is Some) ==> d.class == f.class
            &&& !d.media <==> medium is None && f.class == OpticalClass::Unknown
            &&& d.bd_capable <==> f.class == OpticalClass::BluRay || (kind matches Some(k)
                && class_named(k) == Some(OpticalClass::BluRay))
        }),
{
}

// ───────────────────────── what they are doing ─────────────────────────

proof fn lemma_live_in(live: Seq<Live>, d: DriveView)
    ensures
        match live_in(live, d) {
            Some(l) => exists|k: int|
                0 <= k < live.len() && #[trigger] live[k] == l && is_in(live[k], d) && forall|j: int|
                    0 <= j < k ==> !is_in(#[trigger] live[j], d),
            None => forall|j: int| 0 <= j < live.len() ==> !is_in(#[trigger] live[j], d),
        },
    decreases live.len(),
{
    if live.len() > 0 {
        if is_in(live[0], d) {
            assert(live[0] == live[0] && is_in(live[0], d));
        } else {
            let r = live.skip(1);
            lemma_live_in(r, d);
            match live_in(live, d) {
                Some(l) => {
                    let k = choose|k: int|
                        0 <= k < r.len() && #[trigger] r[k] == l && is_in(r[k], d) && forall|j: int|
                            0 <= j < k ==> !is_in(#[trigger] r[j], d);
                    assert(live[k + 1] == l);
                    assert forall|j: int| 0 <= j < k + 1 implies !is_in(#[trigger] live[j], d) by {
                        if j > 0 {
                            assert(r[j - 1] == live[j]);
                        }
                    }
                },
                None => {
                    assert forall|j: int| 0 <= j < live.len() implies !is_in(
                        #[trigger] live[j],
                        d,
                    ) by {
                        if j > 0 {
                            assert(r[j - 1] == live[j]);
                        }
                    }
                },
            }
        }
    }
}

/// A drive serves the first of the served discs that is in it: one whose source is
/// the same device, or ends in the drive's name. It shows that disc's label and
/// place, and is as safe to eject as that disc. Any other drive passes a DVD or a
/// CD on or waits, and is safe.
pub proof fn lemma_status(d: DriveView, live: Seq<Live>, k: int)
    requires
        0 <= k <= live.len(),
        forall|j: int|
            0 <= j < k ==> !device::same_device((#[trigger] live[j]).0@, d.device) && !path::comps(
                d.id,
            ).is_suffix_of(path::comps(live[j].0@)),
        k < live.len() ==> device::same_device(live[k].0@, d.device) || path::comps(
            d.id,
        ).is_suffix_of(path::comps(live[k].0@)),
    ensures
        ({
            let s = status_of(d, live);
            &&& s.id == d.id && s.device == d.device && s.bus == d.bus
            &&& s.media == d.media && s.bd_capable == d.bd_capable
            &&& k < live.len() ==> {
                &&& s.label == Some(live[k].1@) && s.mountpoint == Some(live[k].2@)
                &&& s.state == "serving"@ && s.safe_to_eject == live[k].3
            }
            &&& k == live.len() ==> {
                &&& s.label is None && s.mountpoint is None && s.safe_to_eject
                &&& s.state == if d.media && (d.class == OpticalClass::Dvd || d.class
                    == OpticalClass::Cd) {
                    "passthrough"@
                } else {
                    "waiting"@
                }
            }
            &&& s.media_class == if !d.media {
                "empty"@
            } else if d.class == OpticalClass::BluRay {
                "bluray"@
            } else if d.class == OpticalClass::Dvd {
                "dvd"@
            } else if d.class == OpticalClass::Cd {
                "cd"@
            } else {
                "unknown"@
            }
        }),
{
    lemma_live_in(live, d);
    match live_in(live, d) {
        Some(l) => {
            let i = choose|i: int|
                0 <= i < live.len() && #[trigger] live[i] == l && is_in(live[i], d) && forall|j: int|
                    0 <= j < i ==> !is_in(#[trigger] live[j], d);
            if i < k {
                assert(!is_in(live[i], d));
            }
            if k < live.len() && k < i {
                assert(!is_in(live[k], d));
            }
        },
        None => {
            if k < live.len() {
                assert(!is_in(live[k], d));
            }
        },
    }
}

} // verus!
