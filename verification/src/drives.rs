//! Optical drives, built in or attached.
//!
//! Empty drives are listed too. DVDs and CDs are marked, so that no one offers
//! to eject what belongs to the system.

pub mod law;

use vstd::prelude::*;

use crate::da::OpticalClass;
use crate::idle::{DriveStatus, DriveStatusView};
use crate::order;
use crate::path;
use crate::plist;
use crate::rawudf::device;
use crate::text;

verus! {

broadcast use vstd::string::group_string_axioms;

pub struct OpticalDrive {
    pub id: String,
    pub device: String,
    pub bus: String,
    pub class: OpticalClass,
    pub media: bool,
    pub bd_capable: bool,
}

#[verifier::ext_equal]
pub struct DriveView {
    pub id: Seq<char>,
    pub device: Seq<char>,
    pub bus: Seq<char>,
    pub class: OpticalClass,
    pub media: bool,
    pub bd_capable: bool,
}

impl View for OpticalDrive {
    type V = DriveView;

    open spec fn view(&self) -> DriveView {
        DriveView {
            id: self.id@,
            device: self.device@,
            bus: self.bus@,
            class: self.class,
            media: self.media,
            bd_capable: self.bd_capable,
        }
    }
}

pub open spec fn drive_views(v: Seq<OpticalDrive>) -> Seq<DriveView> {
    v.map_values(|d: OpticalDrive| d@)
}

// ───────────────────────── names ─────────────────────────

/// The name of a bus, whatever the system calls it.
pub open spec fn bus_name(proto: Seq<char>) -> Seq<char> {
    let low = text::lower(proto);
    if low == "serial ata"@ {
        "sata"@
    } else if low == "atapi"@ {
        "ata"@
    } else {
        low
    }
}

pub fn normalize_bus(proto: &str) -> (r: String)
    ensures
        r@ == bus_name(proto@),
{
    let low = text::string_of(text::to_lower(text::chars_of(proto).as_slice()).as_slice());
    if text::str_same(low.as_str(), "serial ata") {
        text::owned("sata")
    } else if text::str_same(low.as_str(), "atapi") {
        text::owned("ata")
    } else {
        low
    }
}

/// The class that a media or drive type names.
pub open spec fn class_named(s: Seq<char>) -> Option<OpticalClass> {
    let u = text::upper(s);
    if text::contains(u, "BD"@) || text::contains(u, "BLU"@) {
        Some(OpticalClass::BluRay)
    } else if text::contains(u, "DVD"@) {
        Some(OpticalClass::Dvd)
    } else if text::contains(u, "CD"@) {
        Some(OpticalClass::Cd)
    } else {
        None
    }
}

fn upper_has(u: &[char], word: &str) -> (r: bool)
    ensures
        r == text::contains(u@, word@),
{
    text::has(u, text::chars_of(word).as_slice())
}

pub fn class_from_optical_type(s: &str) -> (r: Option<OpticalClass>)
    ensures
        r == class_named(s@),
{
    let u = text::to_upper(text::chars_of(s).as_slice());
    if upper_has(u.as_slice(), "BD") || upper_has(u.as_slice(), "BLU") {
        Some(OpticalClass::BluRay)
    } else if upper_has(u.as_slice(), "DVD") {
        Some(OpticalClass::Dvd)
    } else if upper_has(u.as_slice(), "CD") {
        Some(OpticalClass::Cd)
    } else {
        None
    }
}

pub open spec fn class_name(class: OpticalClass, media: bool) -> Seq<char> {
    if !media {
        "empty"@
    } else {
        match class {
            OpticalClass::BluRay => "bluray"@,
            OpticalClass::Dvd => "dvd"@,
            OpticalClass::Cd => "cd"@,
            OpticalClass::Unknown => "unknown"@,
        }
    }
}

pub fn media_class_name(class: OpticalClass, media: bool) -> (r: &'static str)
    ensures
        r@ == class_name(class, media),
{
    if !media {
        return "empty";
    }
    match class {
        OpticalClass::BluRay => "bluray",
        OpticalClass::Dvd => "dvd",
        OpticalClass::Cd => "cd",
        OpticalClass::Unknown => "unknown",
    }
}

// ───────────────────────── which drives there are ─────────────────────────

/// `ids` with the whole disk of `id` behind it, unless there is none, it is the
/// system disk or it is there already.
pub open spec fn with_disk(ids: Seq<Seq<char>>, id: Seq<char>) -> Seq<Seq<char>> {
    match device::whole_disk(id) {
        None => ids,
        Some(w) => if w == "disk0"@ || ids.contains(w) {
            ids
        } else {
            ids.push(w)
        },
    }
}

/// What a line of a listing of disks adds.
pub open spec fn with_line(ids: Seq<Seq<char>>, line: Seq<char>) -> Seq<Seq<char>> {
    let w = text::words(line.skip(5), text::Separator::Space);
    let first = if "/dev/"@.is_prefix_of(line) && w.len() > 0 {
        with_disk(ids, w[0])
    } else {
        ids
    };
    let all = text::words(line, text::Separator::Space);
    if device::optical_line(line) && all.len() > 0 {
        with_disk(first, all.last())
    } else {
        first
    }
}

pub open spec fn disks_in(lines: Seq<Seq<char>>) -> Seq<Seq<char>>
    decreases lines.len(),
{
    if lines.len() == 0 {
        Seq::empty()
    } else {
        with_line(disks_in(lines.drop_last()), lines.last())
    }
}

fn push_disk(ids: &mut Vec<String>, id: &[char])
    ensures
        text::strs(final(ids)@) == with_disk(text::strs(old(ids)@), id@),
{
    broadcast use text::lemma_strs_push;

    if let Some(w) = device::bsd_whole_disk(text::string_of(id).as_str()) {
        if !text::str_same(w.as_str(), "disk0") && !text::list_has(ids.as_slice(), w.as_str()) {
            ids.push(w);
        }
    }
}

fn push_line(ids: &mut Vec<String>, line: &[char])
    ensures
        text::strs(final(ids)@) == with_line(text::strs(old(ids)@), line@),
{
    proof {
        reveal_strlit("/dev/");
    }
    let dev = text::chars_of("/dev/");
    if let Some(rest) = text::strip_prefix(line, dev.as_slice()) {
        let w = text::split_words(rest, text::Separator::Space);
        if w.len() > 0 {
            assert(text::texts(w@)[0] == w@[0]@);
            push_disk(ids, w[0].as_slice());
        }
    }
    if device::is_optical_line(line) {
        let w = text::split_words(line, text::Separator::Space);
        if w.len() > 0 {
            assert(text::texts(w@).last() == w@[w@.len() - 1]@);
            push_disk(ids, w[w.len() - 1].as_slice());
        }
    }
}

/// The whole disks in the output of `diskutil list`, each once.
pub fn disks_listed(listing: &str) -> (r: Vec<String>)
    ensures
        text::strs(r@) == disks_in(text::line_seq(listing@)),
{
    let c = text::chars_of(listing);
    let lines = text::lines(c.as_slice());
    let ghost all = text::texts(lines@);
    let mut ids: Vec<String> = Vec::new();
    assert(text::strs(ids@) =~= Seq::<Seq<char>>::empty());
    assert(all.take(0) =~= Seq::<Seq<char>>::empty());
    let mut i: usize = 0;
    while i < lines.len()
        invariant
            i <= lines@.len(),
            all == text::texts(lines@),
            text::strs(ids@) == disks_in(all.take(i as int)),
        decreases lines@.len() - i,
    {
        assert(all.take(i + 1).drop_last() =~= all.take(i as int));
        assert(all.take(i + 1).last() == lines@[i as int]@);
        push_line(&mut ids, lines[i].as_slice());
        i += 1;
    }
    assert(all.take(i as int) =~= all);
    ids
}

/// What the system says of a disk shows that it is optical.
pub open spec fn optical_info(info: Seq<char>) -> bool {
    ||| text::contains(info, "<key>OpticalDeviceType</key>"@)
    ||| text::contains(info, "<key>OpticalMediaType</key>"@)
    ||| text::contains(info, "CD_partition"@)
    ||| text::contains(info, "Blu-ray"@)
}

/// The disks of `ids` that are optical, by what `infos` says of each; one of
/// which nothing is said is not.
pub open spec fn optical_disks(ids: Seq<Seq<char>>, infos: Seq<Option<String>>) -> Seq<Seq<char>>
    decreases ids.len(),
{
    if ids.len() == 0 {
        Seq::empty()
    } else {
        let before = optical_disks(ids.drop_last(), infos);
        let i = ids.len() - 1;
        if i < infos.len() && infos[i] is Some && optical_info(infos[i]->0@) {
            before.push(ids.last())
        } else {
            before
        }
    }
}

pub open spec fn by_text() -> spec_fn(Seq<char>, Seq<char>) -> order::Rank {
    |a: Seq<char>, b: Seq<char>| order::text_rank(a, b)
}

fn insert_text(out: &mut Vec<String>, s: String)
    ensures
        text::strs(final(out)@) == order::inserted(text::strs(old(out)@), s@, by_text()),
{
    let ghost all = text::strs(out@);
    let ghost rank = by_text();
    let c = text::chars_of(s.as_str());
    let mut k: usize = out.len();
    assert(all.take(k as int) =~= all);
    while k > 0 && order::rank_texts(text::chars_of(out[k - 1].as_str()).as_slice(), c.as_slice())
        == order::Rank::After
        invariant
            k <= out@.len(),
            c@ == s@,
            all == text::strs(out@),
            rank == by_text(),
            order::slot(all, s@, rank) == order::slot(all.take(k as int), s@, rank),
        decreases k,
    {
        assert(all.take(k as int).drop_last() =~= all.take(k - 1));
        assert(all.take(k as int).last() == out@[k - 1]@);
        k -= 1;
    }
    proof {
        if k > 0 {
            assert(all.take(k as int).last() == out@[k - 1]@);
        }
        order::lemma_slot(all, s@, rank);
    }
    out.insert(k, s);
    assert(text::strs(out@) =~= all.insert(k as int, s@));
}

/// The whole disks that are optical drives, by name. `infos` holds what
/// `diskutil info` says of each of [`disks_listed`].
pub fn list_drive_ids(listing: &str, infos: &[Option<String>]) -> (r: Vec<String>)
    ensures
        text::strs(r@) == order::sorted(
            optical_disks(disks_in(text::line_seq(listing@)), infos@),
            by_text(),
        ),
{
    let ids = disks_listed(listing);
    let ghost all = text::strs(ids@);
    let mut out: Vec<String> = Vec::new();
    assert(text::strs(out@) =~= Seq::<Seq<char>>::empty());
    assert(all.take(0) =~= Seq::<Seq<char>>::empty());
    let mut i: usize = 0;
    while i < ids.len()
        invariant
            i <= ids@.len(),
            all == text::strs(ids@),
            text::strs(out@) == order::sorted(optical_disks(all.take(i as int), infos@), by_text()),
        decreases ids@.len() - i,
    {
        assert(all.take(i + 1).drop_last() =~= all.take(i as int));
        assert(all.take(i + 1).last() == ids@[i as int]@);
        let ghost before = optical_disks(all.take(i as int), infos@);
        if i < infos.len() {
            if let Some(info) = &infos[i] {
                let s = info.as_str();
                if text::str_has(s, "<key>OpticalDeviceType</key>") || text::str_has(
                    s,
                    "<key>OpticalMediaType</key>",
                ) || text::str_has(s, "CD_partition") || text::str_has(s, "Blu-ray") {
                    assert(before.push(ids@[i as int]@).drop_last() =~= before);
                    insert_text(&mut out, text::owned(ids[i].as_str()));
                }
            }
        }
        i += 1;
    }
    assert(all.take(i as int) =~= all);
    out
}

// ───────────────────────── what is in them ─────────────────────────

/// What the system says of a drive.
pub struct DriveFacts {
    pub id: String,
    /// The output of `diskutil info -plist`, if there is any.
    pub info: Option<String>,
    /// The class of the medium in the drive, as the system's registry has it.
    pub class: OpticalClass,
}

pub open spec fn info_of(f: DriveFacts) -> Seq<char> {
    match f.info {
        Some(s) => s@,
        None => Seq::empty(),
    }
}

/// The class that the string under `key` names.
pub open spec fn class_under(info: Seq<char>, key: Seq<char>) -> Option<OpticalClass> {
    match plist::string_of_key(info, key) {
        Some(s) => class_named(s),
        None => None,
    }
}

/// The class of the medium: as its type says, else as the registry has it.
pub open spec fn medium_of(f: DriveFacts) -> OpticalClass {
    match class_under(info_of(f), "OpticalMediaType"@) {
        Some(c) => c,
        None => f.class,
    }
}

pub open spec fn drive_of(f: DriveFacts) -> DriveView {
    let info = info_of(f);
    DriveView {
        id: f.id@,
        device: "/dev/r"@ + f.id@,
        bus: match plist::string_of_key(info, "BusProtocol"@) {
            Some(s) => bus_name(s),
            None => "unknown"@,
        },
        class: medium_of(f),
        media: plist::string_of_key(info, "OpticalMediaType"@) is Some || medium_of(f)
            != OpticalClass::Unknown,
        bd_capable: class_under(info, "OpticalDeviceType"@) == Some(OpticalClass::BluRay) || f.class
            == OpticalClass::BluRay,
    }
}

fn read_drive(f: &DriveFacts) -> (r: OpticalDrive)
    ensures
        r@ == drive_of(*f),
{
    let empty = String::new();
    assert(empty@ =~= Seq::<char>::empty());
    let info = match &f.info {
        Some(s) => s.as_str(),
        None => empty.as_str(),
    };
    let bus = match plist::plist_string(info, "BusProtocol") {
        Some(s) => normalize_bus(s.as_str()),
        None => text::owned("unknown"),
    };
    let media_type = plist::plist_string(info, "OpticalMediaType");
    let class = match &media_type {
        Some(s) => match class_from_optical_type(s.as_str()) {
            Some(c) => c,
            None => f.class,
        },
        None => f.class,
    };
    let device_bd = match plist::plist_string(info, "OpticalDeviceType") {
        Some(s) => match class_from_optical_type(s.as_str()) {
            Some(OpticalClass::BluRay) => true,
            _ => false,
        },
        None => false,
    };
    let media = media_type.is_some() || class != OpticalClass::Unknown;
    OpticalDrive {
        id: text::owned(f.id.as_str()),
        device: text::concat("/dev/r", f.id.as_str()),
        bus,
        class,
        media,
        bd_capable: device_bd || f.class == OpticalClass::BluRay,
    }
}

/// The optical drives, from what the system says of each.
pub fn list_drives(facts: &[DriveFacts]) -> (r: Vec<OpticalDrive>)
    ensures
        drive_views(r@) == facts@.map_values(|f: DriveFacts| drive_of(f)),
{
    let mut out: Vec<OpticalDrive> = Vec::new();
    let mut i: usize = 0;
    while i < facts.len()
        invariant
            i <= facts@.len(),
            out@.len() == i,
            forall|j: int| 0 <= j < i ==> (#[trigger] out@[j])@ == drive_of(facts@[j]),
        decreases facts@.len() - i,
    {
        out.push(read_drive(&facts[i]));
        i += 1;
    }
    assert(drive_views(out@) =~= facts@.map_values(|f: DriveFacts| drive_of(f)));
    out
}

// ───────────────────────── what they are doing ─────────────────────────

/// A disc that is served: its device, its label, where it is mounted, and
/// whether it may be ejected.
pub type Live = (String, String, String, bool);

/// The served disc is in the drive.
pub open spec fn is_in(l: Live, d: DriveView) -> bool {
    device::same_device(l.0@, d.device) || path::comps(d.id).is_suffix_of(path::comps(l.0@))
}

/// The first served disc that is in the drive.
pub open spec fn live_in(live: Seq<Live>, d: DriveView) -> Option<Live>
    decreases live.len(),
{
    if live.len() == 0 {
        None
    } else if is_in(live[0], d) {
        Some(live[0])
    } else {
        live_in(live.skip(1), d)
    }
}

/// What a drive is doing: serving a disc, leaving one to the system, or waiting.
pub open spec fn status_of(d: DriveView, live: Seq<Live>) -> DriveStatusView {
    let served = live_in(live, d);
    DriveStatusView {
        id: d.id,
        device: d.device,
        bus: d.bus,
        media_class: class_name(d.class, d.media),
        media: d.media,
        bd_capable: d.bd_capable,
        label: match served {
            Some(l) => Some(l.1@),
            None => None,
        },
        mountpoint: match served {
            Some(l) => Some(l.2@),
            None => None,
        },
        state: if served is Some {
            "serving"@
        } else if device::left_to_system(d.class) && d.media {
            "passthrough"@
        } else {
            "waiting"@
        },
        safe_to_eject: match served {
            Some(l) => l.3,
            None => true,
        },
    }
}

fn find_live(live: &[Live], d: &OpticalDrive) -> (r: Option<usize>)
    ensures
        match r {
            Some(i) => i < live@.len() && live_in(live@, d@) == Some(live@[i as int]),
            None => live_in(live@, d@) is None,
        },
{
    let mut i: usize = 0;
    assert(live@.skip(0) =~= live@);
    while i < live.len()
        invariant
            i <= live@.len(),
            live_in(live@, d@) == live_in(live@.skip(i as int), d@),
        decreases live@.len() - i,
    {
        assert(live@.skip(i as int)[0] == live@[i as int]);
        assert(live@.skip(i as int).skip(1) =~= live@.skip(i + 1));
        let dev = live[i].0.as_str();
        if device::devices_match(dev, d.device.as_str()) || path::path_ends_with(
            dev,
            d.id.as_str(),
        ) {
            return Some(i);
        }
        i += 1;
    }
    None
}

fn drive_status(d: &OpticalDrive, live: &[Live]) -> (r: DriveStatus)
    ensures
        r@ == status_of(d@, live@),
{
    let (label, mountpoint, state, safe_to_eject) = match find_live(live, d) {
        Some(i) => (
            Some(text::owned(live[i].1.as_str())),
            Some(text::owned(live[i].2.as_str())),
            text::owned("serving"),
            live[i].3,
        ),
        None => {
            let passes = match d.class {
                OpticalClass::Dvd | OpticalClass::Cd => d.media,
                _ => false,
            };
            if passes {
                (None, None, text::owned("passthrough"), true)
            } else {
                (None, None, text::owned("waiting"), true)
            }
        },
    };
    let r = DriveStatus {
        id: text::owned(d.id.as_str()),
        device: text::owned(d.device.as_str()),
        bus: text::owned(d.bus.as_str()),
        media_class: text::owned(media_class_name(d.class, d.media)),
        media: d.media,
        bd_capable: d.bd_capable,
        label,
        mountpoint,
        state,
        safe_to_eject,
    };
    assert(r@ =~= status_of(d@, live@));
    r
}

/// What each drive is doing, given the discs that are served.
pub fn drive_statuses(drives: &[OpticalDrive], live: &[Live]) -> (r: Vec<DriveStatus>)
    ensures
        crate::idle::status_views(r@) == drive_views(drives@).map_values(
            |d: DriveView| status_of(d, live@),
        ),
{
    let mut out: Vec<DriveStatus> = Vec::new();
    let mut i: usize = 0;
    while i < drives.len()
        invariant
            i <= drives@.len(),
            out@.len() == i,
            forall|j: int| 0 <= j < i ==> (#[trigger] out@[j])@ == status_of(drives@[j]@, live@),
        decreases drives@.len() - i,
    {
        out.push(drive_status(&drives[i], live));
        i += 1;
    }
    assert(crate::idle::status_views(out@) =~= drive_views(drives@).map_values(
        |d: DriveView| status_of(d, live@),
    ));
    out
}

// ───────────────────────── laws ─────────────────────────

/// A drive whose medium is left to the system is never shown as serving unless
/// its disc is served, and what is not served counts as safe.
pub proof fn lemma_unserved_is_safe(d: DriveView, live: Seq<Live>)
    requires
        live_in(live, d) is None,
    ensures
        status_of(d, live).safe_to_eject,
        status_of(d, live).label is None && status_of(d, live).mountpoint is None,
        (status_of(d, live).state == "passthrough"@) == (device::left_to_system(d.class)
            && d.media),
{
    reveal_strlit("passthrough");
    reveal_strlit("waiting");
    assert("passthrough"@.len() != "waiting"@.len());
}

proof fn lemma_with_disk_unique(ids: Seq<Seq<char>>, id: Seq<char>)
    requires
        ids.no_duplicates(),
        !ids.contains("disk0"@),
    ensures
        with_disk(ids, id).no_duplicates(),
        !with_disk(ids, id).contains("disk0"@),
{
}

/// No disk is listed twice, and the system disk never.
pub proof fn lemma_disks_unique(lines: Seq<Seq<char>>)
    ensures
        disks_in(lines).no_duplicates(),
        !disks_in(lines).contains("disk0"@),
    decreases lines.len(),
{
    if lines.len() > 0 {
        let before = disks_in(lines.drop_last());
        let line = lines.last();
        lemma_disks_unique(lines.drop_last());
        let w = text::words(line.skip(5), text::Separator::Space);
        lemma_with_disk_unique(before, w[0]);
        let all = text::words(line, text::Separator::Space);
        lemma_with_disk_unique(before, all.last());
        lemma_with_disk_unique(with_disk(before, w[0]), all.last());
    }
}

} // verus!
