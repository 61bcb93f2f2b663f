//! Which discs are taken from the system, and which trays may be opened.
//!
//! Blu-ray media is claimed: the system is kept from mounting it. DVDs and CDs
//! always pass through, also a DVD that holds a Blu-ray tree. Only a disc that
//! was claimed is ever ejected.

pub mod law;

use vstd::prelude::*;

use crate::idle;
use crate::idle::Holder;
use crate::path;
use crate::rawudf::device;
use crate::rawudf::device::{Search, SearchView};
use crate::text;

verus! {

broadcast use vstd::string::group_string_axioms;

/// What kind of optical medium a disk is.
#[derive(Clone, Copy, Debug, PartialEq, Eq, Structural)]
pub enum OpticalClass {
    BluRay,
    Dvd,
    Cd,
    Unknown,
}

// ───────────────────────── mounting ─────────────────────────

/// A file system that discs are mounted with.
pub open spec fn disc_kind(kind: Seq<char>) -> bool {
    kind == "udf"@ || kind == "cd9660"@
}

/// The system is kept from mounting the disc: it is a Blu-ray, or of unknown
/// class with a Blu-ray tree.
pub open spec fn dissents(kind: Seq<char>, class: OpticalClass, has_bdmv: bool) -> bool {
    disc_kind(kind) && (class == OpticalClass::BluRay || class == OpticalClass::Unknown
        && has_bdmv)
}

/// Whether to keep the system from mounting a disc. `has_bdmv` matters only
/// where the class is unknown: a known DVD or CD always passes through.
pub fn should_dissent(kind: &str, class: OpticalClass, has_bdmv: bool) -> (r: bool)
    ensures
        r == dissents(kind@, class, has_bdmv),
{
    if !text::str_same(kind, "udf") && !text::str_same(kind, "cd9660") {
        return false;
    }
    match class {
        OpticalClass::BluRay => true,
        OpticalClass::Dvd | OpticalClass::Cd => false,
        OpticalClass::Unknown => has_bdmv,
    }
}

/// Whether the answer to a mount request needs a look for a Blu-ray tree.
pub fn needs_peek(kind: &str, class: OpticalClass) -> (r: bool)
    ensures
        r == (disc_kind(kind@) && class == OpticalClass::Unknown),
        !r ==> dissents(kind@, class, true) == dissents(kind@, class, false),
{
    (text::str_same(kind, "udf") || text::str_same(kind, "cd9660")) && class
        == OpticalClass::Unknown
}

/// The look for a Blu-ray tree on the raw nodes of a disk, of which the first
/// ones gave `answers`.
pub fn raw_has_bdmv(bsd: &str, answers: &[bool]) -> (r: Search)
    ensures
        r@ == device::pass(device::raw_nodes(bsd@), answers@, SearchView::Nothing),
{
    let nodes = device::rdisk_paths_for_bsd(bsd);
    let none: Vec<String> = Vec::new();
    assert(text::strs(none@) =~= Seq::<Seq<char>>::empty());
    proof {
        let all = text::strs(nodes@);
        lemma_all_asked(all);
    }
    device::poll_bd_rdisk(nodes.as_slice(), answers, none.as_slice(), none.as_slice())
}

proof fn lemma_all_asked(all: Seq<Seq<char>>)
    ensures
        device::asked(all, Seq::empty(), Seq::empty()) == all,
    decreases all.len(),
{
    reveal(Seq::filter);
    let p = |d: Seq<char>| device::eligible(d, Seq::empty(), Seq::empty());
    if all.len() > 0 {
        lemma_all_asked(all.drop_last());
        assert(all.drop_last().filter(p) == device::asked(
            all.drop_last(),
            Seq::empty(),
            Seq::empty(),
        ));
        assert(p(all.last()));
        assert(all.drop_last().push(all.last()) =~= all);
    } else {
        assert(all.filter(p) =~= all);
    }
}

/// What a level of the system's registry, from a disk upward, conforms to.
#[derive(Clone, Copy, Debug, PartialEq, Eq, Structural)]
pub struct MediaLevel {
    pub bd: bool,
    pub dvd: bool,
    pub cd: bool,
}

/// How many levels are looked at.
pub const REGISTRY_LEVELS: usize = 16;

/// The class of the first level, from `i` on, that is optical media.
pub open spec fn class_above(levels: Seq<MediaLevel>, i: int) -> OpticalClass
    decreases levels.len() - i,
{
    if i < 0 || i >= levels.len() || i >= REGISTRY_LEVELS {
        OpticalClass::Unknown
    } else if levels[i].bd {
        OpticalClass::BluRay
    } else if levels[i].dvd {
        OpticalClass::Dvd
    } else if levels[i].cd {
        OpticalClass::Cd
    } else {
        class_above(levels, i + 1)
    }
}

pub fn class_from_levels(levels: &[MediaLevel]) -> (r: OpticalClass)
    ensures
        r == class_above(levels@, 0),
{
    let mut i: usize = 0;
    while i < levels.len() && i < REGISTRY_LEVELS
        invariant
            i <= levels@.len(),
            class_above(levels@, 0) == class_above(levels@, i as int),
        decreases levels@.len() - i,
    {
        if levels[i].bd {
            return OpticalClass::BluRay;
        }
        if levels[i].dvd {
            return OpticalClass::Dvd;
        }
        if levels[i].cd {
            return OpticalClass::Cd;
        }
        i += 1;
    }
    OpticalClass::Unknown
}

/// A device path without `/dev/` and without the `r` of a raw node.
pub open spec fn bare_name(s: Seq<char>) -> Seq<char> {
    text::without_prefixes(text::without_prefixes(s, "/dev/r"@), "/dev/"@)
}

fn strip_device(c: &[char]) -> (r: String)
    ensures
        r@ == bare_name(c@),
{
    let raw = text::chars_of("/dev/r");
    let dev = text::chars_of("/dev/");
    let a = text::trim_start_matches(c, raw.as_slice());
    text::string_of(text::trim_start_matches(a, dev.as_slice()))
}

/// The name under which the system's registry knows a disk.
pub fn registry_name(bsd: &str) -> (r: String)
    ensures
        r@ == bare_name(text::trimmed(bsd@)),
{
    let c = text::chars_of(bsd);
    strip_device(text::trim(c.as_slice()))
}

/// The whole disk of a raw device, or the device's own name where it is none.
pub open spec fn bsd_of_raw(raw: Seq<char>) -> Seq<char> {
    match device::whole_disk(bare_name(raw)) {
        Some(w) => w,
        None => bare_name(raw),
    }
}

pub fn bsd_for_raw(raw: &str) -> (r: String)
    ensures
        r@ == bsd_of_raw(raw@),
{
    let rest = strip_device(text::chars_of(raw).as_slice());
    match device::bsd_whole_disk(rest.as_str()) {
        Some(w) => w,
        None => rest,
    }
}

// ───────────────────────── claims ─────────────────────────

/// The BSD names (`disk6`, `disk6s1`) whose mount was refused.
pub struct Claims {
    pub names: Vec<String>,
}

impl View for Claims {
    type V = Seq<Seq<char>>;

    open spec fn view(&self) -> Seq<Seq<char>> {
        text::strs(self.names@)
    }
}

/// Each name is claimed once, and none is empty.
pub open spec fn claims_ok(c: Seq<Seq<char>>) -> bool {
    c.no_duplicates() && forall|i: int| 0 <= i < c.len() ==> (#[trigger] c[i]).len() > 0
}

impl Claims {
    /// No claims.
    pub fn new() -> (r: Claims)
        ensures
            r@ == Seq::<Seq<char>>::empty(),
    {
        let r = Claims { names: Vec::new() };
        assert(r@ =~= Seq::<Seq<char>>::empty());
        r
    }
}

/// The names that were claimed by this process.
pub fn claimed_bsd_names(claims: &Claims) -> (r: Vec<String>)
    ensures
        text::strs(r@) == claims@,
{
    text::clone_strings(claims.names.as_slice())
}

/// `a` with those of `b` behind it that it does not hold.
pub open spec fn union(a: Seq<Seq<char>>, b: Seq<Seq<char>>) -> Seq<Seq<char>>
    decreases b.len(),
{
    if b.len() == 0 {
        a
    } else {
        let before = union(a, b.drop_last());
        if before.contains(b.last()) {
            before
        } else {
            before.push(b.last())
        }
    }
}

/// The claims of this process and those that were kept from an earlier one.
pub fn all_claimed_bsd_names(claims: &Claims, persisted: &[String]) -> (r: Vec<String>)
    ensures
        text::strs(r@) == union(claims@, text::strs(persisted@)),
{
    broadcast use text::lemma_strs_push;

    let mut v = claimed_bsd_names(claims);
    let ghost all = text::strs(persisted@);
    assert(all.take(0) =~= Seq::<Seq<char>>::empty());
    let mut i: usize = 0;
    while i < persisted.len()
        invariant
            i <= persisted@.len(),
            all == text::strs(persisted@),
            text::strs(v@) == union(claims@, all.take(i as int)),
        decreases persisted@.len() - i,
    {
        assert(all.take(i + 1).drop_last() =~= all.take(i as int));
        assert(all.take(i + 1).last() == persisted@[i as int]@);
        if !text::list_has(v.as_slice(), persisted[i].as_str()) {
            let ghost before = text::strs(v@);
            let s = text::owned(persisted[i].as_str());
            v.push(s);
            assert(text::strs(v@) == before.push(s@));
        }
        i += 1;
    }
    assert(all.take(i as int) =~= all);
    v
}

/// The whole disks of `names`, each once.
pub open spec fn whole_disks(names: Seq<Seq<char>>) -> Seq<Seq<char>>
    decreases names.len(),
{
    if names.len() == 0 {
        Seq::empty()
    } else {
        let before = whole_disks(names.drop_last());
        match device::whole_disk(names.last()) {
            Some(w) => if before.contains(w) {
                before
            } else {
                before.push(w)
            },
            None => before,
        }
    }
}

/// The whole disks that were claimed. Where there are none, there is nothing to
/// eject.
pub fn claimed_whole_disks(claims: &Claims, persisted: &[String]) -> (r: Vec<String>)
    ensures
        text::strs(r@) == whole_disks(union(claims@, text::strs(persisted@))),
{
    broadcast use text::lemma_strs_push;

    let names = all_claimed_bsd_names(claims, persisted);
    let ghost all = text::strs(names@);
    let mut out: Vec<String> = Vec::new();
    assert(text::strs(out@) =~= Seq::<Seq<char>>::empty());
    assert(all.take(0) =~= Seq::<Seq<char>>::empty());
    let mut i: usize = 0;
    while i < names.len()
        invariant
            i <= names@.len(),
            all == text::strs(names@),
            text::strs(out@) == whole_disks(all.take(i as int)),
        decreases names@.len() - i,
    {
        assert(all.take(i + 1).drop_last() =~= all.take(i as int));
        assert(all.take(i + 1).last() == names@[i as int]@);
        if let Some(w) = device::bsd_whole_disk(names[i].as_str()) {
            if !text::list_has(out.as_slice(), w.as_str()) {
                let ghost before = text::strs(out@);
                out.push(w);
                assert(text::strs(out@) == before.push(w@));
            }
        }
        i += 1;
    }
    assert(all.take(i as int) =~= all);
    out
}

/// The claims with `bsd` among them.
pub open spec fn with_claim(c: Seq<Seq<char>>, bsd: Seq<char>) -> Seq<Seq<char>> {
    if bsd.len() == 0 || c.contains(bsd) {
        c
    } else {
        c.push(bsd)
    }
}

/// Records a name that is now ours.
pub fn claim_bsd(claims: &mut Claims, bsd: String)
    ensures
        final(claims)@ == with_claim(old(claims)@, bsd@),
{
    broadcast use text::lemma_strs_push;

    if text::chars_of(bsd.as_str()).len() == 0 || text::list_has(
        claims.names.as_slice(),
        bsd.as_str(),
    ) {
        return;
    }
    claims.names.push(bsd);
}

/// Gives up all claims.
pub fn clear_claimed(claims: &mut Claims)
    ensures
        final(claims)@ == Seq::<Seq<char>>::empty(),
{
    claims.names = Vec::new();
    assert(claims@ =~= Seq::<Seq<char>>::empty());
}

/// Where the claims are kept, beside the status.
pub fn claimed_persist_path(status: &str) -> (r: String)
    ensures
        r@ == path::renamed(status@, "claimed.json"@),
{
    path::with_file_name(status, "claimed.json")
}

// ───────────────────────── the claim file ─────────────────────────

/// The list of strings that a JSON text holds, if it holds one.
pub uninterp spec fn names_in(text: Seq<char>) -> Option<Seq<Seq<char>>>;

/// A list of strings as a JSON text.
pub uninterp spec fn names_text(names: Seq<Seq<char>>) -> Option<Seq<char>>;

/// The error of `serde_json`.
#[verifier::external_type_specification]
#[verifier::external_body]
pub struct ExJsonError(serde_json::Error);

/// `serde_json::from_str` on a list of strings: whether the text is one, and
/// which, depends on the text alone.
#[verifier::external_body]
fn parse_names(json: &str) -> (r: Result<Vec<String>, serde_json::Error>)
    ensures
        match r {
            Ok(v) => names_in(json@) == Some(text::strs(v@)),
            Err(_) => names_in(json@) is None,
        },
{
    serde_json::from_str::<Vec<String>>(json)
}

/// `serde_json::to_string_pretty` on a list of strings: the text depends on the
/// list alone, and read back it gives the list.
#[verifier::external_body]
fn write_names(names: &Vec<String>) -> (r: Result<String, serde_json::Error>)
    ensures
        match r {
            Ok(t) => {
                &&& names_text(text::strs(names@)) == Some(t@)
                &&& names_in(t@) == Some(text::strs(names@))
            },
            Err(_) => names_text(text::strs(names@)) is None,
        },
{
    serde_json::to_string_pretty(names)
}

/// The claims in a claim file with this text; a file that is missing or broken
/// holds none.
pub open spec fn claims_in(json: Option<Seq<char>>) -> Seq<Seq<char>> {
    match json {
        None => Seq::empty(),
        Some(t) => match names_in(t) {
            Some(v) => v,
            None => Seq::empty(),
        },
    }
}

/// Reads the claims that an earlier process kept, from the text of the claim
/// file, if it could be read.
pub fn load_persisted_claimed(json: Option<&str>) -> (r: Vec<String>)
    ensures
        text::strs(r@) == claims_in(idle::opt_view(json)),
{
    let none: Vec<String> = Vec::new();
    assert(text::strs(none@) =~= Seq::<Seq<char>>::empty());
    match json {
        None => none,
        Some(t) => match parse_names(t) {
            Ok(v) => v,
            Err(_) => none,
        },
    }
}

/// What to do with the claim file.
pub enum ClaimFile {
    /// There are no claims: it goes.
    Remove,
    Write(String),
    /// The claims could not be written down: it stays as it is.
    Leave,
}

/// What the claim file has to hold, so that a later process knows the claims.
pub fn persist_claimed(claims: &Claims) -> (r: ClaimFile)
    ensures
        match r {
            ClaimFile::Remove => claims@.len() == 0,
            ClaimFile::Write(t) => {
                &&& claims@.len() > 0
                &&& names_text(claims@) == Some(t@)
                &&& claims_in(Some(t@)) == claims@
            },
            ClaimFile::Leave => claims@.len() > 0 && names_text(claims@) is None,
        },
{
    if claims.names.len() == 0 {
        return ClaimFile::Remove;
    }
    match write_names(&claims.names) {
        Ok(t) => ClaimFile::Write(t),
        Err(_) => ClaimFile::Leave,
    }
}

// ───────────────────────── ejecting ─────────────────────────

/// Why nothing was ejected.
#[derive(Clone, Copy, Debug, PartialEq, Eq, Structural)]
pub enum EjectError {
    /// No disc was claimed; one that the system mounted is not ours to eject.
    NothingClaimed,
    /// The drive is still held.
    HoldersRemain,
    /// All claimed disks turned out to hold DVDs or CDs.
    PassThroughOnly,
}

/// The disk is the one that `only` names, as a device or a BSD name.
pub open spec fn is_only(bsd: Seq<char>, only: Seq<char>) -> bool {
    ||| device::same_device("/dev/r"@ + bsd, only)
    ||| bsd == only
    ||| bsd.is_suffix_of(only)
}

/// The claimed disks that are to be ejected.
pub open spec fn targets(disks: Seq<Seq<char>>, only: Option<Seq<char>>) -> Seq<Seq<char>>
    decreases disks.len(),
{
    if disks.len() == 0 {
        Seq::empty()
    } else {
        let before = targets(disks.drop_last(), only);
        let hit = match only {
            Some(o) => is_only(disks.last(), o),
            None => true,
        };
        if hit {
            before.push(disks.last())
        } else {
            before
        }
    }
}

/// The device whose holders are waited for: the first raw node of the first
/// disk.
pub open spec fn first_node(bsd: Seq<char>) -> Seq<char> {
    let nodes = device::raw_nodes(bsd);
    if nodes.len() > 0 {
        nodes[0]
    } else {
        "/dev/r"@ + bsd
    }
}

/// What an eject has to do.
pub struct EjectPlan {
    /// Every decrypted view is to be unmounted first. The eject of one device
    /// leaves the other discs alone.
    pub release_all: bool,
    pub disks: Vec<String>,
    /// The device whose holders have to be gone.
    pub source: String,
}

/// Plans the eject of the claimed disks, or of the one that `only` names.
pub fn eject_after_release_filter(claims: &Claims, persisted: &[String], only: Option<&str>) -> (r:
    Result<EjectPlan, EjectError>)
    ensures
        ({
            let disks = targets(
                whole_disks(union(claims@, text::strs(persisted@))),
                idle::opt_view(only),
            );
            match r {
                Err(e) => disks.len() == 0 && e == EjectError::NothingClaimed,
                Ok(p) => {
                    &&& disks.len() > 0
                    &&& p.release_all == (only is None)
                    &&& text::strs(p.disks@) == disks
                    &&& p.source@ == first_node(disks[0])
                },
            }
        }),
        r matches Ok(p) ==> law::all_asked(
            claims@,
            text::strs(persisted@),
            idle::opt_view(only),
            text::strs(p.disks@),
        ),
        r is Err ==> law::all_asked(
            claims@,
            text::strs(persisted@),
            idle::opt_view(only),
            Seq::empty(),
        ),
{
    broadcast use text::lemma_strs_push;

    proof {
        law::lemma_all_asked(claims@, text::strs(persisted@), idle::opt_view(only));
        let t = targets(
            whole_disks(union(claims@, text::strs(persisted@))),
            idle::opt_view(only),
        );
        if t.len() == 0 {
            assert(t =~= Seq::<Seq<char>>::empty());
        }
    }
    let whole = claimed_whole_disks(claims, persisted);
    let ghost all = text::strs(whole@);
    let mut disks: Vec<String> = Vec::new();
    assert(text::strs(disks@) =~= Seq::<Seq<char>>::empty());
    assert(all.take(0) =~= Seq::<Seq<char>>::empty());
    let mut i: usize = 0;
    while i < whole.len()
        invariant
            i <= whole@.len(),
            all == text::strs(whole@),
            text::strs(disks@) == targets(all.take(i as int), idle::opt_view(only)),
        decreases whole@.len() - i,
    {
        assert(all.take(i + 1).drop_last() =~= all.take(i as int));
        assert(all.take(i + 1).last() == whole@[i as int]@);
        let bsd = whole[i].as_str();
        let hit = match only {
            Some(o) => device::devices_match(text::concat("/dev/r", bsd).as_str(), o)
                || text::str_same(bsd, o) || text::str_ends_with(o, bsd),
            None => true,
        };
        if hit {
            let ghost before = text::strs(disks@);
            let one = text::owned(bsd);
            disks.push(one);
            assert(text::strs(disks@) == before.push(one@));
        }
        i += 1;
    }
    assert(all.take(i as int) =~= all);
    if disks.len() == 0 {
        return Err(EjectError::NothingClaimed);
    }
    assert(text::strs(disks@)[0] == disks@[0]@);
    let nodes = device::rdisk_paths_for_bsd(disks[0].as_str());
    let source = if nodes.len() > 0 {
        assert(text::strs(nodes@)[0] == nodes@[0]@);
        text::owned(nodes[0].as_str())
    } else {
        text::concat("/dev/r", disks[0].as_str())
    };
    Ok(EjectPlan { release_all: only.is_none(), disks, source })
}

/// Plans the eject of every claimed disk.
pub fn eject_after_release(claims: &Claims, persisted: &[String]) -> (r: Result<
    EjectPlan,
    EjectError,
>)
    ensures
        ({
            let disks = targets(whole_disks(union(claims@, text::strs(persisted@))), None);
            match r {
                Err(e) => disks.len() == 0 && e == EjectError::NothingClaimed,
                Ok(p) => {
                    &&& disks.len() > 0
                    &&& p.release_all
                    &&& text::strs(p.disks@) == disks
                    &&& p.source@ == first_node(disks[0])
                },
            }
        }),
{
    eject_after_release_filter(claims, persisted, None)
}

/// The disks that do not hold a DVD or a CD, by the class of each; one whose
/// class is not given is of unknown class.
pub open spec fn ejectable(disks: Seq<Seq<char>>, classes: Seq<OpticalClass>) -> Seq<Seq<char>>
    decreases disks.len(),
{
    if disks.len() == 0 {
        Seq::empty()
    } else {
        let before = ejectable(disks.drop_last(), classes);
        let i = disks.len() - 1;
        if i < classes.len() && device::left_to_system(classes[i]) {
            before
        } else {
            before.push(disks.last())
        }
    }
}

/// The disks to eject, once the wait for the holders is over and the class of
/// each disk of the plan is known.
pub fn eject_cleared(plan: &EjectPlan, leftovers: &[Holder], classes: &[OpticalClass]) -> (r: Result<
    Vec<String>,
    EjectError,
>)
    ensures
        ({
            let safe = idle::safe_to_eject(idle::holder_views(leftovers@), plan.source@);
            let disks = ejectable(text::strs(plan.disks@), classes@);
            match r {
                Err(EjectError::HoldersRemain) => !safe,
                Err(EjectError::PassThroughOnly) => safe && disks.len() == 0,
                Err(EjectError::NothingClaimed) => false,
                Ok(v) => safe && disks.len() > 0 && text::strs(v@) == disks,
            }
        }),
{
    broadcast use text::lemma_strs_push;

    if !idle::is_safe_to_eject(leftovers, plan.source.as_str()) {
        return Err(EjectError::HoldersRemain);
    }
    let ghost all = text::strs(plan.disks@);
    let mut out: Vec<String> = Vec::new();
    assert(text::strs(out@) =~= Seq::<Seq<char>>::empty());
    assert(all.take(0) =~= Seq::<Seq<char>>::empty());
    let mut i: usize = 0;
    while i < plan.disks.len()
        invariant
            i <= plan.disks@.len(),
            all == text::strs(plan.disks@),
            text::strs(out@) == ejectable(all.take(i as int), classes@),
        decreases plan.disks@.len() - i,
    {
        assert(all.take(i + 1).drop_last() =~= all.take(i as int));
        assert(all.take(i + 1).last() == plan.disks@[i as int]@);
        let passes = if i < classes.len() {
            match classes[i] {
                OpticalClass::Dvd | OpticalClass::Cd => true,
                OpticalClass::BluRay | OpticalClass::Unknown => false,
            }
        } else {
            false
        };
        if !passes {
            let ghost before = text::strs(out@);
            let one = text::owned(plan.disks[i].as_str());
            out.push(one);
            assert(text::strs(out@) == before.push(one@));
        }
        i += 1;
    }
    assert(all.take(i as int) =~= all);
    if out.len() == 0 {
        return Err(EjectError::PassThroughOnly);
    }
    Ok(out)
}

/// The name is that of the disk or of one of its slices.
pub open spec fn belongs_to(name: Seq<char>, disk: Seq<char>) -> bool {
    name == disk || (disk + "s"@).is_prefix_of(name)
}

pub open spec fn belongs_to_any(name: Seq<char>, disks: Seq<Seq<char>>) -> bool {
    exists|i: int| 0 <= i < disks.len() && belongs_to(name, #[trigger] disks[i])
}

/// The claims without those on `disks`.
pub open spec fn claims_without(c: Seq<Seq<char>>, disks: Seq<Seq<char>>) -> Seq<Seq<char>>
    decreases c.len(),
{
    if c.len() == 0 {
        Seq::empty()
    } else {
        let before = claims_without(c.drop_last(), disks);
        if belongs_to_any(c.last(), disks) {
            before
        } else {
            before.push(c.last())
        }
    }
}

fn is_of_any(name: &str, disks: &[String]) -> (r: bool)
    ensures
        r == belongs_to_any(name@, text::strs(disks@)),
{
    let mut i: usize = 0;
    while i < disks.len()
        invariant
            i <= disks@.len(),
            forall|j: int| 0 <= j < i ==> !belongs_to(name@, #[trigger] text::strs(disks@)[j]),
        decreases disks@.len() - i,
    {
        assert(text::strs(disks@)[i as int] == disks@[i as int]@);
        let d = disks[i].as_str();
        if text::str_same(name, d) || text::str_starts_with(name, text::concat(d, "s").as_str()) {
            return true;
        }
        i += 1;
    }
    false
}

/// Gives up the claims on the disks that were ejected: all claims, where every
/// disk was to be ejected.
pub fn ejected(claims: &mut Claims, done: &[String], release_all: bool)
    ensures
        final(claims)@ == if release_all {
            Seq::empty()
        } else {
            claims_without(old(claims)@, text::strs(done@))
        },
{
    broadcast use text::lemma_strs_push;

    if release_all {
        clear_claimed(claims);
        return;
    }
    let ghost all = claims@;
    let mut kept: Vec<String> = Vec::new();
    assert(text::strs(kept@) =~= Seq::<Seq<char>>::empty());
    assert(all.take(0) =~= Seq::<Seq<char>>::empty());
    let mut i: usize = 0;
    while i < claims.names.len()
        invariant
            i <= claims.names@.len(),
            all == claims@,
            text::strs(kept@) == claims_without(all.take(i as int), text::strs(done@)),
        decreases claims.names@.len() - i,
    {
        assert(all.take(i + 1).drop_last() =~= all.take(i as int));
        assert(all.take(i + 1).last() == claims.names@[i as int]@);
        if !is_of_any(claims.names[i].as_str(), done) {
            let ghost before = text::strs(kept@);
            let one = text::owned(claims.names[i].as_str());
            kept.push(one);
            assert(text::strs(kept@) == before.push(one@));
        }
        i += 1;
    }
    assert(all.take(i as int) =~= all);
    claims.names = kept;
}

/// The name under which a disk is ejected: its whole disk, or its own.
pub fn eject_name(bsd: &str) -> (r: String)
    ensures
        r@ == match device::whole_disk(bsd@) {
            Some(w) => w,
            None => bsd@,
        },
{
    match device::bsd_whole_disk(bsd) {
        Some(w) => w,
        None => text::owned(bsd),
    }
}

// ───────────────────────── laws ─────────────────────────

/// A DVD or a CD always passes through to the system, whatever it holds; a
/// Blu-ray with a disc's file system never does.
pub proof fn lemma_classes_pass(kind: Seq<char>, class: OpticalClass, has_bdmv: bool)
    ensures
        device::left_to_system(class) ==> !dissents(kind, class, has_bdmv),
        class == OpticalClass::BluRay && disc_kind(kind) ==> dissents(kind, class, has_bdmv),
        !disc_kind(kind) ==> !dissents(kind, class, has_bdmv),
{
}

/// Claiming keeps the claims sound, makes the name one of them, keeps all others,
/// and does nothing the second time.
pub proof fn lemma_claimed(c: Seq<Seq<char>>, bsd: Seq<char>)
    requires
        claims_ok(c),
    ensures
        claims_ok(with_claim(c, bsd)),
        bsd.len() > 0 ==> with_claim(c, bsd).contains(bsd),
        forall|x: Seq<char>| c.contains(x) ==> #[trigger] with_claim(c, bsd).contains(x),
        with_claim(with_claim(c, bsd), bsd) == with_claim(c, bsd),
{
    let n = with_claim(c, bsd);
    if bsd.len() > 0 && !c.contains(bsd) {
        assert(n.last() == bsd);
        assert(n.contains(bsd));
        assert forall|x: Seq<char>| c.contains(x) implies #[trigger] n.contains(x) by {
            let i = choose|i: int| 0 <= i < c.len() && c[i] == x;
            assert(n[i] == x);
        }
    }
}

proof fn lemma_whole_disks_from(names: Seq<Seq<char>>, k: int)
    requires
        0 <= k < whole_disks(names).len(),
    ensures
        exists|i: int|
            0 <= i < names.len() && device::whole_disk(#[trigger] names[i]) == Some(
                whole_disks(names)[k],
            ),
    decreases names.len(),
{
    let d = names.drop_last();
    let before = whole_disks(d);
    if k < before.len() {
        lemma_whole_disks_from(d, k);
        let i = choose|i: int|
            0 <= i < d.len() && device::whole_disk(#[trigger] d[i]) == Some(before[k]);
        assert(device::whole_disk(names[i]) == Some(whole_disks(names)[k]));
    } else {
        let i = names.len() - 1;
        assert(device::whole_disk(names[i]) == Some(whole_disks(names)[k]));
    }
}

proof fn lemma_targets_from(disks: Seq<Seq<char>>, only: Option<Seq<char>>, k: int)
    requires
        0 <= k < targets(disks, only).len(),
    ensures
        exists|i: int| 0 <= i < disks.len() && #[trigger] disks[i] == targets(disks, only)[k],
    decreases disks.len(),
{
    let d = disks.drop_last();
    let before = targets(d, only);
    if k < before.len() {
        lemma_targets_from(d, only, k);
        let i = choose|i: int| 0 <= i < d.len() && #[trigger] d[i] == before[k];
        assert(disks[i] == targets(disks, only)[k]);
    } else {
        assert(disks[disks.len() - 1] == targets(disks, only)[k]);
    }
}

proof fn lemma_ejectable_from(disks: Seq<Seq<char>>, classes: Seq<OpticalClass>, k: int)
    requires
        0 <= k < ejectable(disks, classes).len(),
    ensures
        exists|i: int|
            0 <= i < disks.len() && #[trigger] disks[i] == ejectable(disks, classes)[k] && !(i
                < classes.len() && device::left_to_system(classes[i])),
    decreases disks.len(),
{
    let d = disks.drop_last();
    let before = ejectable(d, classes);
    if k < before.len() {
        lemma_ejectable_from(d, classes, k);
        let i = choose|i: int|
            0 <= i < d.len() && #[trigger] d[i] == before[k] && !(i < classes.len()
                && device::left_to_system(classes[i]));
        assert(disks[i] == ejectable(disks, classes)[k]);
    } else {
        assert(disks[disks.len() - 1] == ejectable(disks, classes)[k]);
    }
}

/// Only a disk on which something was claimed is ejected, and none that holds a
/// DVD or a CD.
pub proof fn lemma_only_claimed_ejected(
    names: Seq<Seq<char>>,
    only: Option<Seq<char>>,
    classes: Seq<OpticalClass>,
    k: int,
)
    requires
        0 <= k < ejectable(targets(whole_disks(names), only), classes).len(),
    ensures
        ({
            let disks = targets(whole_disks(names), only);
            let disk = ejectable(disks, classes)[k];
            &&& exists|i: int|
                0 <= i < names.len() && device::whole_disk(#[trigger] names[i]) == Some(disk)
            &&& exists|i: int|
                0 <= i < disks.len() && #[trigger] disks[i] == disk && !(i < classes.len()
                    && device::left_to_system(classes[i]))
        }),
{
    let disks = targets(whole_disks(names), only);
    lemma_ejectable_from(disks, classes, k);
    let i = choose|i: int|
        0 <= i < disks.len() && #[trigger] disks[i] == ejectable(disks, classes)[k] && !(i
            < classes.len() && device::left_to_system(classes[i]));
    lemma_targets_from(whole_disks(names), only, i);
    let j = choose|j: int|
        0 <= j < whole_disks(names).len() && #[trigger] whole_disks(names)[j] == disks[i];
    lemma_whole_disks_from(names, j);
}

/// After an eject no claim on an ejected disk is left, and every other claim is.
pub proof fn lemma_ejected_claims(c: Seq<Seq<char>>, disks: Seq<Seq<char>>, x: Seq<char>)
    ensures
        claims_without(c, disks).contains(x) == (c.contains(x) && !belongs_to_any(x, disks)),
    decreases c.len(),
{
    if c.len() > 0 {
        let d = c.drop_last();
        let before = claims_without(d, disks);
        let after = claims_without(c, disks);
        lemma_ejected_claims(d, disks, x);
        assert(c =~= d.push(c.last()));
        if d.contains(x) {
            let i = choose|i: int| 0 <= i < d.len() && d[i] == x;
            assert(c[i] == x);
        }
        if before.contains(x) {
            let i = choose|i: int| 0 <= i < before.len() && before[i] == x;
            assert(after[i] == x);
        }
        if after.contains(x) && !before.contains(x) {
            let i = choose|i: int| 0 <= i < after.len() && after[i] == x;
            assert(i == before.len());
            assert(c[c.len() - 1] == x);
        }
        if c.contains(x) && !d.contains(x) {
            let i = choose|i: int| 0 <= i < c.len() && c[i] == x;
            if i < d.len() {
                assert(d[i] == x);
            }
            assert(x == c.last());
            if !belongs_to_any(x, disks) {
                assert(after[before.len() as int] == x);
            }
        }
    }
}

} // verus!
