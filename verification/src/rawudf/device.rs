//! Names of raw optical devices, and the order in which they are tried.

use vstd::prelude::*;

use super::log::{Known, ReadLog, Step};
use super::volume;
use super::volume::RawUdf;
use crate::da::OpticalClass;
use crate::number;
use crate::path;
use crate::text;

verus! {

broadcast use vstd::string::group_string_axioms;

// ───────────────────────── labels ─────────────────────────

pub open spec fn label_char(c: char) -> char {
    if c == '/' || c == ':' {
        '_'
    } else {
        c
    }
}

/// A volume name that can stand as the name of a directory.
pub open spec fn sanitized(s: Seq<char>) -> Seq<char> {
    let t = text::trimmed(s.map_values(|c: char| label_char(c)));
    if t.len() == 0 {
        "BluRay"@
    } else {
        t
    }
}

pub fn sanitize_label(s: &str) -> (r: String)
    ensures
        r@ == sanitized(s@),
{
    let c = text::chars_of(s);
    let mut out: Vec<char> = Vec::new();
    let mut i: usize = 0;
    while i < c.len()
        invariant
            i <= c@.len(),
            out@ == c@.take(i as int).map_values(|c: char| label_char(c)),
        decreases c@.len() - i,
    {
        out.push(
            if c[i] == '/' || c[i] == ':' {
                '_'
            } else {
                c[i]
            },
        );
        i += 1;
        assert(out@ =~= c@.take(i as int).map_values(|c: char| label_char(c)));
    }
    assert(c@.take(i as int) =~= c@);
    let t = text::trim(out.as_slice());
    if t.len() == 0 {
        text::owned("BluRay")
    } else {
        text::string_of(t)
    }
}

// ───────────────────────── BSD names ─────────────────────────

/// How many digits `s` starts with.
pub open spec fn digit_run(s: Seq<char>) -> nat
    decreases s.len(),
{
    if s.len() > 0 && number::is_digit(s[0]) {
        1 + digit_run(s.skip(1))
    } else {
        0
    }
}

/// The whole disk that a BSD name belongs to: `disk6` of `disk6` and `disk6s1`.
pub open spec fn whole_disk(id: Seq<char>) -> Option<Seq<char>> {
    if "disk"@.is_prefix_of(id) {
        let rest = id.skip(4);
        if digit_run(rest) == 0 {
            None
        } else {
            Some("disk"@ + rest.take(digit_run(rest) as int))
        }
    } else {
        None
    }
}

fn count_digits(s: &[char]) -> (r: usize)
    ensures
        r == digit_run(s@),
        r <= s@.len(),
{
    let mut i: usize = 0;
    assert(s@.skip(0) =~= s@);
    while i < s.len() && number::is_ascii_digit(s[i])
        invariant
            i <= s@.len(),
            digit_run(s@) == i + digit_run(s@.skip(i as int)),
        decreases s@.len() - i,
    {
        assert(s@.skip(i as int)[0] == s@[i as int]);
        assert(s@.skip(i as int).skip(1) =~= s@.skip(i + 1));
        i += 1;
    }
    assert(i < s@.len() ==> s@.skip(i as int)[0] == s@[i as int]);
    i
}

/// The whole disk of the BSD name `id`. The `s` of `disk` is no slice.
pub fn bsd_whole_disk(id: &str) -> (r: Option<String>)
    ensures
        match r {
            Some(w) => whole_disk(id@) == Some(w@),
            None => whole_disk(id@) is None,
        },
{
    proof {
        reveal_strlit("disk");
    }
    let c = text::chars_of(id);
    let disk = text::chars_of("disk");
    match text::strip_prefix(c.as_slice(), disk.as_slice()) {
        None => None,
        Some(rest) => {
            let n: usize = count_digits(rest);
            if n == 0 {
                return None;
            }
            let mut out = text::chars_of("disk");
            out.extend_from_slice(&rest[0..n]);
            assert(out@ =~= "disk"@ + rest@.take(n as int));
            Some(text::string_of(out.as_slice()))
        },
    }
}

/// The last name of a path, or nothing.
pub open spec fn node_name(p: Seq<char>) -> Seq<char> {
    match path::file_name(p) {
        Some(n) => n,
        None => Seq::empty(),
    }
}

/// The name without the `r` of a raw node.
pub open spec fn block_name(p: Seq<char>) -> Seq<char> {
    text::without_prefixes(node_name(p), "r"@)
}

/// The whole disk that a device node belongs to.
pub open spec fn node_disk(p: Seq<char>) -> Option<Seq<char>> {
    match whole_disk(block_name(p)) {
        Some(w) => Some(w),
        None => whole_disk(node_name(p)),
    }
}

/// Two paths name the same optical disk.
pub open spec fn same_device(a: Seq<char>, b: Seq<char>) -> bool {
    ||| path::comps(a) == path::comps(b)
    ||| match (node_disk(a), node_disk(b)) {
        (Some(x), Some(y)) => x == y,
        _ => block_name(a) == block_name(b),
    }
}

fn node_name_of(p: &str) -> (r: String)
    ensures
        r@ == node_name(p@),
{
    match path::path_file_name(p) {
        Some(n) => n,
        None => {
            let s = String::new();
            assert(s@ =~= Seq::<char>::empty());
            s
        },
    }
}

fn block_name_of(p: &str) -> (r: String)
    ensures
        r@ == block_name(p@),
{
    let n = text::chars_of(node_name_of(p).as_str());
    let raw = text::chars_of("r");
    text::string_of(text::trim_start_matches(n.as_slice(), raw.as_slice()))
}

fn node_disk_of(p: &str) -> (r: Option<String>)
    ensures
        match r {
            Some(w) => node_disk(p@) == Some(w@),
            None => node_disk(p@) is None,
        },
{
    match bsd_whole_disk(block_name_of(p).as_str()) {
        Some(w) => Some(w),
        None => bsd_whole_disk(node_name_of(p).as_str()),
    }
}

/// Two paths name the same whole optical disk (`/dev/rdisk6` and `disk6`).
pub fn devices_match(a: &str, b: &str) -> (r: bool)
    ensures
        r == same_device(a@, b@),
{
    if path::path_eq(a, b) {
        return true;
    }
    match (node_disk_of(a), node_disk_of(b)) {
        (Some(x), Some(y)) => text::str_same(x.as_str(), y.as_str()),
        _ => text::str_same(block_name_of(a).as_str(), block_name_of(b).as_str()),
    }
}

/// One of `list` names the same disk as `dev`.
pub open spec fn any_same_device(dev: Seq<char>, list: Seq<Seq<char>>) -> bool {
    exists|i: int| 0 <= i < list.len() && same_device(dev, #[trigger] list[i])
}

pub fn matches_any(dev: &str, list: &[String]) -> (r: bool)
    ensures
        r == any_same_device(dev@, text::strs(list@)),
{
    let mut i: usize = 0;
    while i < list.len()
        invariant
            i <= list@.len(),
            forall|j: int| 0 <= j < i ==> !same_device(dev@, #[trigger] text::strs(list@)[j]),
        decreases list@.len() - i,
    {
        if devices_match(dev, list[i].as_str()) {
            assert(same_device(dev@, text::strs(list@)[i as int]));
            return true;
        }
        i += 1;
    }
    false
}

// ───────────────────────── raw nodes ─────────────────────────

/// `list` with `p` behind it, unless it holds that path.
pub open spec fn with_path(list: Seq<Seq<char>>, p: Seq<char>) -> Seq<Seq<char>> {
    if path::has_path(list, p) {
        list
    } else {
        list.push(p)
    }
}

/// `list` with the paths of `more` that it does not hold behind it.
pub open spec fn with_paths(list: Seq<Seq<char>>, more: Seq<Seq<char>>) -> Seq<Seq<char>>
    decreases more.len(),
{
    if more.len() == 0 {
        list
    } else {
        with_path(with_paths(list, more.drop_last()), more.last())
    }
}

/// The raw nodes of a BSD name: its own, the whole disk's and the first
/// slice's. The system disk has none.
pub open spec fn raw_nodes(bsd: Seq<char>) -> Seq<Seq<char>> {
    match whole_disk(bsd) {
        None => Seq::empty(),
        Some(w) => if w == "disk0"@ {
            Seq::empty()
        } else {
            with_path(with_path(seq!["/dev/r"@ + bsd], "/dev/r"@ + w), "/dev/r"@ + w + "s1"@)
        },
    }
}

fn push_new(list: &mut Vec<String>, p: String)
    ensures
        text::strs(final(list)@) == with_path(text::strs(old(list)@), p@),
{
    broadcast use text::lemma_strs_push;

    if !path::list_has_path(list.as_slice(), p.as_str()) {
        list.push(p);
    }
}

/// Whole-disk and first-slice raw nodes for a BSD name (`disk6` or `disk6s1`).
pub fn rdisk_paths_for_bsd(bsd: &str) -> (r: Vec<String>)
    ensures
        text::strs(r@) == raw_nodes(bsd@),
{
    broadcast use text::lemma_strs_push;

    let mut v: Vec<String> = Vec::new();
    assert(text::strs(v@) =~= Seq::<Seq<char>>::empty());
    let whole = match bsd_whole_disk(bsd) {
        None => {
            return v;
        },
        Some(w) => w,
    };
    if text::str_same(whole.as_str(), "disk0") {
        return v;
    }
    v.push(text::concat("/dev/r", bsd));
    assert(text::strs(v@) =~= seq!["/dev/r"@ + bsd@]);
    let whole_path = text::concat("/dev/r", whole.as_str());
    let slice = text::concat(whole_path.as_str(), "s1");
    push_new(&mut v, whole_path);
    push_new(&mut v, slice);
    v
}

/// An optical medium in a listing of the system's disks, with its class.
pub struct OpticalNode {
    pub id: String,
    pub class: OpticalClass,
}

/// The system keeps CDs and DVDs.
pub open spec fn left_to_system(class: OpticalClass) -> bool {
    class == OpticalClass::Dvd || class == OpticalClass::Cd
}

/// The raw nodes behind `list` of the media from `nodes` that are not left to
/// the system.
pub open spec fn with_nodes(list: Seq<Seq<char>>, nodes: Seq<OpticalNode>) -> Seq<Seq<char>>
    decreases nodes.len(),
{
    if nodes.len() == 0 {
        list
    } else {
        let before = with_nodes(list, nodes.drop_last());
        if left_to_system(nodes.last().class) {
            before
        } else {
            with_paths(before, raw_nodes(nodes.last().id@))
        }
    }
}

/// The raw nodes behind `list` of the BSD names `ids`.
pub open spec fn with_ids(list: Seq<Seq<char>>, ids: Seq<Seq<char>>) -> Seq<Seq<char>>
    decreases ids.len(),
{
    if ids.len() == 0 {
        list
    } else {
        with_paths(with_ids(list, ids.drop_last()), raw_nodes(ids.last()))
    }
}

fn push_nodes(list: &mut Vec<String>, bsd: &str)
    ensures
        text::strs(final(list)@) == with_paths(text::strs(old(list)@), raw_nodes(bsd@)),
{
    let more = rdisk_paths_for_bsd(bsd);
    let ghost start = text::strs(list@);
    let ghost m = text::strs(more@);
    let mut i: usize = 0;
    assert(m.take(0) =~= Seq::<Seq<char>>::empty());
    while i < more.len()
        invariant
            i <= more@.len(),
            m == text::strs(more@),
            text::strs(list@) == with_paths(start, m.take(i as int)),
        decreases more@.len() - i,
    {
        assert(m.take(i + 1).drop_last() =~= m.take(i as int));
        assert(m.take(i + 1).last() == more@[i as int]@);
        push_new(list, text::owned(more[i].as_str()));
        i += 1;
    }
    assert(m.take(i as int) =~= m);
}

/// The raw nodes that may hold a Blu-ray: those of the claimed disks, then those
/// of the optical media in the system's listing that are not left to it.
pub fn find_optical_rdisks(claimed: &[String], listed: &[OpticalNode]) -> (r: Vec<String>)
    ensures
        text::strs(r@) == with_nodes(with_ids(Seq::empty(), text::strs(claimed@)), listed@),
{
    let mut v: Vec<String> = Vec::new();
    let ghost ids = text::strs(claimed@);
    assert(text::strs(v@) =~= Seq::<Seq<char>>::empty());
    assert(ids.take(0) =~= Seq::<Seq<char>>::empty());
    let mut i: usize = 0;
    while i < claimed.len()
        invariant
            i <= claimed@.len(),
            ids == text::strs(claimed@),
            text::strs(v@) == with_ids(Seq::empty(), ids.take(i as int)),
        decreases claimed@.len() - i,
    {
        assert(ids.take(i + 1).drop_last() =~= ids.take(i as int));
        assert(ids.take(i + 1).last() == claimed@[i as int]@);
        push_nodes(&mut v, claimed[i].as_str());
        i += 1;
    }
    assert(ids.take(i as int) =~= ids);
    let ghost start = text::strs(v@);
    assert(listed@.take(0) =~= Seq::<OpticalNode>::empty());
    let mut k: usize = 0;
    while k < listed.len()
        invariant
            k <= listed@.len(),
            text::strs(v@) == with_nodes(start, listed@.take(k as int)),
        decreases listed@.len() - k,
    {
        assert(listed@.take(k + 1).drop_last() =~= listed@.take(k as int));
        assert(listed@.take(k + 1).last() == listed@[k as int]);
        match listed[k].class {
            OpticalClass::Dvd | OpticalClass::Cd => {},
            OpticalClass::BluRay | OpticalClass::Unknown => {
                push_nodes(&mut v, listed[k].id.as_str());
            },
        }
        k += 1;
    }
    assert(listed@.take(k as int) =~= listed@);
    v
}

/// A line of the system's listing that stands for an optical medium.
pub open spec fn optical_line(line: Seq<char>) -> bool {
    ||| text::contains(line, "CD_partition"@)
    ||| text::contains(line, "CD_ROM"@)
    ||| text::contains(line, "DVD_"@)
    ||| text::contains(line, "BD_"@)
    ||| text::contains(line, "Apple_UDF"@)
    ||| text::contains(line, "CD_partition_scheme"@)
}

/// The last word of each optical line of `lines`.
pub open spec fn optical_ids(lines: Seq<Seq<char>>) -> Seq<Seq<char>>
    decreases lines.len(),
{
    if lines.len() == 0 {
        Seq::empty()
    } else {
        let before = optical_ids(lines.drop_last());
        let w = text::words(lines.last(), text::Separator::Space);
        if optical_line(lines.last()) && w.len() > 0 {
            before.push(w.last())
        } else {
            before
        }
    }
}

pub fn is_optical_line(line: &[char]) -> (r: bool)
    ensures
        r == optical_line(line@),
{
    text::has(line, text::chars_of("CD_partition").as_slice()) || text::has(
        line,
        text::chars_of("CD_ROM").as_slice(),
    ) || text::has(line, text::chars_of("DVD_").as_slice()) || text::has(
        line,
        text::chars_of("BD_").as_slice(),
    ) || text::has(line, text::chars_of("Apple_UDF").as_slice()) || text::has(
        line,
        text::chars_of("CD_partition_scheme").as_slice(),
    )
}

/// The identifiers of the optical media in the output of `diskutil list`.
pub fn diskutil_optical_ids(listing: &str) -> (r: Vec<String>)
    ensures
        text::strs(r@) == optical_ids(text::line_seq(listing@)),
{
    broadcast use text::lemma_strs_push;

    let c = text::chars_of(listing);
    let lines = text::lines(c.as_slice());
    let ghost all = text::texts(lines@);
    let mut out: Vec<String> = Vec::new();
    assert(text::strs(out@) =~= Seq::<Seq<char>>::empty());
    assert(all.take(0) =~= Seq::<Seq<char>>::empty());
    let mut i: usize = 0;
    while i < lines.len()
        invariant
            i <= lines@.len(),
            all == text::texts(lines@),
            text::strs(out@) == optical_ids(all.take(i as int)),
        decreases lines@.len() - i,
    {
        assert(all.take(i + 1).drop_last() =~= all.take(i as int));
        assert(all.take(i + 1).last() == lines@[i as int]@);
        if is_optical_line(lines[i].as_slice()) {
            let w = text::split_words(lines[i].as_slice(), text::Separator::Space);
            if w.len() > 0 {
                let last = text::string_of(w[w.len() - 1].as_slice());
                assert(text::texts(w@).last() == last@);
                let ghost before = text::strs(out@);
                out.push(last);
                assert(text::strs(out@) == before.push(last@));
            }
        }
        i += 1;
    }
    assert(all.take(i as int) =~= all);
    out
}

/// The buffered node beside a raw one: `/dev/disk6` for `/dev/rdisk6`.
pub open spec fn buffered_node(rdisk: Seq<char>) -> Option<Seq<char>> {
    match path::file_name(rdisk) {
        Some(n) => if n.len() > 0 && n[0] == 'r' {
            Some(path::renamed(rdisk, n.skip(1)))
        } else {
            None
        },
        None => None,
    }
}

/// Where payload may be read through the buffer cache, if the device there has
/// the geometry of optical media.
pub fn payload_path(rdisk: &str) -> (r: Option<String>)
    ensures
        match r {
            Some(p) => buffered_node(rdisk@) == Some(p@),
            None => buffered_node(rdisk@) is None,
        },
{
    match path::path_file_name(rdisk) {
        None => None,
        Some(n) => {
            let c = text::chars_of(n.as_str());
            if c.len() == 0 || c[0] != 'r' {
                return None;
            }
            let rest = &c.as_slice()[1..c.len()];
            assert(rest@ =~= c@.skip(1));
            Some(path::with_file_name(rdisk, text::string_of(rest).as_str()))
        },
    }
}

/// Whether the buffered node takes over the payload: its block size could be
/// asked for and is that of optical media.
pub fn payload_is_buffered(block_size: Option<u32>) -> (r: bool)
    ensures
        r == (block_size == Some(2048u32)),
{
    match block_size {
        Some(n) => n == 2048,
        None => false,
    }
}

// ───────────────────────── probing ─────────────────────────

/// Whether the volume on `device` is a Blu-ray: it opens and holds the index.
pub open spec fn probed(m: Known, device: Seq<char>) -> Step<()> {
    match volume::opened(m, device) {
        Step::Need(q) => Step::Need(q),
        Step::Fail(e) => Step::Fail(e),
        Step::Done(v) => match v.lookup(m, "BDMV/index.bdmv"@) {
            Step::Need(q) => Step::Need(q),
            Step::Fail(e) => Step::Fail(e),
            Step::Done(_) => Step::Done(()),
        },
    }
}

pub fn try_bd(device: &str, log: &ReadLog) -> (r: Step<()>)
    ensures
        r == probed(log@, device@),
{
    match RawUdf::open(device, log) {
        Step::Need(q) => Step::Need(q),
        Step::Fail(e) => Step::Fail(e),
        Step::Done(u) => match u.lookup(log, "BDMV/index.bdmv") {
            Step::Need(q) => Step::Need(q),
            Step::Fail(e) => Step::Fail(e),
            Step::Done(_) => Step::Done(()),
        },
    }
}

/// What to do next in a search for a Blu-ray.
pub enum Search {
    /// This device is one.
    Found(String),
    /// Ask this device, and add the answer.
    Probe(String),
    /// Ask all of them again after a pause.
    Again,
    /// There is none.
    Nothing,
}

pub enum SearchView {
    Found(Seq<char>),
    Probe(Seq<char>),
    Again,
    Nothing,
}

impl View for Search {
    type V = SearchView;

    open spec fn view(&self) -> SearchView {
        match *self {
            Search::Found(p) => SearchView::Found(p@),
            Search::Probe(p) => SearchView::Probe(p@),
            Search::Again => SearchView::Again,
            Search::Nothing => SearchView::Nothing,
        }
    }
}

/// The device is among those asked for, and not among those to be skipped.
pub open spec fn eligible(dev: Seq<char>, skip: Seq<Seq<char>>, only: Seq<Seq<char>>) -> bool {
    (only.len() == 0 || any_same_device(dev, only)) && !any_same_device(dev, skip)
}

/// The devices that a pass asks, in order.
pub open spec fn asked(
    devices: Seq<Seq<char>>,
    skip: Seq<Seq<char>>,
    only: Seq<Seq<char>>,
) -> Seq<Seq<char>> {
    devices.filter(|d: Seq<char>| eligible(d, skip, only))
}

/// The next step of a pass over `devices`, of which the first ones gave
/// `answers`: the first that said yes, or the next to ask, or `rest` once all
/// said no.
pub open spec fn pass(
    devices: Seq<Seq<char>>,
    answers: Seq<bool>,
    rest: SearchView,
) -> SearchView
    decreases devices.len(),
{
    if devices.len() == 0 {
        rest
    } else if answers.len() == 0 {
        SearchView::Probe(devices[0])
    } else if answers[0] {
        SearchView::Found(devices[0])
    } else {
        pass(devices.skip(1), answers.skip(1), rest)
    }
}

fn run_pass(devices: &[String], answers: &[bool], rest: Search) -> (r: Search)
    ensures
        r@ == pass(text::strs(devices@), answers@, rest@),
{
    let ghost d = text::strs(devices@);
    let mut i: usize = 0;
    assert(d.skip(0) =~= d);
    assert(answers@.skip(0) =~= answers@);
    while i < devices.len()
        invariant
            i <= devices@.len(),
            i <= answers@.len(),
            d == text::strs(devices@),
            pass(d, answers@, rest@) == pass(d.skip(i as int), answers@.skip(i as int), rest@),
        decreases devices@.len() - i,
    {
        assert(d.skip(i as int)[0] == devices@[i as int]@);
        assert(d.skip(i as int).skip(1) =~= d.skip(i + 1));
        if i >= answers.len() {
            return Search::Probe(text::owned(devices[i].as_str()));
        }
        assert(answers@.skip(i as int)[0] == answers@[i as int]);
        assert(answers@.skip(i as int).skip(1) =~= answers@.skip(i + 1));
        if answers[i] {
            return Search::Found(text::owned(devices[i].as_str()));
        }
        i += 1;
    }
    rest
}

fn select(devices: &[String], skip: &[String], only: &[String]) -> (r: Vec<String>)
    ensures
        text::strs(r@) == asked(text::strs(devices@), text::strs(skip@), text::strs(only@)),
{
    broadcast use text::lemma_strs_push;

    let ghost d = text::strs(devices@);
    let ghost keep = |x: Seq<char>| eligible(x, text::strs(skip@), text::strs(only@));
    let mut out: Vec<String> = Vec::new();
    let mut i: usize = 0;
    assert(text::strs(out@) =~= d.take(0).filter(keep)) by {
        reveal(Seq::filter);
    }
    while i < devices.len()
        invariant
            i <= devices@.len(),
            d == text::strs(devices@),
            keep == (|x: Seq<char>| eligible(x, text::strs(skip@), text::strs(only@))),
            text::strs(out@) == d.take(i as int).filter(keep),
        decreases devices@.len() - i,
    {
        proof {
            reveal(Seq::filter);
            assert(d.take(i + 1).drop_last() =~= d.take(i as int));
            assert(d.take(i + 1).last() == devices@[i as int]@);
            assert(text::strs(only@).len() == only@.len());
        }
        let dev = devices[i].as_str();
        if (only.len() == 0 || matches_any(dev, only)) && !matches_any(dev, skip) {
            let ghost before = text::strs(out@);
            let one = text::owned(devices[i].as_str());
            out.push(one);
            assert(text::strs(out@) == before.push(one@));
        }
        i += 1;
    }
    assert(d.take(i as int) =~= d);
    out
}

/// One pass: the first of `devices` that is a Blu-ray, is not in `skip` and, if
/// `only` names any, is in `only`. `answers` are those of the devices asked so
/// far.
pub fn poll_bd_rdisk(
    devices: &[String],
    answers: &[bool],
    skip: &[String],
    only: &[String],
) -> (r: Search)
    ensures
        r@ == pass(
            asked(text::strs(devices@), text::strs(skip@), text::strs(only@)),
            answers@,
            SearchView::Nothing,
        ),
{
    let chosen = select(devices, skip, only);
    run_pass(chosen.as_slice(), answers, Search::Nothing)
}

/// The search for a disc that was taken over from the system: its raw nodes are
/// asked again and again. The time limit is looked at before each pass.
pub fn open_bd_rdisk_for_bsd(bsd: &str, answers: &[bool], expired: bool) -> (r: Search)
    ensures
        r@ == if answers@.len() == 0 && expired {
            SearchView::Nothing
        } else {
            pass(raw_nodes(bsd@), answers@, SearchView::Again)
        },
{
    if answers.len() == 0 && expired {
        return Search::Nothing;
    }
    let nodes = rdisk_paths_for_bsd(bsd);
    run_pass(nodes.as_slice(), answers, Search::Again)
}

/// How long a claimed disc may go without a readable index, in milliseconds.
pub const CLAIMED_LIMIT_MS: u64 = 120_000;

/// Since when there is a claimed disc.
pub fn claimed_since(any_claimed: bool, since: Option<u64>, now_ms: u64) -> (r: Option<u64>)
    ensures
        r == if !any_claimed {
            None
        } else if since is None {
            Some(now_ms)
        } else {
            since
        },
{
    if !any_claimed {
        None
    } else if since.is_none() {
        Some(now_ms)
    } else {
        since
    }
}

/// The wait for a Blu-ray on any raw optical device. It has no end, except that
/// a disc that was claimed and not found readable is given up after a while.
pub fn wait_for_bd_rdisk(
    devices: &[String],
    answers: &[bool],
    since: Option<u64>,
    now_ms: u64,
) -> (r: Search)
    ensures
        r@ == pass(
            text::strs(devices@),
            answers@,
            if since matches Some(t) && now_ms - t >= CLAIMED_LIMIT_MS {
                SearchView::Nothing
            } else {
                SearchView::Again
            },
        ),
        since matches Some(t) && now_ms >= t + 120_000 ==> !(r@ is Again),
        !(since matches Some(t) && now_ms >= t + 120_000) ==> !(r@ is Nothing),
{
    proof {
        lemma_pass_rest(text::strs(devices@), answers@, SearchView::Nothing);
        lemma_pass_rest(text::strs(devices@), answers@, SearchView::Again);
    }
    let late = match since {
        Some(t) => now_ms >= t && now_ms - t >= CLAIMED_LIMIT_MS,
        None => false,
    };
    if late {
        run_pass(devices, answers, Search::Nothing)
    } else {
        run_pass(devices, answers, Search::Again)
    }
}

proof fn lemma_pass_rest(devices: Seq<Seq<char>>, answers: Seq<bool>, rest: SearchView)
    ensures
        ({
            let p = pass(devices, answers, rest);
            p is Found || p is Probe || p == rest
        }),
    decreases devices.len(),
{
    if devices.len() > 0 && answers.len() > 0 && !answers[0] {
        lemma_pass_rest(devices.skip(1), answers.skip(1), rest);
    }
}

// ───────────────────────── laws ─────────────────────────

/// A disk is the same device as itself, whichever way it is asked.
pub proof fn lemma_same_device_symmetric(a: Seq<char>, b: Seq<char>)
    ensures
        same_device(a, a),
        same_device(a, b) == same_device(b, a),
{
}

proof fn lemma_digit_run_take(s: Seq<char>, n: int)
    requires
        n == digit_run(s),
    ensures
        n <= s.len(),
        digit_run(s.take(n)) == n,
    decreases s.len(),
{
    if s.len() > 0 && number::is_digit(s[0]) {
        lemma_digit_run_take(s.skip(1), n - 1);
        assert(s.take(n).skip(1) =~= s.skip(1).take(n - 1));
        assert(s.take(n)[0] == s[0]);
    }
}

/// The whole disk of a whole disk is itself.
pub proof fn lemma_whole_disk_idempotent(id: Seq<char>)
    ensures
        match whole_disk(id) {
            Some(w) => whole_disk(w) == Some(w),
            None => true,
        },
{
    reveal_strlit("disk");
    if let Some(w) = whole_disk(id) {
        let rest = id.skip(4);
        let n = digit_run(rest) as int;
        lemma_digit_run_take(rest, n);
        assert(w.skip(4) =~= rest.take(n));
        assert("disk"@.is_prefix_of(w)) by {
            assert(w.take(4) =~= "disk"@);
        }
        assert(rest.take(n).take(n) =~= rest.take(n));
    }
}

proof fn lemma_pass_member(devices: Seq<Seq<char>>, answers: Seq<bool>, rest: SearchView)
    requires
        !(rest is Found),
    ensures
        match pass(devices, answers, rest) {
            SearchView::Found(p) => exists|i: int|
                0 <= i < devices.len() && i < answers.len() && #[trigger] answers[i] && devices[i]
                    == p,
            _ => true,
        },
    decreases devices.len(),
{
    if devices.len() > 0 && answers.len() > 0 && !answers[0] {
        lemma_pass_member(devices.skip(1), answers.skip(1), rest);
        if let SearchView::Found(p) = pass(devices, answers, rest) {
            let i = choose|i: int|
                0 <= i < devices.skip(1).len() && i < answers.skip(1).len()
                    && #[trigger] answers.skip(1)[i] && devices.skip(1)[i] == p;
            assert(answers[i + 1] && devices[i + 1] == p);
        }
    } else if devices.len() > 0 && answers.len() > 0 {
        assert(answers[0] && devices[0] == devices[0]);
    }
}

/// A search only finds a device that was listed, that answered yes, that is
/// asked for, and that is not to be skipped.
pub proof fn lemma_poll_found(
    devices: Seq<Seq<char>>,
    answers: Seq<bool>,
    skip: Seq<Seq<char>>,
    only: Seq<Seq<char>>,
)
    ensures
        match pass(asked(devices, skip, only), answers, SearchView::Nothing) {
            SearchView::Found(p) => devices.contains(p) && eligible(p, skip, only),
            _ => true,
        },
{
    let chosen = asked(devices, skip, only);
    lemma_pass_member(chosen, answers, SearchView::Nothing);
    if let SearchView::Found(p) = pass(chosen, answers, SearchView::Nothing) {
        let i = choose|i: int|
            0 <= i < chosen.len() && i < answers.len() && #[trigger] answers[i] && chosen[i] == p;
        assert(chosen.contains(p));
        devices.lemma_filter_contains_rev(|d: Seq<char>| eligible(d, skip, only), p);
    }
}

/// A label that was made safe is one name: it is not empty and holds no
/// separator.
pub proof fn lemma_sanitized_is_one_name(s: Seq<char>)
    ensures
        sanitized(s).len() > 0,
        forall|i: int| 0 <= i < sanitized(s).len() ==> #[trigger] sanitized(s)[i] != '/'
            && sanitized(s)[i] != ':',
{
    reveal_strlit("BluRay");
    let m = s.map_values(|c: char| label_char(c));
    let t = text::trimmed(m);
    text::lemma_trim_front_part(m);
    text::lemma_trim_back_part(text::trim_front(m));
    assert forall|i: int| 0 <= i < sanitized(s).len() implies #[trigger] sanitized(s)[i] != '/'
        && sanitized(s)[i] != ':' by {
        if t.len() > 0 {
            let f = text::trim_front(m);
            assert(t[i] == f[i]);
            assert(f[i] == m[m.len() - f.len() + i]);
        }
    }
}

} // verus!
