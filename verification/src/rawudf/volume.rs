//! A UDF volume on a raw device.
//!
//! The reader never touches `/Volumes`. Authored discs put their file set in a
//! metadata partition and number their partitions from one, so the partition
//! maps are followed rather than the partition numbers.

use vstd::prelude::*;

use super::descriptor;
use super::descriptor::{FileEntry, Icb, Partition};
use super::log;
use super::log::{Known, ReadLog, Step, UdfError, SECTOR};
use super::space;
use super::space::{DirEntry, Space, SpaceView};
use crate::text;

verus! {

broadcast use vstd::string::group_string_axioms;

/// Bytes that are read ahead of a sequential reader.
pub const PREFETCH_WINDOW: u64 = 16_777_216;

// ───────────────────────── the volume descriptor sequence ─────────────────────────

/// What was found in a volume descriptor sequence.
pub struct Sequence {
    pub primary: Option<String>,
    pub partitions: Vec<Partition>,
    /// The sector of the last Logical Volume Descriptor.
    pub logical: Option<Vec<u8>>,
}

pub struct SequenceView {
    pub primary: Option<Seq<char>>,
    pub partitions: Seq<Partition>,
    pub logical: Option<Seq<u8>>,
}

impl View for Sequence {
    type V = SequenceView;

    open spec fn view(&self) -> SequenceView {
        SequenceView {
            primary: match self.primary {
                Some(p) => Some(p@),
                None => None,
            },
            partitions: self.partitions@,
            logical: match self.logical {
                Some(l) => Some(l@),
                None => None,
            },
        }
    }
}

/// Takes in the sectors `first + i` up to `first + max`, or up to the
/// terminating descriptor. Of several primary or logical descriptors the last
/// one counts.
pub open spec fn scanned(m: Known, first: int, i: int, max: int, s: SequenceView) -> Step<
    SequenceView,
>
    decreases max - i,
{
    if i >= max {
        Step::Done(s)
    } else {
        match log::sector(m, first + i) {
            Step::Need(q) => Step::Need(q),
            Step::Fail(e) => Step::Fail(e),
            Step::Done(b) => {
                let id = descriptor::le16(b, 0);
                if id == descriptor::PRIMARY_VOLUME {
                    match descriptor::primary_of(b) {
                        None => Step::Fail(UdfError::BadPrimary),
                        Some(p) => scanned(
                            m,
                            first,
                            i + 1,
                            max,
                            SequenceView { primary: Some(p), ..s },
                        ),
                    }
                } else if id == descriptor::PARTITION {
                    match descriptor::partition_of(b) {
                        None => Step::Fail(UdfError::BadPartition),
                        Some(p) => scanned(
                            m,
                            first,
                            i + 1,
                            max,
                            SequenceView { partitions: s.partitions.push(p), ..s },
                        ),
                    }
                } else if id == descriptor::LOGICAL_VOLUME {
                    match descriptor::logical_of(b) {
                        None => Step::Fail(UdfError::BadLogical),
                        Some(_) => scanned(
                            m,
                            first,
                            i + 1,
                            max,
                            SequenceView { logical: Some(b), ..s },
                        ),
                    }
                } else if id == descriptor::TERMINATING {
                    Step::Done(s)
                } else {
                    scanned(m, first, i + 1, max, s)
                }
            },
        }
    }
}

pub open spec fn no_descriptors() -> SequenceView {
    SequenceView { primary: None, partitions: Seq::empty(), logical: None }
}

fn scan(log: &ReadLog, first: u32, max: u64) -> (r: Step<Sequence>)
    requires
        max <= u32::MAX,
    ensures
        r@ == scanned(log@, first as int, 0, max as int, no_descriptors()),
        r matches Step::Done(s) ==> (s.logical matches Some(b) ==> b@.len() == 2048
            && descriptor::logical_of(b@) is Some),
{
    let mut s = Sequence { primary: None, partitions: Vec::new(), logical: None };
    let ghost all = scanned(log@, first as int, 0, max as int, no_descriptors());
    assert(s@.partitions =~= Seq::<Partition>::empty());
    let mut i: u64 = 0;
    while i < max
        invariant
            i <= max <= u32::MAX,
            all == scanned(log@, first as int, 0, max as int, no_descriptors()),
            all == scanned(log@, first as int, i as int, max as int, s@),
            s.logical matches Some(b) ==> b@.len() == 2048 && descriptor::logical_of(b@) is Some,
        decreases max - i,
    {
        let b = match log::read_sector(log, first as u64 + i) {
            Step::Need(q) => {
                return Step::Need(q);
            },
            Step::Fail(e) => {
                return Step::Fail(e);
            },
            Step::Done(b) => b,
        };
        let id: u16 = descriptor::u16_at(b.as_slice(), 0);
        let ghost before = s@;
        if id == descriptor::PRIMARY_VOLUME {
            match descriptor::primary(b.as_slice()) {
                Err(e) => {
                    return Step::Fail(e);
                },
                Ok(p) => {
                    s.primary = Some(p);
                },
            }
            assert(s@ == SequenceView { primary: s@.primary, ..before });
        } else if id == descriptor::PARTITION {
            match descriptor::partition(b.as_slice()) {
                Err(e) => {
                    return Step::Fail(e);
                },
                Ok(p) => {
                    s.partitions.push(p);
                },
            }
            assert(s@ == SequenceView { partitions: s@.partitions, ..before });
        } else if id == descriptor::LOGICAL_VOLUME {
            match descriptor::logical(b.as_slice()) {
                Err(e) => {
                    return Step::Fail(e);
                },
                Ok(_) => {
                    s.logical = Some(b);
                },
            }
            assert(s@ == SequenceView { logical: s@.logical, ..before });
        } else if id == descriptor::TERMINATING {
            return Step::Done(s);
        }
        i += 1;
    }
    Step::Done(s)
}

// ───────────────────────── the volume ─────────────────────────

/// What is known of a file: its length, and where its bytes are.
pub struct FileMeta {
    pub size: u64,
    /// First byte on the device, and length.
    pub extents: Vec<(u64, u32)>,
    /// The file's bytes, where its File Entry holds them.
    pub embedded: Option<Vec<u8>>,
}

pub struct FileMetaView {
    pub size: u64,
    pub extents: Seq<(u64, u32)>,
    pub embedded: Option<Seq<u8>>,
}

impl View for FileMeta {
    type V = FileMetaView;

    open spec fn view(&self) -> FileMetaView {
        FileMetaView {
            size: self.size,
            extents: self.extents@,
            embedded: match self.embedded {
                Some(b) => Some(b@),
                None => None,
            },
        }
    }
}

impl FileMeta {
    fn copy(&self) -> (r: FileMeta)
        ensures
            r@ == self@,
    {
        let extents = vstd::slice::slice_to_vec(self.extents.as_slice());
        let embedded = match &self.embedded {
            Some(b) => Some(vstd::slice::slice_to_vec(b.as_slice())),
            None => None,
        };
        FileMeta { size: self.size, extents, embedded }
    }
}

/// A stretch of a file that was read ahead.
pub struct Ahead {
    pub rel: String,
    pub off: u64,
    pub buf: Vec<u8>,
}

pub struct AheadView {
    pub rel: Seq<char>,
    pub off: u64,
    pub buf: Seq<u8>,
}

impl View for Ahead {
    type V = AheadView;

    open spec fn view(&self) -> AheadView {
        AheadView { rel: self.rel@, off: self.off, buf: self.buf@ }
    }
}

pub open spec fn ahead_view(a: Option<Ahead>) -> Option<AheadView> {
    match a {
        Some(x) => Some(x@),
        None => None,
    }
}

/// The files that were looked up, by path.
pub open spec fn files_map(files: Seq<(String, FileMeta)>) -> Map<Seq<char>, FileMetaView>
    decreases files.len(),
{
    if files.len() == 0 {
        Map::empty()
    } else {
        files_map(files.drop_last()).insert(files.last().0@, files.last().1@)
    }
}

pub struct RawUdf {
    pub spaces: Vec<Option<Space>>,
    pub root_icb: Icb,
    pub label: String,
    pub device: String,
    pub files: Vec<(String, FileMeta)>,
    pub ahead: Option<Ahead>,
    pub next: Option<Ahead>,
}

#[verifier::ext_equal]
pub struct RawUdfView {
    pub spaces: Seq<Option<SpaceView>>,
    pub root_icb: Icb,
    pub label: Seq<char>,
    pub device: Seq<char>,
    pub files: Map<Seq<char>, FileMetaView>,
    pub ahead: Option<AheadView>,
    pub next: Option<AheadView>,
}

impl View for RawUdf {
    type V = RawUdfView;

    open spec fn view(&self) -> RawUdfView {
        RawUdfView {
            spaces: space::space_views(self.spaces@),
            root_icb: self.root_icb,
            label: self.label@,
            device: self.device@,
            files: files_map(self.files@),
            ahead: ahead_view(self.ahead),
            next: ahead_view(self.next),
        }
    }
}

pub open spec fn window_ok(w: Option<AheadView>) -> bool {
    match w {
        Some(a) => a.off + a.buf.len() <= u64::MAX,
        None => true,
    }
}

impl RawUdfView {
    /// All numbers are within the bounds that a volume's descriptors give.
    pub open spec fn wf(self) -> bool {
        &&& space::spaces_ok(self.spaces)
        &&& forall|rel: Seq<char>| #[trigger]
            self.files.dom().contains(rel) ==> space::runs_ok(self.files[rel].extents)
        &&& window_ok(self.ahead)
        &&& window_ok(self.next)
    }
}

/// The name of a volume; one that is blank gets a stock name.
pub open spec fn label_of(name: Seq<char>) -> Seq<char> {
    if text::trimmed(name).len() == 0 {
        "BluRay"@
    } else {
        name
    }
}

/// The volume that the descriptors in `s` describe.
pub open spec fn volume_of(m: Known, device: Seq<char>, s: SequenceView) -> Step<RawUdfView> {
    if s.primary is None {
        Step::Fail(UdfError::NoPrimary)
    } else if s.logical is None {
        Step::Fail(UdfError::NoLogical)
    } else if s.partitions.len() == 0 {
        Step::Fail(UdfError::NoPartition)
    } else {
        let lv = descriptor::logical_of(s.logical->0)->0;
        if lv.block_size != 2048 {
            Step::Fail(UdfError::BlockSize { size: lv.block_size })
        } else {
            match descriptor::maps_of(s.logical->0) {
                Err(e) => Step::Fail(e),
                Ok(maps) => match space::spaces_of(
                    m,
                    s.partitions,
                    maps,
                    lv.file_set.partition_ref,
                ) {
                    Step::Need(q) => Step::Need(q),
                    Step::Fail(e) => Step::Fail(e),
                    Step::Done(spaces) => rooted(m, device, s.primary->0, spaces, lv.file_set),
                },
            }
        }
    }
}

/// The volume whose File Set Descriptor stands at `file_set`.
pub open spec fn rooted(
    m: Known,
    device: Seq<char>,
    name: Seq<char>,
    spaces: Seq<Option<SpaceView>>,
    file_set: Icb,
) -> Step<RawUdfView> {
    match space::resolved(spaces, file_set.partition_ref, file_set.block) {
        Err(e) => Step::Fail(e),
        Ok(lba) => match log::sector(m, lba as int) {
            Step::Need(q) => Step::Need(q),
            Step::Fail(e) => Step::Fail(e),
            Step::Done(b) => match descriptor::file_set_of(b) {
                None => Step::Fail(UdfError::BadFileSet),
                Some(root) => Step::Done(
                    RawUdfView {
                        spaces,
                        root_icb: root,
                        label: label_of(name),
                        device,
                        files: Map::empty(),
                        ahead: None,
                        next: None,
                    },
                ),
            },
        },
    }
}

/// The volume on a device: the anchor in sector 256 leads to the descriptors.
pub open spec fn opened(m: Known, device: Seq<char>) -> Step<RawUdfView> {
    match log::sector(m, 256) {
        Step::Need(q) => Step::Need(q),
        Step::Fail(e) => Step::Fail(e),
        Step::Done(b) => match descriptor::anchor_of(b) {
            None => Step::Fail(UdfError::BadAnchor),
            Some((length, location)) => match scanned(
                m,
                location as int,
                0,
                if length < 4096 {
                    1
                } else {
                    length as int / 2048
                },
                no_descriptors(),
            ) {
                Step::Need(q) => Step::Need(q),
                Step::Fail(e) => Step::Fail(e),
                Step::Done(s) => volume_of(m, device, s),
            },
        },
    }
}

/// The extents, or the bytes, that a File Entry gives a file.
pub open spec fn meta_from(
    spaces: Seq<Option<SpaceView>>,
    fe: descriptor::FileEntryView,
    implied: u16,
) -> Result<FileMetaView, UdfError> {
    if fe.embedded {
        Ok(
            FileMetaView {
                size: fe.information_length,
                extents: Seq::empty(),
                embedded: Some(log::clip(fe.data, 0, fe.information_length as int)),
            },
        )
    } else {
        match space::placed(spaces, fe.extents, implied, 0) {
            Err(e) => Err(e),
            Ok(extents) => Ok(
                FileMetaView { size: fe.information_length, extents, embedded: None },
            ),
        }
    }
}

/// Works out where the bytes of a file are, from its File Entry in partition
/// `implied`. An entry that was read has at most 1024 extents.
pub fn file_meta(spaces: &[Option<Space>], fe: &FileEntry, implied: u16) -> (r: Result<
    FileMeta,
    UdfError,
>)
    requires
        space::spaces_ok(space::space_views(spaces@)),
        fe@.extents.len() <= 1024,
    ensures
        match r {
            Ok(meta) => meta_from(space::space_views(spaces@), fe@, implied) == Ok::<
                FileMetaView,
                UdfError,
            >(meta@) && space::runs_ok(meta@.extents),
            Err(e) => meta_from(space::space_views(spaces@), fe@, implied) == Err::<
                FileMetaView,
                UdfError,
            >(e),
        },
{
    if fe.embedded {
        let data = log::clip_bytes(fe.data.as_slice(), 0, fe.information_length);
        let none: Vec<(u64, u32)> = Vec::new();
        assert(none@ =~= Seq::<(u64, u32)>::empty());
        return Ok(FileMeta { size: fe.information_length, extents: none, embedded: Some(data) });
    }
    match space::extents_abs(spaces, fe.extents.as_slice(), implied) {
        Err(e) => Err(e),
        Ok(extents) => Ok(
            FileMeta { size: fe.information_length, extents, embedded: None },
        ),
    }
}

impl RawUdfView {
    /// Where the path `rel` leads.
    pub open spec fn lookup(self, m: Known, rel: Seq<char>) -> Step<Icb> {
        space::found(m, self.spaces, self.root_icb, rel)
    }

    /// What the volume records of the file `rel`.
    pub open spec fn meta_on_disc(self, m: Known, rel: Seq<char>) -> Step<FileMetaView> {
        match self.lookup(m, rel) {
            Step::Need(q) => Step::Need(q),
            Step::Fail(e) => Step::Fail(e),
            Step::Done(icb) => match space::entry_of(m, self.spaces, icb) {
                Step::Need(q) => Step::Need(q),
                Step::Fail(e) => Step::Fail(e),
                Step::Done(fe) => match meta_from(self.spaces, fe, icb.partition_ref) {
                    Err(e) => Step::Fail(e),
                    Ok(meta) => Step::Done(meta),
                },
            },
        }
    }

    /// What is known of the file `rel`: as it was looked up before, or as the
    /// volume records it.
    pub open spec fn meta(self, m: Known, rel: Seq<char>) -> Step<FileMetaView> {
        if self.files.dom().contains(rel) {
            Step::Done(self.files[rel])
        } else {
            self.meta_on_disc(m, rel)
        }
    }

    /// The state once `rel` was looked up.
    pub open spec fn remembering(self, m: Known, rel: Seq<char>) -> RawUdfView {
        match self.meta(m, rel) {
            Step::Done(meta) => RawUdfView { files: self.files.insert(rel, meta), ..self },
            _ => self,
        }
    }

    /// The entries of the directory `rel`; the empty path and `/` are the root.
    pub open spec fn listed(self, m: Known, rel: Seq<char>) -> Step<Seq<space::DirEntryView>> {
        if rel.len() == 0 || rel == "/"@ {
            space::directory(m, self.spaces, self.root_icb)
        } else {
            match self.lookup(m, rel) {
                Step::Need(q) => Step::Need(q),
                Step::Fail(e) => Step::Fail(e),
                Step::Done(icb) => space::directory(m, self.spaces, icb),
            }
        }
    }
}

/// The bytes `offset..end` of the file made of `extents`, taken from the extents
/// from `i` on, which stands at byte `pos` of the file, behind those in `got`.
pub open spec fn ranged(
    m: Known,
    extents: Seq<(u64, u32)>,
    i: int,
    pos: int,
    offset: int,
    end: int,
    got: Seq<u8>,
) -> Step<Seq<u8>>
    decreases extents.len() - i,
{
    if i < 0 || i >= extents.len() || end <= pos {
        Step::Done(got)
    } else {
        let (abs, len) = extents[i];
        if offset >= pos + len {
            ranged(m, extents, i + 1, pos + len, offset, end, got)
        } else {
            let from = if offset > pos {
                offset - pos
            } else {
                0
            };
            let to = if end < pos + len {
                end - pos
            } else {
                len as int
            };
            match log::bytes_at(m, abs + from, to - from) {
                Step::Need(q) => Step::Need(q),
                Step::Fail(e) => Step::Fail(e),
                Step::Done(b) => ranged(m, extents, i + 1, pos + len, offset, end, got + b),
            }
        }
    }
}

/// The window `w` holds the bytes `offset..end` of the file `rel`.
pub open spec fn serves(w: Option<AheadView>, rel: Seq<char>, offset: int, end: int) -> bool {
    match w {
        Some(a) => a.rel == rel && a.off <= offset && end <= a.off + a.buf.len(),
        None => false,
    }
}

pub open spec fn served(w: Option<AheadView>, offset: int, end: int) -> Seq<u8> {
    w->0.buf.subrange(offset - w->0.off, end - w->0.off)
}

/// The end of a read of `count` bytes at `offset` of a file of `size` bytes.
pub open spec fn read_end(size: u64, offset: u64, count: int) -> int {
    if offset + count < size {
        offset + count
    } else {
        size as int
    }
}

/// How far a read is carried on beyond its own end.
pub open spec fn pull_end(size: u64, offset: u64, end: int) -> int {
    if end - offset < PREFETCH_WINDOW {
        read_end(size, offset, PREFETCH_WINDOW as int)
    } else {
        end
    }
}

impl RawUdfView {
    /// The answer to a read of `count` bytes at `offset` of `rel`, and the state
    /// after it: from a window where one holds the bytes, else from the device,
    /// which fills the first window. The second window becomes the first when
    /// it is read from.
    pub open spec fn read(self, m: Known, rel: Seq<char>, offset: u64, count: int) -> (
        Step<Seq<u8>>,
        RawUdfView,
    ) {
        let v = self.remembering(m, rel);
        match self.meta(m, rel) {
            Step::Need(q) => (Step::Need(q), v),
            Step::Fail(e) => (Step::Fail(e), v),
            Step::Done(meta) => if offset >= meta.size || count == 0 {
                (Step::Done(Seq::empty()), v)
            } else {
                v.read_known(m, rel, meta, offset, read_end(meta.size, offset, count))
            },
        }
    }

    pub open spec fn read_known(
        self,
        m: Known,
        rel: Seq<char>,
        meta: FileMetaView,
        offset: u64,
        end: int,
    ) -> (Step<Seq<u8>>, RawUdfView) {
        if let Some(data) = meta.embedded {
            if end <= data.len() {
                (Step::Done(data.subrange(offset as int, end)), self)
            } else {
                (Step::Fail(UdfError::EmbeddedShort), self)
            }
        } else if serves(self.ahead, rel, offset as int, end) {
            (Step::Done(served(self.ahead, offset as int, end)), self)
        } else if serves(self.next, rel, offset as int, end) {
            (
                Step::Done(served(self.next, offset as int, end)),
                RawUdfView { ahead: self.next, next: None, ..self },
            )
        } else {
            match ranged(
                m,
                meta.extents,
                0,
                0,
                offset as int,
                pull_end(meta.size, offset, end),
                Seq::empty(),
            ) {
                Step::Need(q) => (Step::Need(q), self),
                Step::Fail(e) => (Step::Fail(e), self),
                Step::Done(buf) => (
                    Step::Done(log::clip(buf, 0, end - offset)),
                    RawUdfView { ahead: Some(AheadView { rel, off: offset, buf }), ..self },
                ),
            }
        }
    }

    /// There is nothing to fetch ahead at `offset`: no bytes are asked for, or a
    /// window holds that place already.
    pub open spec fn has_ahead(self, rel: Seq<char>, offset: u64, count: int) -> bool {
        ||| count == 0
        ||| match self.ahead {
            Some(a) => a.rel == rel && a.off <= offset < a.off + a.buf.len(),
            None => false,
        }
        ||| match self.next {
            Some(a) => a.rel == rel && a.off == offset,
            None => false,
        }
    }

    /// Fills the second window with the bytes at `offset`.
    pub open spec fn prefetched(self, m: Known, rel: Seq<char>, offset: u64, count: int) -> (
        Step<()>,
        RawUdfView,
    ) {
        if self.has_ahead(rel, offset, count) {
            (Step::Done(()), self)
        } else {
            let v = self.remembering(m, rel);
            match self.meta(m, rel) {
                Step::Need(q) => (Step::Need(q), v),
                Step::Fail(e) => (Step::Fail(e), v),
                Step::Done(meta) => if offset >= meta.size {
                    (Step::Done(()), v)
                } else {
                    match ranged(
                        m,
                        meta.extents,
                        0,
                        0,
                        offset as int,
                        read_end(meta.size, offset, count),
                        Seq::empty(),
                    ) {
                        Step::Need(q) => (Step::Need(q), v),
                        Step::Fail(e) => (Step::Fail(e), v),
                        Step::Done(buf) => (
                            Step::Done(()),
                            RawUdfView { next: Some(AheadView { rel, off: offset, buf }), ..v },
                        ),
                    }
                },
            }
        }
    }
}

/// Reads the bytes `offset..end` of the file made of `extents`.
fn read_extents(log: &ReadLog, extents: &[(u64, u32)], offset: u64, end: u64) -> (r: Step<Vec<u8>>)
    requires
        space::runs_ok(extents@),
        offset <= end,
    ensures
        r@ == ranged(log@, extents@, 0, 0, offset as int, end as int, Seq::empty()),
        r matches Step::Done(b) ==> b@.len() <= end - offset,
{
    let mut out: Vec<u8> = Vec::new();
    let mut pos: u64 = 0;
    let mut i: usize = 0;
    let ghost all = ranged(log@, extents@, 0, 0, offset as int, end as int, Seq::empty());
    assert(out@ =~= Seq::<u8>::empty());
    while i < extents.len() && pos < end
        invariant
            i <= extents@.len(),
            space::runs_ok(extents@),
            offset <= end,
            pos <= i * 0xFFFF_FFFF,
            all == ranged(log@, extents@, 0, 0, offset as int, end as int, Seq::empty()),
            all == ranged(log@, extents@, i as int, pos as int, offset as int, end as int, out@),
            out@.len() <= end - offset,
            out@.len() == 0 || (out@.len() <= pos - offset),
        decreases extents@.len() - i,
    {
        let (abs, len) = extents[i];
        let ext_end: u64 = pos + len as u64;
        if offset < ext_end {
            let from: u64 = if offset > pos {
                offset - pos
            } else {
                0
            };
            let to: u64 = if end < ext_end {
                end - pos
            } else {
                len as u64
            };
            match log::read_abs(log, abs + from, to - from) {
                Step::Need(q) => {
                    return Step::Need(q);
                },
                Step::Fail(e) => {
                    return Step::Fail(e);
                },
                Step::Done(b) => {
                    let ghost before = out@;
                    out.extend_from_slice(b.as_slice());
                    assert(out@ =~= before + b@);
                },
            }
        }
        pos = ext_end;
        i += 1;
    }
    Step::Done(out)
}

impl RawUdf {
    /// Opens the volume on `device`.
    pub fn open(device: &str, log: &ReadLog) -> (r: Step<RawUdf>)
        ensures
            r@ == opened(log@, device@),
            r matches Step::Done(u) ==> u@.wf(),
    {
        let b = match log::read_sector(log, 256) {
            Step::Need(q) => {
                return Step::Need(q);
            },
            Step::Fail(e) => {
                return Step::Fail(e);
            },
            Step::Done(b) => b,
        };
        let (length, location) = match descriptor::anchor(b.as_slice()) {
            Err(e) => {
                return Step::Fail(e);
            },
            Ok(a) => a,
        };
        let max: u64 = if length < 4096 {
            1
        } else {
            length as u64 / SECTOR
        };
        let s = match scan(log, location, max) {
            Step::Need(q) => {
                return Step::Need(q);
            },
            Step::Fail(e) => {
                return Step::Fail(e);
            },
            Step::Done(s) => s,
        };
        RawUdf::from_sequence(device, log, s)
    }

    fn from_sequence(device: &str, log: &ReadLog, s: Sequence) -> (r: Step<RawUdf>)
        requires
            s.logical matches Some(b) ==> b@.len() == 2048 && descriptor::logical_of(b@) is Some,
        ensures
            r@ == volume_of(log@, device@, s@),
            r matches Step::Done(u) ==> u@.wf(),
    {
        let name = match s.primary {
            None => {
                return Step::Fail(UdfError::NoPrimary);
            },
            Some(p) => p,
        };
        let raw = match s.logical {
            None => {
                return Step::Fail(UdfError::NoLogical);
            },
            Some(b) => b,
        };
        let pds = s.partitions;
        if pds.len() == 0 {
            return Step::Fail(UdfError::NoPartition);
        }
        let lv = match descriptor::logical(raw.as_slice()) {
            Err(e) => {
                return Step::Fail(e);
            },
            Ok(lv) => lv,
        };
        if lv.block_size as u64 != SECTOR {
            return Step::Fail(UdfError::BlockSize { size: lv.block_size });
        }
        let maps = match descriptor::parse_partition_maps(raw.as_slice()) {
            Err(e) => {
                return Step::Fail(e);
            },
            Ok(maps) => maps,
        };
        let spaces = match space::build_spaces(
            log,
            pds.as_slice(),
            maps.as_slice(),
            lv.file_set.partition_ref,
        ) {
            Step::Need(q) => {
                return Step::Need(q);
            },
            Step::Fail(e) => {
                return Step::Fail(e);
            },
            Step::Done(s) => s,
        };
        let fsd_lba: u64 = match space::resolve(
            spaces.as_slice(),
            lv.file_set.partition_ref,
            lv.file_set.block,
        ) {
            Err(e) => {
                return Step::Fail(e);
            },
            Ok(lba) => lba,
        };
        let fsd = match log::read_sector(log, fsd_lba) {
            Step::Need(q) => {
                return Step::Need(q);
            },
            Step::Fail(e) => {
                return Step::Fail(e);
            },
            Step::Done(b) => b,
        };
        let root_icb = match descriptor::file_set(fsd.as_slice()) {
            Err(e) => {
                return Step::Fail(e);
            },
            Ok(icb) => icb,
        };
        let chars = text::chars_of(name.as_str());
        let label = if text::trim(chars.as_slice()).len() == 0 {
            text::owned("BluRay")
        } else {
            name
        };
        let device = text::owned(device);
        let u = RawUdf {
            spaces,
            root_icb,
            label,
            device,
            files: Vec::new(),
            ahead: None,
            next: None,
        };
        Step::Done(u)
    }

    /// Where the path `path` leads: components are matched in whichever case.
    pub fn lookup(&self, log: &ReadLog, path: &str) -> (r: Step<Icb>)
        requires
            self@.wf(),
        ensures
            r == self@.lookup(log@, path@),
    {
        space::look_up(log, self.spaces.as_slice(), self.root_icb, path)
    }

    /// The disc is a Blu-ray.
    pub fn has_bdmv(&self, log: &ReadLog) -> (r: Step<bool>)
        requires
            self@.wf(),
        ensures
            r == match self@.lookup(log@, "BDMV/index.bdmv"@) {
                Step::Need(q) => Step::Need(q),
                Step::Fail(_) => Step::Done(false),
                Step::Done(_) => Step::Done(true),
            },
    {
        match self.lookup(log, "BDMV/index.bdmv") {
            Step::Need(q) => Step::Need(q),
            Step::Fail(_) => Step::Done(false),
            Step::Done(_) => Step::Done(true),
        }
    }

    pub fn list_dir(&self, log: &ReadLog, rel: &str) -> (r: Step<Vec<DirEntry>>)
        requires
            self@.wf(),
        ensures
            space::listing(r) == self@.listed(log@, rel@),
    {
        let chars = text::chars_of(rel);
        let icb = if chars.len() == 0 || text::str_same(rel, "/") {
            self.root_icb
        } else {
            match self.lookup(log, rel) {
                Step::Need(q) => {
                    return Step::Need(q);
                },
                Step::Fail(e) => {
                    return Step::Fail(e);
                },
                Step::Done(icb) => icb,
            }
        };
        space::read_directory(log, self.spaces.as_slice(), icb)
    }

    fn known_file(&self, rel: &str) -> (r: Option<FileMeta>)
        ensures
            match r {
                Some(meta) => self@.files.dom().contains(rel@) && self@.files[rel@] == meta@,
                None => !self@.files.dom().contains(rel@),
            },
    {
        let mut i: usize = self.files.len();
        assert(self.files@.take(i as int) =~= self.files@);
        while i > 0
            invariant
                i <= self.files@.len(),
                files_map(self.files@.take(i as int)).dom().contains(rel@)
                    == self@.files.dom().contains(rel@),
                self@.files.dom().contains(rel@) ==> files_map(self.files@.take(i as int))[rel@]
                    == self@.files[rel@],
            decreases i,
        {
            let ghost whole = self.files@.take(i as int);
            assert(whole.drop_last() =~= self.files@.take(i - 1));
            i -= 1;
            assert(whole.last() == self.files@[i as int]);
            if text::str_same(self.files[i].0.as_str(), rel) {
                return Some(self.files[i].1.copy());
            }
        }
        None
    }

    /// What is known of the file `rel`, which is remembered.
    fn meta(&mut self, log: &ReadLog, rel: &str) -> (r: Step<FileMeta>)
        requires
            old(self)@.wf(),
        ensures
            r@ == old(self)@.meta(log@, rel@),
            r matches Step::Done(meta) ==> space::runs_ok(meta@.extents),
            final(self)@ == old(self)@.remembering(log@, rel@),
            final(self)@.wf(),
            final(self).ahead == old(self).ahead,
            final(self).next == old(self).next,
    {
        let ghost before = self@;
        if let Some(meta) = self.known_file(rel) {
            assert(before.files.insert(rel@, meta@) =~= before.files);
            return Step::Done(meta);
        }
        let icb = match self.lookup(log, rel) {
            Step::Need(q) => {
                return Step::Need(q);
            },
            Step::Fail(e) => {
                return Step::Fail(e);
            },
            Step::Done(icb) => icb,
        };
        let fe = match space::read_fe_at(log, self.spaces.as_slice(), icb) {
            Step::Need(q) => {
                return Step::Need(q);
            },
            Step::Fail(e) => {
                return Step::Fail(e);
            },
            Step::Done(fe) => fe,
        };
        let meta = match file_meta(self.spaces.as_slice(), &fe, icb.partition_ref) {
            Err(e) => {
                return Step::Fail(e);
            },
            Ok(meta) => meta,
        };
        let kept = meta.copy();
        let ghost held = self.files@;
        self.files.push((text::owned(rel), kept));
        assert(self.files@.drop_last() =~= held);
        Step::Done(meta)
    }

    pub fn file_size(&mut self, log: &ReadLog, rel: &str) -> (r: Step<u64>)
        requires
            old(self)@.wf(),
        ensures
            r == match old(self)@.meta(log@, rel@) {
                Step::Need(q) => Step::Need(q),
                Step::Fail(e) => Step::Fail(e),
                Step::Done(meta) => Step::Done(meta.size),
            },
            final(self)@ == old(self)@.remembering(log@, rel@),
            final(self)@.wf(),
    {
        match self.meta(log, rel) {
            Step::Need(q) => Step::Need(q),
            Step::Fail(e) => Step::Fail(e),
            Step::Done(meta) => Step::Done(meta.size),
        }
    }

    fn slice_ahead(w: &Option<Ahead>, rel: &str, offset: u64, end: u64) -> (r: Option<Vec<u8>>)
        requires
            window_ok(ahead_view(*w)),
            offset <= end,
        ensures
            match r {
                Some(b) => serves(ahead_view(*w), rel@, offset as int, end as int) && b@ == served(
                    ahead_view(*w),
                    offset as int,
                    end as int,
                ),
                None => !serves(ahead_view(*w), rel@, offset as int, end as int),
            },
    {
        match w {
            None => None,
            Some(a) => {
                if !text::str_same(a.rel.as_str(), rel) || offset < a.off || end > a.off
                    + a.buf.len() as u64 {
                    return None;
                }
                let from: usize = (offset - a.off) as usize;
                let to: usize = (end - a.off) as usize;
                let part = &a.buf.as_slice()[from..to];
                Some(vstd::slice::slice_to_vec(part))
            },
        }
    }

    /// Up to `count` bytes at `offset` of the file `rel`, fewer at its end.
    pub fn read_at(&mut self, log: &ReadLog, rel: &str, offset: u64, count: usize) -> (r: Step<
        Vec<u8>,
    >)
        requires
            old(self)@.wf(),
        ensures
            (r@, final(self)@) == old(self)@.read(log@, rel@, offset, count as int),
            final(self)@.wf(),
    {
        let m = match self.meta(log, rel) {
            Step::Need(q) => {
                return Step::Need(q);
            },
            Step::Fail(e) => {
                return Step::Fail(e);
            },
            Step::Done(m) => m,
        };
        let empty: Vec<u8> = Vec::new();
        assert(empty@ =~= Seq::<u8>::empty());
        if offset >= m.size || count == 0 {
            return Step::Done(empty);
        }
        let end: u64 = if count as u64 >= m.size - offset {
            m.size
        } else {
            offset + count as u64
        };
        if let Some(data) = &m.embedded {
            if end > data.len() as u64 {
                return Step::Fail(UdfError::EmbeddedShort);
            }
            let part = &data.as_slice()[offset as usize..end as usize];
            return Step::Done(vstd::slice::slice_to_vec(part));
        }
        if let Some(out) = RawUdf::slice_ahead(&self.ahead, rel, offset, end) {
            return Step::Done(out);
        }
        if let Some(out) = RawUdf::slice_ahead(&self.next, rel, offset, end) {
            self.ahead = self.next.take();
            return Step::Done(out);
        }
        let pull: u64 = if end - offset >= PREFETCH_WINDOW {
            end
        } else if m.size - offset <= PREFETCH_WINDOW {
            m.size
        } else {
            offset + PREFETCH_WINDOW
        };
        let buf = match read_extents(log, m.extents.as_slice(), offset, pull) {
            Step::Need(q) => {
                return Step::Need(q);
            },
            Step::Fail(e) => {
                return Step::Fail(e);
            },
            Step::Done(b) => b,
        };
        let out = log::clip_bytes(buf.as_slice(), 0, end - offset);
        self.ahead = Some(
            Ahead { rel: text::owned(rel), off: offset, buf },
        );
        Step::Done(out)
    }

    /// Fills the second window, so that the next sequential read does not wait
    /// for the drive.
    pub fn prefetch(&mut self, log: &ReadLog, rel: &str, offset: u64, count: usize) -> (r: Step<()>)
        requires
            old(self)@.wf(),
        ensures
            (r, final(self)@) == old(self)@.prefetched(log@, rel@, offset, count as int),
            final(self)@.wf(),
    {
        if count == 0 {
            return Step::Done(());
        }
        if let Some(a) = &self.ahead {
            if text::str_same(a.rel.as_str(), rel) && offset >= a.off && offset < a.off
                + a.buf.len() as u64 {
                return Step::Done(());
            }
        }
        if let Some(a) = &self.next {
            if text::str_same(a.rel.as_str(), rel) && offset == a.off {
                return Step::Done(());
            }
        }
        let m = match self.meta(log, rel) {
            Step::Need(q) => {
                return Step::Need(q);
            },
            Step::Fail(e) => {
                return Step::Fail(e);
            },
            Step::Done(m) => m,
        };
        if offset >= m.size {
            return Step::Done(());
        }
        let end: u64 = if count as u64 >= m.size - offset {
            m.size
        } else {
            offset + count as u64
        };
        let buf = match read_extents(log, m.extents.as_slice(), offset, end) {
            Step::Need(q) => {
                return Step::Need(q);
            },
            Step::Fail(e) => {
                return Step::Fail(e);
            },
            Step::Done(b) => b,
        };
        self.next = Some(
            Ahead { rel: text::owned(rel), off: offset, buf },
        );
        Step::Done(())
    }
}

} // verus!
