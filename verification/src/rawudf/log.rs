//! Reads of a device, and what is computed from them.
//!
//! Nothing here touches a device. An operation is handed a [`ReadLog`], the
//! outcomes of the reads that were made so far, and either finishes or names
//! the read that it needs next. The caller performs that read, records it and
//! asks again.

use vstd::prelude::*;

verus! {

/// Bytes per sector and per logical block.
pub const SECTOR: u64 = 2048;

/// The longest single read. USB optical bridges often cap one transfer.
pub const MAX_XFER: u64 = 1_048_576;

/// Bytes that hold a File Entry with its allocation descriptors.
pub const ENTRY_BYTES: u64 = 8192;

/// One read of a device.
#[derive(Clone, Copy, Debug, PartialEq, Eq, Structural)]
pub struct ReadReq {
    pub offset: u64,
    pub len: u64,
}

/// Why an operation on a volume failed.
#[derive(Clone, Copy, Debug, PartialEq, Eq, Structural)]
pub enum UdfError {
    /// The sector could not be read.
    ReadSector { lba: u64 },
    /// The device ended inside the sector.
    ShortSector { lba: u64, got: u64 },
    /// A read of payload bytes failed.
    ReadBytes { offset: u64, len: u64 },
    /// The File Entry could not be read.
    ReadEntry { lba: u64 },
    /// The File Entry is malformed.
    BadEntry { lba: u64 },
    BadAnchor,
    BadPrimary,
    BadPartition,
    BadLogical,
    BadFileSet,
    NoPrimary,
    NoLogical,
    NoPartition,
    /// The logical block size is not that of a sector.
    BlockSize { size: u32 },
    /// The Logical Volume Descriptor ends before its partition maps.
    MapsTruncated,
    /// The partition map lies beyond the table.
    MapOverrun { index: u32 },
    /// The partition map has an impossible length.
    MapLength { index: u32, claimed: u8 },
    /// No Partition Descriptor has this number.
    NoPartitionNumber { number: u16 },
    /// The metadata file records no extents.
    NoMetadataExtents,
    /// The file set lies in a partition that has no usable map.
    FsdUnresolved { partition_ref: u16 },
    /// No partition map stands for this reference.
    NoSpace { partition_ref: u16 },
    /// The block lies past the end of the metadata file.
    PastMetadata { block: u64 },
    /// The path goes on below a file, at this component.
    IntoFile { depth: u64 },
    /// The directory has no entry for this component of the path.
    NotFound { depth: u64 },
    /// The File Identifier Descriptor at this place is malformed.
    BadIdentifier { at: u64 },
    /// The File Entry holds fewer bytes than the file's length.
    EmbeddedShort,
}

/// Where an operation stands.
pub enum Step<T> {
    /// The next read that it needs.
    Need(ReadReq),
    Fail(UdfError),
    Done(T),
}

impl<T: View> View for Step<T> {
    type V = Step<T::V>;

    open spec fn view(&self) -> Step<T::V> {
        match *self {
            Step::Need(q) => Step::Need(q),
            Step::Fail(e) => Step::Fail(e),
            Step::Done(t) => Step::Done(t@),
        }
    }
}

/// What is known of a device: the outcome of each read that was made, `None`
/// for one that failed.
pub type Known = Map<ReadReq, Option<Seq<u8>>>;

/// The outcome of one read.
pub enum Outcome {
    Bytes(Vec<u8>),
    Failed,
}

impl Outcome {
    /// What the outcome tells of a read of `len` bytes.
    pub open spec fn told(self, len: u64) -> Option<Seq<u8>> {
        match self {
            Outcome::Bytes(b) => Some(clip(b@, 0, len as int)),
            Outcome::Failed => None,
        }
    }
}

/// The part of `s` from `from` up to `to`, as far as `s` reaches.
pub open spec fn clip(s: Seq<u8>, from: int, to: int) -> Seq<u8> {
    let a = if from < s.len() {
        from
    } else {
        s.len() as int
    };
    let b = if to < s.len() {
        to
    } else {
        s.len() as int
    };
    if a <= b {
        s.subrange(a, b)
    } else {
        Seq::empty()
    }
}

/// The bytes of `s` from `from` up to `to`, as far as `s` reaches.
pub fn clip_bytes(s: &[u8], from: u64, to: u64) -> (r: Vec<u8>)
    ensures
        r@ == clip(s@, from as int, to as int),
{
    let n: u64 = s.len() as u64;
    let a: u64 = if from < n {
        from
    } else {
        n
    };
    let b: u64 = if to < n {
        to
    } else {
        n
    };
    if a <= b {
        let part = &s[a as usize..b as usize];
        vstd::slice::slice_to_vec(part)
    } else {
        let out: Vec<u8> = Vec::new();
        assert(out@ =~= Seq::<u8>::empty());
        out
    }
}

/// The entries of a log as a map; a later outcome replaces an earlier one.
pub open spec fn log_map(entries: Seq<(ReadReq, Outcome)>) -> Known
    decreases entries.len(),
{
    if entries.len() == 0 {
        Map::empty()
    } else {
        let e = entries.last();
        log_map(entries.drop_last()).insert(e.0, e.1.told(e.0.len))
    }
}

/// No outcome holds more bytes than its read asked for.
pub open spec fn clipped(m: Known) -> bool {
    forall|q: ReadReq| #[trigger]
        m.dom().contains(q) ==> match m[q] {
            Some(b) => b.len() <= q.len,
            None => true,
        }
}

pub proof fn lemma_log_clipped(entries: Seq<(ReadReq, Outcome)>)
    ensures
        clipped(log_map(entries)),
    decreases entries.len(),
{
    if entries.len() > 0 {
        lemma_log_clipped(entries.drop_last());
    }
}

/// The outcomes of the reads that were made so far.
pub struct ReadLog {
    entries: Vec<(ReadReq, Outcome)>,
}

impl View for ReadLog {
    type V = Known;

    closed spec fn view(&self) -> Known {
        log_map(self.entries@)
    }
}

impl ReadLog {
    /// Nothing was read.
    pub fn new() -> (r: ReadLog)
        ensures
            r@ == Map::<ReadReq, Option<Seq<u8>>>::empty(),
    {
        ReadLog { entries: Vec::new() }
    }

    /// Adds the outcome of the read `req`. Bytes past its length are dropped.
    pub fn record(&mut self, req: ReadReq, outcome: Outcome)
        ensures
            final(self)@ == old(self)@.insert(req, outcome.told(req.len)),
    {
        let ghost before = self.entries@;
        self.entries.push((req, outcome));
        assert(self.entries@.drop_last() =~= before);
    }

    /// The outcome of the read `req`, if it was made.
    pub fn get(&self, req: ReadReq) -> (r: Option<Outcome>)
        ensures
            clipped(self@),
            match r {
                Some(o) => {
                    &&& self@.dom().contains(req)
                    &&& match o {
                        Outcome::Bytes(b) => self@[req] == Some(b@) && b@.len() <= req.len,
                        Outcome::Failed => self@[req] is None,
                    }
                },
                None => !self@.dom().contains(req),
            },
    {
        proof {
            lemma_log_clipped(self.entries@);
        }
        let mut i: usize = self.entries.len();
        assert(self.entries@.take(i as int) =~= self.entries@);
        while i > 0
            invariant
                i <= self.entries@.len(),
                clipped(self@),
                log_map(self.entries@.take(i as int)).dom().contains(req) == self@.dom().contains(
                    req,
                ),
                self@.dom().contains(req) ==> log_map(self.entries@.take(i as int))[req]
                    == self@[req],
            decreases i,
        {
            let ghost whole = self.entries@.take(i as int);
            assert(whole.drop_last() =~= self.entries@.take(i - 1));
            i -= 1;
            assert(whole.last() == self.entries@[i as int]);
            if self.entries[i].0 == req {
                return match &self.entries[i].1 {
                    Outcome::Bytes(b) => Some(Outcome::Bytes(clip_bytes(b.as_slice(), 0, req.len))),
                    Outcome::Failed => Some(Outcome::Failed),
                };
            }
        }
        None
    }
}

// ───────────────────────── sectors ─────────────────────────

pub open spec fn sector_req(lba: int) -> ReadReq {
    ReadReq { offset: (lba * 2048) as u64, len: 2048 }
}

/// The sector `lba`: one read that must come back whole.
pub open spec fn sector(m: Known, lba: int) -> Step<Seq<u8>> {
    let q = sector_req(lba);
    if !m.dom().contains(q) {
        Step::Need(q)
    } else {
        match m[q] {
            None => Step::Fail(UdfError::ReadSector { lba: lba as u64 }),
            Some(b) => if b.len() < 2048 {
                Step::Fail(UdfError::ShortSector { lba: lba as u64, got: b.len() as u64 })
            } else {
                Step::Done(b)
            },
        }
    }
}

/// No sector that a volume's descriptors lead to has this number or a greater one.
pub const LBA_LIMIT: u64 = 0x4_0000_0000;

pub fn read_sector(log: &ReadLog, lba: u64) -> (r: Step<Vec<u8>>)
    requires
        lba * 2048 <= u64::MAX,
    ensures
        r@ == sector(log@, lba as int),
        r matches Step::Done(b) ==> b@.len() == 2048,
{
    let q = ReadReq { offset: lba * SECTOR, len: SECTOR };
    match log.get(q) {
        None => Step::Need(q),
        Some(Outcome::Failed) => Step::Fail(UdfError::ReadSector { lba }),
        Some(Outcome::Bytes(b)) => if (b.len() as u64) < SECTOR {
            Step::Fail(UdfError::ShortSector { lba, got: b.len() as u64 })
        } else {
            Step::Done(b)
        },
    }
}

// ───────────────────────── byte ranges ─────────────────────────

/// The next read towards `total` bytes from `start` on, when `have` are there.
pub open spec fn chunk_req(start: int, have: int, total: int) -> ReadReq {
    let left = total - have;
    ReadReq {
        offset: (start + have) as u64,
        len: (if left < MAX_XFER {
            left
        } else {
            MAX_XFER as int
        }) as u64,
    }
}

/// How many of `total` bytes are still to come.
pub open spec fn missing(have: int, total: int) -> nat {
    if have < total {
        (total - have) as nat
    } else {
        0
    }
}

/// Goes on reading at `start + got.len()` until `total` bytes are there or the
/// device has no more.
pub open spec fn filled(m: Known, start: int, got: Seq<u8>, total: int) -> Step<Seq<u8>>
    decreases missing(got.len() as int, total),
{
    if got.len() >= total {
        Step::Done(got)
    } else {
        let q = chunk_req(start, got.len() as int, total);
        if !m.dom().contains(q) {
            Step::Need(q)
        } else {
            match m[q] {
                None => Step::Fail(UdfError::ReadBytes { offset: q.offset, len: q.len }),
                Some(b) => if b.len() == 0 {
                    Step::Done(got)
                } else {
                    filled(m, start, got + b, total)
                },
            }
        }
    }
}

/// First byte of the sector that holds byte `at`.
pub open spec fn aligned(at: int) -> int {
    at / 2048 * 2048
}

/// Length of the sectors that cover `count` bytes at `at`.
pub open spec fn covering(at: int, count: int) -> int {
    (at - aligned(at) + count + 2047) / 2048 * 2048
}

/// `count` bytes at byte `at`, read by whole sectors; fewer where the device
/// ends.
pub open spec fn bytes_at(m: Known, at: int, count: int) -> Step<Seq<u8>> {
    if count == 0 {
        Step::Done(Seq::empty())
    } else {
        match filled(m, aligned(at), Seq::empty(), covering(at, count)) {
            Step::Done(b) => Step::Done(clip(b, at - aligned(at), at - aligned(at) + count)),
            Step::Need(q) => Step::Need(q),
            Step::Fail(e) => Step::Fail(e),
        }
    }
}

/// A raw optical device refuses a read unless its offset and length are
/// multiples of a sector: the covering sectors are read, then sliced. A bridge
/// that returns less than it was asked for is not at the end: only an empty
/// read is.
pub fn read_abs(log: &ReadLog, abs_byte: u64, count: u64) -> (r: Step<Vec<u8>>)
    requires
        abs_byte + count + 4096 <= u64::MAX,
    ensures
        r@ == bytes_at(log@, abs_byte as int, count as int),
        r matches Step::Done(b) ==> b@.len() <= count,
{
    let mut buf: Vec<u8> = Vec::new();
    assert(buf@ =~= Seq::<u8>::empty());
    if count == 0 {
        return Step::Done(buf);
    }
    let start: u64 = abs_byte / SECTOR * SECTOR;
    let skip: u64 = abs_byte - start;
    let total: u64 = (skip + count + 2047) / SECTOR * SECTOR;
    let ghost whole = filled(log@, start as int, Seq::empty(), total as int);
    let mut done: u64 = 0;
    while done < total
        invariant
            done == buf@.len(),
            done <= total,
            start + total <= u64::MAX,
            whole == filled(log@, start as int, buf@, total as int),
            whole == filled(
                log@,
                aligned(abs_byte as int),
                Seq::empty(),
                covering(abs_byte as int, count as int),
            ),
            count != 0,
        ensures
            whole == Step::Done(buf@),
        decreases total - done,
    {
        let left: u64 = total - done;
        let chunk: u64 = if left < MAX_XFER {
            left
        } else {
            MAX_XFER
        };
        let q = ReadReq { offset: start + done, len: chunk };
        match log.get(q) {
            None => {
                return Step::Need(q);
            },
            Some(Outcome::Failed) => {
                return Step::Fail(UdfError::ReadBytes { offset: q.offset, len: q.len });
            },
            Some(Outcome::Bytes(b)) => {
                if b.len() == 0 {
                    break;
                }
                let ghost before = buf@;
                buf.extend_from_slice(b.as_slice());
                assert(buf@ =~= before + b@);
                done += b.len() as u64;
            },
        }
    }
    Step::Done(clip_bytes(buf.as_slice(), skip, skip + count))
}

// ───────────────────────── laws ─────────────────────────

/// `b` knows all that `a` knows.
pub open spec fn extends(a: Known, b: Known) -> bool {
    forall|q: ReadReq| #[trigger]
        a.dom().contains(q) ==> b.dom().contains(q) && b[q] == a[q]
}

/// What was read of a device that holds the bytes `image`: each outcome is
/// taken from its place, and only a read past the end comes back empty.
pub open spec fn honest(m: Known, image: Seq<u8>) -> bool {
    forall|q: ReadReq| #[trigger]
        m.dom().contains(q) ==> match m[q] {
            Some(b) => {
                &&& b == clip(image, q.offset as int, q.offset + b.len())
                &&& b.len() == 0 ==> q.offset >= image.len()
            },
            None => true,
        }
}

pub proof fn lemma_filled_extends(a: Known, b: Known, start: int, got: Seq<u8>, total: int)
    requires
        extends(a, b),
        !(filled(a, start, got, total) is Need),
    ensures
        filled(b, start, got, total) == filled(a, start, got, total),
    decreases missing(got.len() as int, total),
{
    if got.len() < total {
        let q = chunk_req(start, got.len() as int, total);
        assert(a.dom().contains(q));
        if let Some(s) = a[q] {
            if s.len() > 0 {
                lemma_filled_extends(a, b, start, got + s, total);
            }
        }
    }
}

/// A range that was read stays the same, whatever else is read.
pub proof fn lemma_bytes_extends(a: Known, b: Known, at: int, count: int)
    requires
        extends(a, b),
        !(bytes_at(a, at, count) is Need),
    ensures
        bytes_at(b, at, count) == bytes_at(a, at, count),
{
    if count != 0 {
        lemma_filled_extends(a, b, aligned(at), Seq::empty(), covering(at, count));
    }
}

/// A read that is asked for was not made before.
pub proof fn lemma_filled_asks(m: Known, start: int, got: Seq<u8>, total: int)
    ensures
        match filled(m, start, got, total) {
            Step::Need(q) => !m.dom().contains(q),
            _ => true,
        },
    decreases missing(got.len() as int, total),
{
    if got.len() < total {
        let q = chunk_req(start, got.len() as int, total);
        if m.dom().contains(q) {
            if let Some(s) = m[q] {
                if s.len() > 0 {
                    lemma_filled_asks(m, start, got + s, total);
                }
            }
        }
    }
}

proof fn lemma_filled_honest(m: Known, image: Seq<u8>, start: int, got: Seq<u8>, total: int)
    requires
        honest(m, image),
        clipped(m),
        0 <= start,
        start + total <= u64::MAX,
        got.len() <= total,
        got == clip(image, start, start + got.len()),
    ensures
        match filled(m, start, got, total) {
            Step::Done(b) => b == clip(image, start, start + total),
            _ => true,
        },
    decreases missing(got.len() as int, total),
{
    if got.len() < total {
        let q = chunk_req(start, got.len() as int, total);
        if m.dom().contains(q) {
            if let Some(s) = m[q] {
                if s.len() > 0 {
                    let next = got + s;
                    assert(next =~= clip(image, start, start + next.len()));
                    lemma_filled_honest(m, image, start, next, total);
                } else {
                    assert(got =~= clip(image, start, start + total));
                }
            }
        }
    }
}

/// Reading `count` bytes at `at` yields just those bytes of the device, however
/// its transfers were cut, and fewer only where the device ends.
pub proof fn lemma_bytes_honest(m: Known, image: Seq<u8>, at: int, count: int)
    requires
        honest(m, image),
        clipped(m),
        0 <= at,
        0 <= count,
        at + count + 4096 <= u64::MAX,
    ensures
        match bytes_at(m, at, count) {
            Step::Done(b) => b == clip(image, at, at + count),
            _ => true,
        },
{
    if count == 0 {
        assert(clip(image, at, at) =~= Seq::<u8>::empty());
    } else {
        let start = aligned(at);
        let total = covering(at, count);
        assert(Seq::<u8>::empty() =~= clip(image, start, start + 0));
        lemma_filled_honest(m, image, start, Seq::empty(), total);
        if let Step::Done(b) = filled(m, start, Seq::empty(), total) {
            assert(total >= at - start + count);
            assert(clip(b, at - start, at - start + count) =~= clip(image, at, at + count));
        }
    }
}

/// Of what a read gave, as much counts as was asked for, from the start.
pub proof fn lemma_told(o: Outcome, len: u64)
    ensures
        match o {
            Outcome::Failed => o.told(len) is None,
            Outcome::Bytes(b) => o.told(len) matches Some(t) && t.len() == vstd::math::min(
                b@.len() as int,
                len as int,
            ) && t.is_prefix_of(b@),
        },
{
    if let Outcome::Bytes(b) = o {
        let t = o.told(len)->0;
        assert(b@.take(t.len() as int) =~= t);
    }
}

} // verus!
