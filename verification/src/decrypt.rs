//! Unit-aligned decrypted reads with a small cache.
//!
//! Players read streams in aligned units of 6144 bytes, and an NFS client asks
//! in chunks that do not line up with them. An arbitrary request becomes
//! whole-unit reads of the encrypted source; each unit is decrypted once, and
//! recently decrypted units are kept.
//!
//! Nothing here touches a disc. [`DecryptEngine::read`] answers what the cache
//! can answer. For the rest, a [`ReadJob`] says what to do next: read a stretch
//! of the source, or decrypt one unit.

pub mod law;

use std::collections::HashMap;

use vstd::prelude::*;

use crate::cache;
use crate::cache::{UnitKey, Units};
use crate::disc::{Node, NodeId, NodeKind};
use crate::mmbd;
use crate::rawudf::log::{clip, clip_bytes};
use crate::rawudf::volume::PREFETCH_WINDOW;

verus! {

broadcast use vstd::std_specs::hash::group_hash_axioms;

/// Bytes in a unit.
pub const UNIT: u64 = 6144;

/// Units read from the disc per cache miss when the caller streams
/// sequentially. Optical drives are fast for large sequential reads and slow
/// for many small ones.
pub const SEQUENTIAL_WINDOW_UNITS: u64 = 2730;

/// Units read per cache miss for random access: a title scan looks at the start
/// of every clip.
pub const RANDOM_WINDOW_UNITS: u64 = 64;

/// A request that starts within this distance of where the one before it ended
/// counts as sequential.
pub const SEQUENTIAL_SLACK: u64 = 8_388_608;

/// Counters.
#[derive(Clone, Copy, Debug, PartialEq, Eq, Structural)]
pub struct Stats {
    pub units_decrypted: u64,
    pub units_cached: u64,
    pub bytes_served: u64,
    pub decrypt_errors: u64,
}

/// A counter after `n` more; it starts over at its limit.
pub open spec fn counted(a: u64, n: int) -> u64 {
    ((a + n) % 0x1_0000_0000_0000_0000) as u64
}

fn count_up(a: u64, n: u64) -> (r: u64)
    ensures
        r == counted(a, n as int),
{
    a.wrapping_add(n)
}

/// Why a read failed.
#[derive(Clone, Copy, Debug, PartialEq, Eq, Structural)]
pub enum EngineError {
    /// The engine has been shut down.
    ShutDown,
    /// This unit could not be decrypted.
    Undecrypted { unit: u64 },
}

pub struct DecryptEngine {
    cache: lru::LruCache<(u32, u64), Vec<u8>>,
    last_end: HashMap<u64, u64>,
    shutting_down: bool,
    /// The source is a raw volume, which can fetch ahead.
    has_udf: bool,
    pub stats: Stats,
}

#[verifier::ext_equal]
pub struct EngineView {
    /// Decrypted units, the most recently used first.
    pub units: Units,
    /// How many units are kept.
    pub limit: nat,
    /// Where the last read of each file ended.
    pub last_end: Map<NodeId, u64>,
    pub shutting_down: bool,
    pub has_udf: bool,
    pub stats: Stats,
}

impl View for DecryptEngine {
    type V = EngineView;

    closed spec fn view(&self) -> EngineView {
        EngineView {
            units: cache::cached_units(self.cache),
            limit: cache::cache_limit(self.cache),
            last_end: self.last_end@,
            shutting_down: self.shutting_down,
            has_udf: self.has_udf,
            stats: self.stats,
        }
    }
}

impl EngineView {
    /// The cache holds whole units, no more than it was made for.
    pub open spec fn wf(self) -> bool {
        self.limit >= 64 && cache::units_ok(self.units, self.limit)
    }

    /// The state after `key` was asked for.
    pub open spec fn asked(self, key: UnitKey) -> EngineView {
        EngineView { units: cache::touched(self.units, key), ..self }
    }

    /// The state after `unit` was stored.
    pub open spec fn with_unit(self, key: UnitKey, unit: Seq<u8>) -> EngineView {
        EngineView { units: cache::stored(self.units, self.limit, key, unit), ..self }
    }

    /// The state after `n` units came from the cache.
    pub open spec fn hit(self, n: int) -> EngineView {
        EngineView {
            stats: Stats { units_cached: counted(self.stats.units_cached, n), ..self.stats },
            ..self
        }
    }

    /// The state after `n` bytes of the file `id` were served, up to `end`.
    pub open spec fn served(self, id: NodeId, end: u64, n: int) -> EngineView {
        EngineView {
            stats: Stats { bytes_served: counted(self.stats.bytes_served, n), ..self.stats },
            last_end: self.last_end.insert(id, end),
            ..self
        }
    }

    /// The state after the unit `plain` came back from decryption.
    pub open spec fn unlocked(self, plain: Seq<u8>) -> EngineView {
        EngineView {
            stats: Stats {
                units_decrypted: counted(self.stats.units_decrypted, 1),
                decrypt_errors: if mmbd::clear_ts(plain) {
                    self.stats.decrypt_errors
                } else {
                    counted(self.stats.decrypt_errors, 1)
                },
                ..self.stats
            },
            ..self
        }
    }

    /// The state after a unit could not be decrypted.
    pub open spec fn refused(self) -> EngineView {
        EngineView {
            stats: Stats { decrypt_errors: counted(self.stats.decrypt_errors, 1), ..self.stats },
            ..self
        }
    }
}

// ───────────────────────── requests ─────────────────────────

/// The part of the unit `unit`, which holds `buf`, that the request
/// `start..end` asks for.
pub open spec fn part_of(buf: Seq<u8>, unit: int, start: int, end: int) -> Seq<u8> {
    clip(
        buf,
        if start > unit * 6144 {
            start - unit * 6144
        } else {
            0
        },
        end - unit * 6144,
    )
}

/// Copies the part of a unit that falls inside the request onto `out`.
fn append_slice(out: &mut Vec<u8>, buf: &[u8], unit: u64, start: u64, end: u64)
    requires
        unit * 6144 <= u64::MAX,
    ensures
        final(out)@ == old(out)@ + part_of(buf@, unit as int, start as int, end as int),
{
    let unit_start: u64 = unit * UNIT;
    let ghost before = out@;
    if end > unit_start {
        let from: u64 = if start > unit_start {
            start - unit_start
        } else {
            0
        };
        let part = clip_bytes(buf, from, end - unit_start);
        out.extend_from_slice(part.as_slice());
        assert(out@ =~= before + part_of(buf@, unit as int, start as int, end as int));
    } else {
        assert(part_of(buf@, unit as int, start as int, end as int) =~= Seq::<u8>::empty());
        assert(out@ =~= before + part_of(buf@, unit as int, start as int, end as int));
    }
}

/// The end of a request of `count` bytes at `offset` of a file of `size` bytes.
pub open spec fn request_end(size: u64, offset: u64, count: int) -> int {
    if offset + count < size {
        offset + count
    } else {
        size as int
    }
}

fn end_of(size: u64, offset: u64, count: usize) -> (r: u64)
    requires
        offset < size,
    ensures
        r == request_end(size, offset, count as int),
{
    if count as u64 >= size - offset {
        size
    } else {
        offset + count as u64
    }
}

/// Asks the cache for the units from `unit` to `last`, up to the first that is
/// missing: the cache after that, what the request `start..end` takes of the
/// units, and whether all were there.
pub open spec fn all_cached(
    units: Units,
    flags: u32,
    unit: int,
    last: int,
    start: int,
    end: int,
) -> (Units, Seq<u8>, bool)
    decreases last + 1 - unit,
{
    if unit > last {
        (units, Seq::empty(), true)
    } else {
        match cache::unit_in(units, (flags, unit as u64)) {
            None => (units, Seq::empty(), false),
            Some(u) => {
                let rest = all_cached(
                    cache::touched(units, (flags, unit as u64)),
                    flags,
                    unit + 1,
                    last,
                    start,
                    end,
                );
                (rest.0, part_of(u, unit, start, end) + rest.1, rest.2)
            },
        }
    }
}

/// The answer to a read, as far as no disc is needed.
pub enum Begin {
    Refused(EngineError),
    /// The file is not encrypted: what the source gives for the same request is
    /// the answer.
    Passthrough,
    Done(Vec<u8>),
    /// A unit is missing: the read goes on with [`DecryptEngine::start`].
    Miss,
}

pub enum BeginView {
    Refused(EngineError),
    Passthrough,
    Done(Seq<u8>),
    Miss,
}

impl View for Begin {
    type V = BeginView;

    open spec fn view(&self) -> BeginView {
        match *self {
            Begin::Refused(e) => BeginView::Refused(e),
            Begin::Passthrough => BeginView::Passthrough,
            Begin::Done(b) => BeginView::Done(b@),
            Begin::Miss => BeginView::Miss,
        }
    }
}

impl EngineView {
    /// What a read of `count` bytes at `offset` of `node` is answered at once,
    /// and the state after it.
    pub open spec fn begun(self, node: Node, offset: u64, count: int) -> (BeginView, EngineView) {
        if self.shutting_down {
            (BeginView::Refused(EngineError::ShutDown), self)
        } else if !(node.kind is Encrypted) {
            (BeginView::Passthrough, self)
        } else if offset >= node.size || count == 0 {
            (BeginView::Done(Seq::empty()), self)
        } else {
            let end = request_end(node.size, offset, count);
            let first = offset as int / 6144;
            let last = (end - 1) / 6144;
            let got = all_cached(
                self.units,
                node.kind->name_flags,
                first,
                last,
                offset as int,
                end,
            );
            let next = EngineView { units: got.0, ..self };
            if got.2 {
                (
                    BeginView::Done(got.1),
                    next.hit(last - first + 1).served(node.id, end as u64, got.1.len() as int),
                )
            } else {
                (BeginView::Miss, next)
            }
        }
    }
}

// ───────────────────────── jobs ─────────────────────────

/// What a job waits for.
#[derive(Clone, Copy, Debug, PartialEq, Eq, Structural)]
pub enum Phase {
    /// The next unit is looked for.
    Scan,
    /// The stretch of the source up to `run_end`.
    Source,
    /// The units of that stretch are gone through.
    Run,
    /// The next of those units, decrypted.
    Unlock,
    Over,
}

/// A read that needs the disc.
pub struct ReadJob {
    node_id: u64,
    name_flags: u32,
    size: u64,
    offset: u64,
    end: u64,
    /// Units per stretch.
    window: u64,
    /// The next unit to look for, or the first of the stretch.
    unit: u64,
    out: Vec<u8>,
    raw: Vec<u8>,
    /// The next byte of `raw` to go through.
    at: usize,
    run_end: u64,
    phase: Phase,
}

#[verifier::ext_equal]
pub struct JobView {
    pub node_id: NodeId,
    pub name_flags: u32,
    pub size: int,
    pub offset: int,
    pub end: int,
    pub window: int,
    pub unit: int,
    pub out: Seq<u8>,
    pub raw: Seq<u8>,
    pub at: int,
    pub run_end: int,
    pub phase: Phase,
}

impl View for ReadJob {
    type V = JobView;

    closed spec fn view(&self) -> JobView {
        JobView {
            node_id: self.node_id,
            name_flags: self.name_flags,
            size: self.size as int,
            offset: self.offset as int,
            end: self.end as int,
            window: self.window as int,
            unit: self.unit as int,
            out: self.out@,
            raw: self.raw@,
            at: self.at as int,
            run_end: self.run_end as int,
            phase: self.phase,
        }
    }
}

impl JobView {
    /// The last unit of the request.
    pub open spec fn last_unit(self) -> int {
        (self.end - 1) / 6144
    }

    /// Length of the stretch that is read from the source.
    pub open spec fn run_len(self) -> int {
        (self.run_end - self.unit) * 6144
    }

    /// The number of the unit at byte `at` of the stretch.
    pub open spec fn current(self) -> int {
        self.unit + self.at / 6144
    }

    pub open spec fn wf(self) -> bool {
        &&& 0 <= self.offset < self.end <= self.size <= u64::MAX
        &&& self.window == SEQUENTIAL_WINDOW_UNITS || self.window == RANDOM_WINDOW_UNITS
        &&& self.offset / 6144 <= self.unit <= self.size / 6144 + 1
        &&& self.phase != Phase::Scan && self.phase != Phase::Over ==> {
            &&& self.unit <= self.last_unit()
            &&& self.unit < self.run_end <= self.size / 6144 + 1
            &&& self.run_end <= self.unit + self.window
        }
        &&& self.phase == Phase::Run || self.phase == Phase::Unlock ==> {
            &&& self.raw.len() <= self.run_len()
            &&& 0 <= self.at <= self.raw.len()
            &&& self.at % 6144 == 0 || self.at == self.raw.len()
        }
        &&& self.phase == Phase::Unlock ==> self.at + 6144 <= self.raw.len()
    }

    /// How much there is to go through before the job needs something again.
    pub open spec fn work(self) -> nat {
        let units = if self.unit <= self.last_unit() {
            self.last_unit() + 1 - self.unit
        } else {
            0
        };
        let bytes = if self.phase == Phase::Run {
            self.raw.len() - self.at
        } else {
            0
        };
        if bytes >= 0 {
            (units + bytes) as nat
        } else {
            0
        }
    }
}

/// What a job needs next.
pub enum Action {
    /// These bytes of the source.
    Source { offset: u64, len: u64 },
    /// This unit, which stands at `file_offset`, decrypted.
    Unlock { name_flags: u32, file_offset: u64, unit: Vec<u8> },
    /// Nothing: these are the bytes.
    Done(Vec<u8>),
}

pub enum ActionView {
    Source { offset: int, len: int },
    Unlock { name_flags: u32, file_offset: int, unit: Seq<u8> },
    Done(Seq<u8>),
}

impl View for Action {
    type V = ActionView;

    open spec fn view(&self) -> ActionView {
        match *self {
            Action::Source { offset, len } => ActionView::Source {
                offset: offset as int,
                len: len as int,
            },
            Action::Unlock { name_flags, file_offset, unit } => ActionView::Unlock {
                name_flags,
                file_offset: file_offset as int,
                unit: unit@,
            },
            Action::Done(b) => ActionView::Done(b@),
        }
    }
}

/// The unit at byte `at` of the stretch, shorter at the end of the file.
pub open spec fn chunk(j: JobView) -> Seq<u8> {
    clip(j.raw, j.at, j.at + 6144)
}

/// End of the stretch to be read for the unit that is missing: a whole window,
/// even past what was asked for, as far as the file goes.
pub open spec fn run_end(j: JobView) -> int {
    let units = (j.size + 6143) / 6144;
    if j.unit + j.window < units {
        j.unit + j.window
    } else if units > j.unit + 1 {
        units
    } else {
        j.unit + 1
    }
}

/// The unit at hand is done with and stands as `buf`: a whole one is kept, and
/// what the request takes of it goes to the answer.
pub open spec fn settled(e: EngineView, j: JobView, buf: Seq<u8>) -> (EngineView, JobView) {
    (
        if buf.len() == 6144 {
            e.with_unit((j.name_flags, j.current() as u64), buf)
        } else {
            e
        },
        JobView {
            out: j.out + part_of(buf, j.current(), j.offset, j.end),
            at: j.at + buf.len(),
            phase: Phase::Run,
            ..j
        },
    )
}

/// One move of a job: the state after it, and what it needs, if anything.
pub open spec fn moved(e: EngineView, j: JobView) -> (EngineView, JobView, Option<ActionView>) {
    if j.phase == Phase::Scan {
        let key = (j.name_flags, j.unit as u64);
        if j.unit > j.last_unit() {
            finished(e, j)
        } else {
            match cache::unit_in(e.units, key) {
                Some(u) => (
                    e.asked(key).hit(1),
                    JobView {
                        out: j.out + part_of(u, j.unit, j.offset, j.end),
                        unit: j.unit + 1,
                        ..j
                    },
                    None,
                ),
                None => {
                    let n = JobView { run_end: run_end(j), phase: Phase::Source, ..j };
                    (
                        e,
                        n,
                        Some(ActionView::Source { offset: n.unit * 6144, len: n.run_len() }),
                    )
                },
            }
        }
    } else if j.at < j.raw.len() {
        let c = chunk(j);
        if c.len() == 6144 && c[4] == 0x47 {
            (
                e,
                JobView { phase: Phase::Unlock, ..j },
                Some(
                    ActionView::Unlock {
                        name_flags: j.name_flags,
                        file_offset: j.current() * 6144,
                        unit: c,
                    },
                ),
            )
        } else {
            (settled(e, j, c).0, settled(e, j, c).1, None)
        }
    } else if j.raw.len() < j.run_len() {
        finished(e, j)
    } else {
        (e, JobView { unit: j.run_end, phase: Phase::Scan, ..j }, None)
    }
}

pub open spec fn finished(e: EngineView, j: JobView) -> (EngineView, JobView, Option<ActionView>) {
    (
        e.served(j.node_id, j.end as u64, j.out.len() as int),
        JobView { out: Seq::empty(), phase: Phase::Over, ..j },
        Some(ActionView::Done(j.out)),
    )
}

/// A job carried on until it needs something.
pub open spec fn carried_on(e: EngineView, j: JobView) -> (EngineView, JobView, ActionView)
    decreases j.work(),
{
    let (e1, j1, a) = moved(e, j);
    match a {
        Some(x) => (e1, j1, x),
        None => if j1.work() < j.work() {
            carried_on(e1, j1)
        } else {
            (e1, j1, ActionView::Done(Seq::empty()))
        },
    }
}

/// A new engine.
pub open spec fn engine_for(cache_bytes: usize, has_udf: bool) -> EngineView {
    EngineView {
        units: Seq::empty(),
        limit: if cache_bytes / 6144 < 64 {
            64
        } else {
            cache_bytes as nat / 6144
        },
        last_end: Map::empty(),
        shutting_down: false,
        has_udf,
        stats: Stats {
            units_decrypted: 0,
            units_cached: 0,
            bytes_served: 0,
            decrypt_errors: 0,
        },
    }
}

/// A read at `offset` goes on about where the last one of that file ended.
pub open spec fn sequential(e: EngineView, id: NodeId, offset: u64) -> bool {
    e.last_end.dom().contains(id) && -8_388_608 <= offset - e.last_end[id] <= 8_388_608
}

/// The job for a read of an encrypted file, before its first move.
pub open spec fn job_for(e: EngineView, node: Node, offset: u64, count: int) -> JobView {
    JobView {
        node_id: node.id,
        name_flags: node.kind->name_flags,
        size: node.size as int,
        offset: offset as int,
        end: request_end(node.size, offset, count),
        window: if sequential(e, node.id, offset) {
            SEQUENTIAL_WINDOW_UNITS as int
        } else {
            RANDOM_WINDOW_UNITS as int
        },
        unit: offset as int / 6144,
        out: Seq::empty(),
        raw: Seq::empty(),
        at: 0,
        run_end: 0,
        phase: Phase::Scan,
    }
}

/// The job with the stretch that the source gave.
pub open spec fn with_source(j: JobView, raw: Seq<u8>) -> JobView {
    JobView { raw, at: 0, phase: Phase::Run, ..j }
}

/// The job waits for what `a` asks for.
pub open spec fn waits(j: JobView, a: ActionView) -> bool {
    match a {
        ActionView::Source { offset, len } => j.phase == Phase::Source && len == j.run_len()
            && offset == j.unit * 6144,
        ActionView::Unlock { unit, .. } => j.phase == Phase::Unlock && unit.len() == 6144,
        ActionView::Done(_) => j.phase == Phase::Over,
    }
}

/// Where to fetch ahead once the source gave `got` bytes, and how much.
pub open spec fn ahead_of(e: EngineView, j: JobView, got: int) -> Option<(u64, u64)> {
    let at = j.unit * 6144 + got;
    if e.has_udf && at < j.size {
        Some(
            (
                at as u64,
                (if j.size - at < PREFETCH_WINDOW {
                    j.size - at
                } else {
                    PREFETCH_WINDOW as int
                }) as u64,
            ),
        )
    } else {
        None
    }
}

/// A move keeps a job sound, and one that needs nothing leaves less to do.
pub proof fn lemma_moved(e: EngineView, j: JobView)
    requires
        j.wf(),
        j.phase == Phase::Scan || j.phase == Phase::Run,
    ensures
        moved(e, j).1.wf(),
        moved(e, j).2 is None ==> {
            &&& moved(e, j).1.work() < j.work()
            &&& moved(e, j).1.phase == Phase::Scan || moved(e, j).1.phase == Phase::Run
        },
        match moved(e, j).2 {
            Some(ActionView::Source { .. }) => moved(e, j).1.phase == Phase::Source,
            Some(ActionView::Unlock { unit, .. }) => moved(e, j).1.phase == Phase::Unlock
                && unit.len() == 6144,
            Some(ActionView::Done(_)) => moved(e, j).1.phase == Phase::Over,
            None => true,
        },
{
}

impl DecryptEngine {
    fn make(cache_bytes: usize, has_udf: bool) -> (r: DecryptEngine)
        ensures
            r@.units == Seq::<(UnitKey, Seq<u8>)>::empty(),
            r@.limit == if cache_bytes / 6144 < 64 {
                64
            } else {
                cache_bytes as int / 6144
            },
            r@.last_end == Map::<NodeId, u64>::empty(),
            !r@.shutting_down,
            r@.has_udf == has_udf,
            r@.stats == (Stats {
                units_decrypted: 0,
                units_cached: 0,
                bytes_served: 0,
                decrypt_errors: 0,
            }),
    {
        let n: usize = cache_bytes / mmbd::UNIT_SIZE;
        let units: usize = if n < 64 {
            64
        } else {
            n
        };
        DecryptEngine {
            cache: cache::new_cache(units),
            last_end: HashMap::new(),
            shutting_down: false,
            has_udf,
            stats: Stats {
                units_decrypted: 0,
                units_cached: 0,
                bytes_served: 0,
                decrypt_errors: 0,
            },
        }
    }

    /// An engine whose source is a mounted volume. `cache_bytes` bounds the
    /// cache, which keeps at least 64 units.
    pub fn new(cache_bytes: usize) -> (r: DecryptEngine)
        ensures
            r@ == engine_for(cache_bytes, false),
            r@.wf(),
    {
        let r = DecryptEngine::make(cache_bytes, false);
        assert(r@ =~= engine_for(cache_bytes, false));
        r
    }

    /// An engine whose source is a raw volume.
    pub fn new_with_udf(cache_bytes: usize) -> (r: DecryptEngine)
        ensures
            r@ == engine_for(cache_bytes, true),
            r@.wf(),
    {
        let r = DecryptEngine::make(cache_bytes, true);
        assert(r@ =~= engine_for(cache_bytes, true));
        r
    }

    pub fn is_shutting_down(&self) -> (r: bool)
        ensures
            r == self@.shutting_down,
    {
        self.shutting_down
    }

    /// Refuses all reads from now on.
    pub fn shutdown(&mut self)
        ensures
            final(self)@ == (EngineView { shutting_down: true, ..old(self)@ }),
    {
        self.shutting_down = true;
    }

    /// `(units_decrypted, cache_hits, bytes_served, decrypt_errors)`.
    pub fn stats(&self) -> (r: (u64, u64, u64, u64))
        ensures
            r == (
                self@.stats.units_decrypted,
                self@.stats.units_cached,
                self@.stats.bytes_served,
                self@.stats.decrypt_errors,
            ),
    {
        (
            self.stats.units_decrypted,
            self.stats.units_cached,
            self.stats.bytes_served,
            self.stats.decrypt_errors,
        )
    }

    fn note_read(&mut self, id: u64, end: u64, served: u64)
        ensures
            final(self)@ == old(self)@.served(id, end, served as int),
    {
        self.stats.bytes_served = count_up(self.stats.bytes_served, served);
        self.last_end.insert(id, end);
    }

    /// Reads `count` decrypted bytes at `offset` of `node`, as far as the cache
    /// has them. Fewer come back only at the end of the file.
    pub fn read(&mut self, node: &Node, offset: u64, count: usize) -> (r: Begin)
        ensures
            (r@, final(self)@) == old(self)@.begun(*node, offset, count as int),
            old(self)@.wf() ==> final(self)@.wf(),
            r is Refused <==> old(self)@.shutting_down,
            r is Passthrough <==> !old(self)@.shutting_down && !(node.kind is Encrypted),
    {
        proof {
            law::lemma_read_answered(self@, *node, offset, count as int);
        }
        if self.shutting_down {
            return Begin::Refused(EngineError::ShutDown);
        }
        let flags: u32 = match &node.kind {
            NodeKind::Encrypted { name_flags } => *name_flags,
            _ => {
                return Begin::Passthrough;
            },
        };
        let mut out: Vec<u8> = Vec::new();
        assert(out@ =~= Seq::<u8>::empty());
        if offset >= node.size || count == 0 {
            return Begin::Done(out);
        }
        let end: u64 = end_of(node.size, offset, count);
        let first: u64 = offset / UNIT;
        let last: u64 = (end - 1) / UNIT;
        let ghost before = self@;
        let ghost all = all_cached(
            before.units,
            flags,
            first as int,
            last as int,
            offset as int,
            end as int,
        );
        let mut unit: u64 = first;
        let mut missing = false;
        while unit <= last && !missing
            invariant
                last == (end - 1) / 6144,
                first <= unit <= last + 1,
                self@ == (EngineView { units: self@.units, ..before }),
                before.wf() ==> self@.wf(),
                !missing ==> {
                    let rest = all_cached(
                        self@.units,
                        flags,
                        unit as int,
                        last as int,
                        offset as int,
                        end as int,
                    );
                    &&& all.0 == rest.0
                    &&& all.1 == out@ + rest.1
                    &&& all.2 == rest.2
                },
                missing ==> !all.2 && all.0 == self@.units,
            decreases last + 1 - unit, (if missing { 0int } else { 1int }),
        {
            proof {
                if before.wf() {
                    cache::lemma_touched(
                        self@.units,
                        self@.limit,
                        (flags, unit),
                        |k: UnitKey| Seq::<u8>::empty(),
                    );
                }
            }
            let ghost now = self@;
            let ghost rest = all_cached(
                cache::touched(now.units, (flags, unit)),
                flags,
                unit + 1,
                last as int,
                offset as int,
                end as int,
            );
            match cache::get_unit(&mut self.cache, (flags, unit)) {
                None => {
                    missing = true;
                },
                Some(u) => {
                    let ghost had = out@;
                    append_slice(&mut out, u.as_slice(), unit, offset, end);
                    let ghost part = part_of(u@, unit as int, offset as int, end as int);
                    assert((had + part) + rest.1 =~= had + (part + rest.1));
                    unit += 1;
                },
            }
        }
        if missing {
            return Begin::Miss;
        }
        assert(out@ + Seq::<u8>::empty() =~= out@);
        self.stats.units_cached = count_up(self.stats.units_cached, last - first + 1);
        self.note_read(node.id, end, out.len() as u64);
        Begin::Done(out)
    }

    /// Takes up a read that the cache could not answer, and says what it needs
    /// first.
    pub fn start(&mut self, node: &Node, offset: u64, count: usize) -> (r: Result<
        (ReadJob, Action),
        EngineError,
    >)
        requires
            node.kind is Encrypted,
            offset < node.size,
            count > 0,
        ensures
            match r {
                Err(e) => old(self)@.shutting_down && e == EngineError::ShutDown && final(self)@
                    == old(self)@,
                Ok((job, action)) => {
                    &&& !old(self)@.shutting_down
                    &&& (final(self)@, job@, action@) == carried_on(
                        old(self)@,
                        job_for(old(self)@, *node, offset, count as int),
                    )
                    &&& job@.wf()
                    &&& waits(job@, action@)
                },
            },
            old(self)@.wf() ==> final(self)@.wf(),
    {
        if self.shutting_down {
            return Err(EngineError::ShutDown);
        }
        let flags: u32 = match &node.kind {
            NodeKind::Encrypted { name_flags } => *name_flags,
            _ => 0,
        };
        let sequential = match self.last_end.get(&node.id) {
            Some(prev) => if offset >= *prev {
                offset - *prev <= SEQUENTIAL_SLACK
            } else {
                *prev - offset <= SEQUENTIAL_SLACK
            },
            None => false,
        };
        let mut job = ReadJob {
            node_id: node.id,
            name_flags: flags,
            size: node.size,
            offset,
            end: end_of(node.size, offset, count),
            window: if sequential {
                SEQUENTIAL_WINDOW_UNITS
            } else {
                RANDOM_WINDOW_UNITS
            },
            unit: offset / UNIT,
            out: Vec::new(),
            raw: Vec::new(),
            at: 0,
            run_end: 0,
            phase: Phase::Scan,
        };
        assert(job@ =~= job_for(self@, *node, offset, count as int));
        let action = self.carry_on(&mut job);
        Ok((job, action))
    }

    /// Hands over what the source gave for the stretch that was asked for: fewer
    /// bytes mean that the file ends there. Says where to fetch ahead, and what
    /// the job needs next.
    pub fn source(&mut self, job: &mut ReadJob, raw: Vec<u8>) -> (r: (Option<(u64, u64)>, Action))
        requires
            old(job)@.wf(),
            old(job)@.phase == Phase::Source,
            raw@.len() <= old(job)@.run_len(),
        ensures
            r.0 == ahead_of(old(self)@, old(job)@, raw@.len() as int),
            (final(self)@, final(job)@, r.1@) == carried_on(
                old(self)@,
                with_source(old(job)@, raw@),
            ),
            final(job)@.wf(),
            waits(final(job)@, r.1@),
            old(self)@.wf() ==> final(self)@.wf(),
    {
        let got: u64 = raw.len() as u64;
        let left: u64 = if job.unit * UNIT < job.size {
            job.size - job.unit * UNIT
        } else {
            0
        };
        let ahead = if self.has_udf && got < left {
            let n: u64 = left - got;
            Some(
                (
                    job.unit * UNIT + got,
                    if n < PREFETCH_WINDOW {
                        n
                    } else {
                        PREFETCH_WINDOW
                    },
                ),
            )
        } else {
            None
        };
        let ghost before = job@;
        job.raw = raw;
        job.at = 0;
        job.phase = Phase::Run;
        assert(job@ =~= with_source(before, raw@));
        let action = self.carry_on(job);
        (ahead, action)
    }

    /// Hands over the unit that was to be decrypted, or that it could not be.
    pub fn decrypted(&mut self, job: &mut ReadJob, plain: Option<Vec<u8>>) -> (r: Result<
        Action,
        EngineError,
    >)
        requires
            old(job)@.wf(),
            old(job)@.phase == Phase::Unlock,
            plain matches Some(p) ==> p@.len() == 6144,
        ensures
            match plain {
                None => {
                    &&& r == Err::<Action, EngineError>(
                        EngineError::Undecrypted { unit: old(job)@.current() as u64 },
                    )
                    &&& final(self)@ == old(self)@.refused()
                    &&& final(job)@ == old(job)@
                },
                Some(p) => match r {
                    Err(_) => false,
                    Ok(action) => {
                        let s = settled(old(self)@.unlocked(p@), old(job)@, p@);
                        &&& (final(self)@, final(job)@, action@) == carried_on(s.0, s.1)
                        &&& final(job)@.wf()
                        &&& waits(final(job)@, action@)
                    },
                },
            },
            old(self)@.wf() ==> final(self)@.wf(),
    {
        match plain {
            None => {
                self.stats.decrypt_errors = count_up(self.stats.decrypt_errors, 1);
                Err(EngineError::Undecrypted { unit: job.unit + (job.at as u64) / UNIT })
            },
            Some(p) => {
                self.stats.units_decrypted = count_up(self.stats.units_decrypted, 1);
                if !mmbd::unit_looks_like_clear_ts(p.as_slice()) {
                    self.stats.decrypt_errors = count_up(self.stats.decrypt_errors, 1);
                }
                assert(self@ =~= old(self)@.unlocked(p@));
                self.settle(job, p);
                Ok(self.carry_on(job))
            },
        }
    }

    /// Puts the unit at hand into the cache and the answer.
    fn settle(&mut self, job: &mut ReadJob, buf: Vec<u8>)
        requires
            old(job)@.wf(),
            old(job)@.phase == Phase::Run || old(job)@.phase == Phase::Unlock,
            old(job)@.at < old(job)@.raw.len(),
            buf@.len() == chunk(old(job)@).len(),
        ensures
            (final(self)@, final(job)@) == settled(old(self)@, old(job)@, buf@),
            final(job)@.wf(),
            final(job)@.phase == Phase::Run,
            old(self)@.wf() ==> final(self)@.wf(),
    {
        let unit: u64 = job.unit + (job.at as u64) / UNIT;
        let n: usize = buf.len();
        append_slice(&mut job.out, buf.as_slice(), unit, job.offset, job.end);
        if n == mmbd::UNIT_SIZE {
            proof {
                if self@.wf() {
                    cache::lemma_stored(
                        self@.units,
                        self@.limit,
                        (job.name_flags, unit),
                        buf@,
                        |k: UnitKey| Seq::<u8>::empty(),
                    );
                }
            }
            cache::put_unit(&mut self.cache, (job.name_flags, unit), buf);
        }
        job.at = job.at + n;
        job.phase = Phase::Run;
        assert(job@ =~= settled(old(self)@, old(job)@, buf@).1);
        assert(self@ =~= settled(old(self)@, old(job)@, buf@).0);
    }

    /// Carries a job on until it needs something.
    fn carry_on(&mut self, job: &mut ReadJob) -> (r: Action)
        requires
            old(job)@.wf(),
            old(job)@.phase == Phase::Scan || old(job)@.phase == Phase::Run,
        ensures
            (final(self)@, final(job)@, r@) == carried_on(old(self)@, old(job)@),
            final(job)@.wf(),
            waits(final(job)@, r@),
            old(self)@.wf() ==> final(self)@.wf(),
    {
        let ghost goal = carried_on(self@, job@);
        loop
            invariant
                job@.wf(),
                job@.phase == Phase::Scan || job@.phase == Phase::Run,
                goal == carried_on(self@, job@),
                old(self)@.wf() ==> self@.wf(),
                goal == carried_on(old(self)@, old(job)@),
            decreases job@.work(),
        {
            proof {
                lemma_moved(self@, job@);
            }
            let ghost e0 = self@;
            let ghost j0 = job@;
            if job.phase == Phase::Scan {
                if job.unit > (job.end - 1) / UNIT {
                    return self.finish(job);
                }
                proof {
                    if self@.wf() {
                        cache::lemma_touched(
                            self@.units,
                            self@.limit,
                            (job.name_flags, job.unit),
                            |k: UnitKey| Seq::<u8>::empty(),
                        );
                    }
                }
                match cache::get_unit(&mut self.cache, (job.name_flags, job.unit)) {
                    Some(u) => {
                        self.stats.units_cached = count_up(self.stats.units_cached, 1);
                        append_slice(&mut job.out, u.as_slice(), job.unit, job.offset, job.end);
                        job.unit = job.unit + 1;
                        assert(self@ =~= moved(e0, j0).0);
                        assert(job@ =~= moved(e0, j0).1);
                    },
                    None => {
                        let units: u64 = job.size / UNIT + if job.size % UNIT > 0 {
                            1
                        } else {
                            0
                        };
                        job.run_end = if job.unit + job.window < units {
                            job.unit + job.window
                        } else if units > job.unit + 1 {
                            units
                        } else {
                            job.unit + 1
                        };
                        job.phase = Phase::Source;
                        assert(self@ =~= moved(e0, j0).0);
                        assert(job@ =~= moved(e0, j0).1);
                        return Action::Source {
                            offset: job.unit * UNIT,
                            len: (job.run_end - job.unit) * UNIT,
                        };
                    },
                }
            } else if job.at < job.raw.len() {
                let c = clip_bytes(job.raw.as_slice(), job.at as u64, job.at as u64 + UNIT);
                if c.len() == mmbd::UNIT_SIZE && c[4] == 0x47 {
                    job.phase = Phase::Unlock;
                    assert(job@ =~= moved(e0, j0).1);
                    let unit: u64 = job.unit + (job.at as u64) / UNIT;
                    return Action::Unlock {
                        name_flags: job.name_flags,
                        file_offset: unit * UNIT,
                        unit: c,
                    };
                }
                self.settle(job, c);
            } else if (job.raw.len() as u64) < (job.run_end - job.unit) * UNIT {
                return self.finish(job);
            } else {
                job.unit = job.run_end;
                job.phase = Phase::Scan;
                assert(job@ =~= moved(e0, j0).1);
            }
        }
    }

    fn finish(&mut self, job: &mut ReadJob) -> (r: Action)
        ensures
            (final(self)@, final(job)@, Some(r@)) == finished(old(self)@, old(job)@),
    {
        self.note_read(job.node_id, job.end, job.out.len() as u64);
        let mut out: Vec<u8> = Vec::new();
        out.append(&mut job.out);
        job.phase = Phase::Over;
        assert(out@ =~= old(job)@.out);
        assert(job@ =~= finished(old(self)@, old(job)@).1);
        Action::Done(out)
    }
}

impl ReadJob {
    /// What the job waits for.
    pub fn phase(&self) -> (r: Phase)
        ensures
            r == self@.phase,
    {
        self.phase
    }
}

// ───────────────────────── plain files ─────────────────────────

/// How a read of a plain file went.
#[derive(Clone, Copy, Debug, PartialEq, Eq, Structural)]
pub enum PlainRead {
    /// This many bytes came; none at the end of the file.
    Got(usize),
    Interrupted,
    Failed,
}

/// What to do next for a read of a plain file.
#[derive(Clone, Copy, Debug, PartialEq, Eq, Structural)]
pub enum PlainNext {
    /// Read on at `offset`, up to `len` bytes.
    Read { offset: u64, len: usize },
    /// The first bytes that came are the answer.
    Done(usize),
    Failed,
}

/// A read of `count` bytes at `offset`, of which `done` are there, after `last`:
/// it goes on until all bytes are there or the file ends. An interruption is no
/// failure.
pub open spec fn plain_next(offset: u64, count: usize, done: usize, last: Option<PlainRead>) -> (
    usize,
    PlainNext,
) {
    match last {
        Some(PlainRead::Failed) => (done, PlainNext::Failed),
        Some(PlainRead::Got(0)) => (done, PlainNext::Done(done)),
        _ => {
            let now = match last {
                Some(PlainRead::Got(n)) => done + n,
                _ => done as int,
            };
            if now >= count {
                (count, PlainNext::Done(count))
            } else {
                (
                    now as usize,
                    PlainNext::Read {
                        offset: (offset + now) as u64,
                        len: (count - now) as usize,
                    },
                )
            }
        },
    }
}

/// The next step of a read of a plain file; `done` is brought up to date.
pub fn read_plain(offset: u64, count: usize, done: &mut usize, last: Option<PlainRead>) -> (r:
    PlainNext)
    requires
        *old(done) <= count,
        offset + count <= u64::MAX,
    ensures
        (*final(done), r) == plain_next(offset, count, *old(done), last),
        *final(done) <= count,
{
    match last {
        Some(PlainRead::Failed) => {
            return PlainNext::Failed;
        },
        Some(PlainRead::Got(n)) => {
            if n == 0 {
                return PlainNext::Done(*done);
            }
            if n >= count - *done {
                *done = count;
            } else {
                *done = *done + n;
            }
        },
        _ => {},
    }
    if *done >= count {
        return PlainNext::Done(count);
    }
    PlainNext::Read { offset: offset + *done as u64, len: count - *done }
}

} // verus!
