//! What holds of decrypted reads, whatever the cache held and however the source
//! was cut.

use vstd::prelude::*;

use super::{
    ahead_of, all_cached, carried_on, chunk, job_for, moved, part_of, request_end, settled,
    with_source, ActionView, BeginView, EngineView, JobView, Phase,
};
use crate::cache;
use crate::cache::{UnitKey, Units};
use crate::disc::Node;
use crate::rawudf::law::{covered, file_content, lemma_read_honest, windows_faithful};
use crate::rawudf::log::{clip, clipped, honest, Known, Step};
use crate::rawudf::space::runs_ok;
use crate::rawudf::volume::RawUdfView;

verus! {

// ───────────────────────── the right bytes ─────────────────────────

/// The unit `u` of a file that holds `s`, shorter at its end.
pub open spec fn unit_of(s: Seq<u8>, u: int) -> Seq<u8> {
    clip(s, u * 6144, (u + 1) * 6144)
}

/// `plain` is what decryption makes of `cipher`: a unit without a sync byte,
/// and a short one at the end, stand as they are.
pub open spec fn deciphers(cipher: Seq<u8>, plain: Seq<u8>) -> bool {
    &&& plain.len() == cipher.len()
    &&& forall|u: int|
        0 <= u && (unit_of(cipher, u).len() < 6144 || unit_of(cipher, u)[4] != 0x47) ==> (
        #[trigger] unit_of(plain, u)) == unit_of(cipher, u)
}

/// What the cache ought to hold, from the decrypted content of each file.
pub open spec fn truth_of(plains: spec_fn(u32) -> Seq<u8>) -> spec_fn(UnitKey) -> Seq<u8> {
    |k: UnitKey| unit_of(plains(k.0), k.1 as int)
}

/// Every unit in the cache is a unit of its decrypted file.
pub open spec fn cache_true(e: EngineView, plains: spec_fn(u32) -> Seq<u8>) -> bool {
    e.wf() && cache::agrees(e.units, truth_of(plains))
}

/// Up to where the units of the file were gone through.
pub open spec fn reached(j: JobView) -> int {
    if j.phase == Phase::Run || j.phase == Phase::Unlock {
        j.unit * 6144 + j.at
    } else {
        j.unit * 6144
    }
}

pub open spec fn lesser(a: int, b: int) -> int {
    if a < b {
        a
    } else {
        b
    }
}

/// The job is about the file `cipher`, which `plain` deciphers, and has gathered
/// the right bytes so far.
pub open spec fn job_true(j: JobView, cipher: Seq<u8>, plain: Seq<u8>) -> bool {
    &&& j.wf()
    &&& j.phase != Phase::Over ==> j.out == clip(plain, j.offset, lesser(j.end, reached(j)))
    &&& j.phase == Phase::Run || j.phase == Phase::Unlock ==> j.raw == clip(
        cipher,
        j.unit * 6144,
        j.unit * 6144 + j.run_len(),
    )
}

/// What a job came to: the cache and the job are true, it asks for units of the
/// encrypted file, and what it gives are the bytes that were asked for.
pub open spec fn outcome_true(
    r: (EngineView, JobView, ActionView),
    plains: spec_fn(u32) -> Seq<u8>,
    cipher: Seq<u8>,
) -> bool {
    let plain = plains(r.1.name_flags);
    &&& cache_true(r.0, plains)
    &&& job_true(r.1, cipher, plain)
    &&& match r.2 {
        ActionView::Source { .. } => r.1.phase == Phase::Source,
        ActionView::Unlock { unit, .. } => r.1.phase == Phase::Unlock && unit == unit_of(
            cipher,
            r.1.current(),
        ),
        ActionView::Done(b) => b == clip(plain, r.1.offset, r.1.end),
    }
}

proof fn lemma_append(
    plain: Seq<u8>,
    buf: Seq<u8>,
    unit: int,
    offset: int,
    end: int,
    out: Seq<u8>,
)
    requires
        0 <= offset < end,
        0 <= unit,
        buf == unit_of(plain, unit),
        out == clip(plain, offset, lesser(end, unit * 6144)),
    ensures
        out + part_of(buf, unit, offset, end) == clip(
            plain,
            offset,
            lesser(end, unit * 6144 + buf.len()),
        ),
        buf.len() < 6144 ==> out + part_of(buf, unit, offset, end) == clip(plain, offset, end),
{
    let next = out + part_of(buf, unit, offset, end);
    assert(next =~= clip(plain, offset, lesser(end, unit * 6144 + buf.len())));
    if buf.len() < 6144 {
        assert(next =~= clip(plain, offset, end));
    }
}

proof fn lemma_settled_true(
    e: EngineView,
    j: JobView,
    buf: Seq<u8>,
    plains: spec_fn(u32) -> Seq<u8>,
    cipher: Seq<u8>,
)
    requires
        cache_true(e, plains),
        job_true(j, cipher, plains(j.name_flags)),
        deciphers(cipher, plains(j.name_flags)),
        j.phase == Phase::Run || j.phase == Phase::Unlock,
        j.at < j.raw.len(),
        buf == unit_of(plains(j.name_flags), j.current()),
    ensures
        cache_true(settled(e, j, buf).0, plains),
        job_true(settled(e, j, buf).1, cipher, plains(j.name_flags)),
        settled(e, j, buf).1.name_flags == j.name_flags,
        buf.len() == chunk(j).len(),
{
    let plain = plains(j.name_flags);
    let u = j.current();
    assert(chunk(j) =~= unit_of(cipher, u));
    lemma_append(plain, buf, u, j.offset, j.end, j.out);
    if buf.len() == 6144 {
        let key = (j.name_flags, u as u64);
        cache::lemma_stored(e.units, e.limit, key, buf, truth_of(plains));
    }
}

proof fn lemma_moved_true(
    e: EngineView,
    j: JobView,
    plains: spec_fn(u32) -> Seq<u8>,
    cipher: Seq<u8>,
)
    requires
        cache_true(e, plains),
        job_true(j, cipher, plains(j.name_flags)),
        deciphers(cipher, plains(j.name_flags)),
        j.phase == Phase::Scan || j.phase == Phase::Run,
    ensures
        moved(e, j).1.name_flags == j.name_flags,
        moved(e, j).1.offset == j.offset && moved(e, j).1.end == j.end,
        match moved(e, j).2 {
            None => cache_true(moved(e, j).0, plains) && job_true(
                moved(e, j).1,
                cipher,
                plains(j.name_flags),
            ),
            Some(a) => outcome_true((moved(e, j).0, moved(e, j).1, a), plains, cipher),
        },
{
    super::lemma_moved(e, j);
    let plain = plains(j.name_flags);
    if j.phase == Phase::Scan {
        let key = (j.name_flags, j.unit as u64);
        if j.unit <= j.last_unit() {
            cache::lemma_touched(e.units, e.limit, key, truth_of(plains));
            if let Some(u) = cache::unit_in(e.units, key) {
                lemma_append(plain, u, j.unit, j.offset, j.end, j.out);
            }
        }
    } else if j.at < j.raw.len() {
        let c = chunk(j);
        assert(c =~= unit_of(cipher, j.current()));
        if !(c.len() == 6144 && c[4] == 0x47) {
            assert(unit_of(plain, j.current()) == c);
            lemma_settled_true(e, j, c, plains, cipher);
        }
    } else if j.raw.len() < j.run_len() {
        assert(clip(plain, j.offset, lesser(j.end, reached(j))) =~= clip(
            plain,
            j.offset,
            j.end,
        ));
    }
}

proof fn lemma_carried_true(
    e: EngineView,
    j: JobView,
    plains: spec_fn(u32) -> Seq<u8>,
    cipher: Seq<u8>,
)
    requires
        cache_true(e, plains),
        job_true(j, cipher, plains(j.name_flags)),
        deciphers(cipher, plains(j.name_flags)),
        j.phase == Phase::Scan || j.phase == Phase::Run,
    ensures
        outcome_true(carried_on(e, j), plains, cipher),
        carried_on(e, j).1.name_flags == j.name_flags,
        carried_on(e, j).1.offset == j.offset && carried_on(e, j).1.end == j.end,
    decreases j.work(),
{
    super::lemma_moved(e, j);
    lemma_moved_true(e, j, plains, cipher);
    let (e1, j1, a) = moved(e, j);
    if a is None {
        lemma_carried_true(e1, j1, plains, cipher);
    }
}

proof fn lemma_all_cached_true(
    units: Units,
    limit: nat,
    flags: u32,
    unit: int,
    last: int,
    start: int,
    end: int,
    plains: spec_fn(u32) -> Seq<u8>,
    before: Seq<u8>,
)
    requires
        cache::units_ok(units, limit),
        cache::agrees(units, truth_of(plains)),
        0 <= start < end,
        last == (end - 1) / 6144,
        0 <= unit <= last + 1,
        last <= u64::MAX,
        before == clip(plains(flags), start, lesser(end, unit * 6144)),
    ensures
        ({
            let r = all_cached(units, flags, unit, last, start, end);
            &&& cache::units_ok(r.0, limit)
            &&& cache::agrees(r.0, truth_of(plains))
            &&& r.2 ==> before + r.1 == clip(plains(flags), start, end)
        }),
    decreases last + 1 - unit,
{
    if unit > last {
        assert(before + Seq::<u8>::empty() =~= before);
    } else {
        let key = (flags, unit as u64);
        cache::lemma_touched(units, limit, key, truth_of(plains));
        if let Some(u) = cache::unit_in(units, key) {
            let part = part_of(u, unit, start, end);
            lemma_append(plains(flags), u, unit, start, end, before);
            let next = cache::touched(units, key);
            lemma_all_cached_true(
                next,
                limit,
                flags,
                unit + 1,
                last,
                start,
                end,
                plains,
                before + part,
            );
            let rest = all_cached(next, flags, unit + 1, last, start, end);
            assert((before + part) + rest.1 =~= before + (part + rest.1));
        }
    }
}

/// A read that the cache answers gives the decrypted bytes that were asked for,
/// and leaves the cache true.
pub proof fn lemma_cached_read_true(
    e: EngineView,
    node: Node,
    offset: u64,
    count: int,
    plains: spec_fn(u32) -> Seq<u8>,
)
    requires
        cache_true(e, plains),
        count >= 0,
        node.kind is Encrypted,
        plains(node.kind->name_flags).len() <= node.size,
    ensures
        cache_true(e.begun(node, offset, count).1, plains),
        match e.begun(node, offset, count).0 {
            BeginView::Done(b) => b == clip(
                plains(node.kind->name_flags),
                offset as int,
                request_end(node.size, offset, count),
            ),
            _ => true,
        },
{
    let flags = node.kind->name_flags;
    let end = request_end(node.size, offset, count);
    if offset >= node.size || count == 0 {
        assert(clip(plains(flags), offset as int, end) =~= Seq::<u8>::empty());
    } else if !e.shutting_down {
        let first = offset as int / 6144;
        let none = Seq::<u8>::empty();
        assert(none =~= clip(plains(flags), offset as int, lesser(end, first * 6144)));
        lemma_all_cached_true(
            e.units,
            e.limit,
            flags,
            first,
            (end - 1) / 6144,
            offset as int,
            end,
            plains,
            none,
        );
        let got = all_cached(e.units, flags, first, (end - 1) / 6144, offset as int, end);
        assert(none + got.1 =~= got.1);
    }
}

/// A read that needs the disc starts out true: it asks for the right stretch or
/// unit, or gives the decrypted bytes that were asked for.
pub proof fn lemma_start_true(
    e: EngineView,
    node: Node,
    offset: u64,
    count: int,
    plains: spec_fn(u32) -> Seq<u8>,
    cipher: Seq<u8>,
)
    requires
        cache_true(e, plains),
        count > 0,
        node.kind is Encrypted,
        offset < node.size,
        deciphers(cipher, plains(node.kind->name_flags)),
    ensures
        outcome_true(carried_on(e, job_for(e, node, offset, count)), plains, cipher),
        carried_on(e, job_for(e, node, offset, count)).1.name_flags == node.kind->name_flags,
        carried_on(e, job_for(e, node, offset, count)).1.offset == offset,
        carried_on(e, job_for(e, node, offset, count)).1.end == request_end(
            node.size,
            offset,
            count,
        ),
{
    let j = job_for(e, node, offset, count);
    let plain = plains(j.name_flags);
    assert(j.out =~= clip(plain, j.offset, lesser(j.end, reached(j))));
    lemma_carried_true(e, j, plains, cipher);
}

/// When the source gives the encrypted bytes of the stretch, as far as the file
/// goes, the job stays true.
pub proof fn lemma_source_true(
    e: EngineView,
    j: JobView,
    raw: Seq<u8>,
    plains: spec_fn(u32) -> Seq<u8>,
    cipher: Seq<u8>,
)
    requires
        cache_true(e, plains),
        job_true(j, cipher, plains(j.name_flags)),
        deciphers(cipher, plains(j.name_flags)),
        j.phase == Phase::Source,
        raw == clip(cipher, j.unit * 6144, j.unit * 6144 + j.run_len()),
    ensures
        outcome_true(carried_on(e, with_source(j, raw)), plains, cipher),
        carried_on(e, with_source(j, raw)).1.name_flags == j.name_flags,
        carried_on(e, with_source(j, raw)).1.offset == j.offset,
        carried_on(e, with_source(j, raw)).1.end == j.end,
{
    lemma_carried_true(e, with_source(j, raw), plains, cipher);
}

/// When a unit comes back decrypted, the job stays true.
pub proof fn lemma_decrypted_true(
    e: EngineView,
    j: JobView,
    buf: Seq<u8>,
    plains: spec_fn(u32) -> Seq<u8>,
    cipher: Seq<u8>,
)
    requires
        cache_true(e, plains),
        job_true(j, cipher, plains(j.name_flags)),
        deciphers(cipher, plains(j.name_flags)),
        j.phase == Phase::Unlock,
        buf == unit_of(plains(j.name_flags), j.current()),
    ensures
        ({
            let s = settled(e.unlocked(buf), j, buf);
            &&& outcome_true(carried_on(s.0, s.1), plains, cipher)
            &&& carried_on(s.0, s.1).1.name_flags == j.name_flags
            &&& carried_on(s.0, s.1).1.offset == j.offset
            &&& carried_on(s.0, s.1).1.end == j.end
        }),
{
    let s = settled(e.unlocked(buf), j, buf);
    lemma_settled_true(e.unlocked(buf), j, buf, plains, cipher);
    lemma_carried_true(s.0, s.1, plains, cipher);
}

/// What a raw volume gives for the stretch that a job asks for is what the job
/// needs: the encrypted bytes of the file there, as far as it goes.
pub proof fn lemma_volume_feeds_job(
    m: Known,
    image: Seq<u8>,
    v: RawUdfView,
    rel: Seq<char>,
    j: JobView,
)
    requires
        v.wf(),
        honest(m, image),
        clipped(m),
        windows_faithful(v, image, rel),
        j.wf(),
        j.phase == Phase::Source,
        v.meta(m, rel) matches Step::Done(meta) && meta.size == j.size && covered(
            image,
            meta.extents,
        ) && runs_ok(meta.extents),
    ensures
        ({
            let meta = v.meta(m, rel)->Done_0;
            let cipher = clip(file_content(image, meta), 0, j.size);
            match v.read(m, rel, (j.unit * 6144) as u64, j.run_len()).0 {
                Step::Done(raw) => raw == clip(
                    cipher,
                    j.unit * 6144,
                    j.unit * 6144 + j.run_len(),
                ),
                _ => true,
            }
        }),
{
    let meta = v.meta(m, rel)->Done_0;
    let at = (j.unit * 6144) as u64;
    assert(j.unit * 6144 < j.size);
    lemma_read_honest(m, image, v, rel, at, j.run_len());
    let whole = file_content(image, meta);
    let cipher = clip(whole, 0, j.size);
    assert(clip(whole, at as int, crate::rawudf::volume::read_end(meta.size, at, j.run_len()))
        =~= clip(cipher, j.unit * 6144, j.unit * 6144 + j.run_len()));
}

// ───────────────────────── what a read comes to ─────────────────────────

/// `b` is the stretch of `n` bytes of `s` that starts at `from`.
pub open spec fn stretch(b: Seq<u8>, s: Seq<u8>, from: int, n: int) -> bool {
    &&& 0 <= from && 0 <= n && from + n <= s.len()
    &&& b.len() == n
    &&& forall|i: int| 0 <= i < n ==> #[trigger] b[i] == s[from + i]
}

/// How many bytes a read of `count` bytes at `offset` of a file of `size` bytes
/// gives: all of them, or those up to the end of the file.
pub open spec fn due(size: int, offset: int, count: int) -> int {
    vstd::math::max(0, vstd::math::min(count, size - offset))
}

proof fn lemma_clip_is_stretch(s: Seq<u8>, from: int, n: int)
    requires
        0 <= from,
        0 <= n,
        from + n <= s.len(),
    ensures
        stretch(clip(s, from, from + n), s, from, n),
{
}

/// How a read is answered: it is refused just when the engine was shut down, and
/// passed through just when the file is not encrypted. The bytes of an encrypted
/// file come decrypted from the cache, or the disc is needed.
pub proof fn lemma_read_answered(e: EngineView, node: Node, offset: u64, count: int)
    requires
        count >= 0,
    ensures
        e.begun(node, offset, count).0 is Refused <==> e.shutting_down,
        e.begun(node, offset, count).0 is Passthrough <==> !e.shutting_down && !(
        node.kind is Encrypted),
        !e.shutting_down && node.kind is Encrypted && (offset >= node.size || count == 0)
            ==> e.begun(node, offset, count).0 == BeginView::Done(Seq::empty()),
        !e.shutting_down && node.kind is Encrypted && offset < node.size && count > 0 ==> e.begun(
            node,
            offset,
            count,
        ).0 is Done || e.begun(node, offset, count).0 is Miss,
{
}

proof fn lemma_all_cached_when(
    units: Units,
    flags: u32,
    unit: int,
    last: int,
    start: int,
    end: int,
)
    requires
        0 <= unit,
        last <= u64::MAX,
    ensures
        all_cached(units, flags, unit, last, start, end).2 <==> (forall|u: u64|
            unit <= u <= last ==> #[trigger] cache::unit_in(units, (flags, u)) is Some),
    decreases last + 1 - unit,
{
    if unit <= last {
        let key = (flags, unit as u64);
        let next = cache::touched(units, key);
        lemma_touched_same(units, key);
        lemma_all_cached_when(next, flags, unit + 1, last, start, end);
        assert forall|u: u64|
            cache::unit_in(next, (flags, u)) == #[trigger] cache::unit_in(units, (flags, u)) by {}
        if all_cached(units, flags, unit, last, start, end).2 {
            assert forall|u: u64| unit <= u <= last implies #[trigger] cache::unit_in(
                units,
                (flags, u),
            ) is Some by {
                if u > unit {
                    assert(cache::unit_in(next, (flags, u)) is Some);
                }
            }
        } else if cache::unit_in(units, key) is Some {
            let u = choose|u: u64|
                unit + 1 <= u <= last && !(#[trigger] cache::unit_in(next, (flags, u)) is Some);
            assert(!(cache::unit_in(units, (flags, u)) is Some));
        } else {
            assert(!(cache::unit_in(units, (flags, unit as u64)) is Some));
        }
    }
}

/// The disc is needed just when a unit that the request touches is not in the
/// cache.
pub proof fn lemma_read_misses(e: EngineView, node: Node, offset: u64, count: int)
    requires
        !e.shutting_down,
        node.kind is Encrypted,
        offset < node.size,
        count > 0,
    ensures
        e.begun(node, offset, count).0 is Miss <==> (exists|u: u64|
            u * 6144 < vstd::math::min(offset + count, node.size as int) && offset < (u + 1) * 6144
                && #[trigger] cache::unit_in(e.units, (node.kind->name_flags, u)) is None),
{
    let flags = node.kind->name_flags;
    let end = vstd::math::min(offset + count, node.size as int);
    let first = offset as int / 6144;
    let last = (end - 1) / 6144;
    assert(end == request_end(node.size, offset, count));
    lemma_all_cached_when(e.units, flags, first, last, offset as int, end);
    if e.begun(node, offset, count).0 is Miss {
        let u = choose|u: u64|
            first <= u <= last && !(#[trigger] cache::unit_in(e.units, (flags, u)) is Some);
        assert(cache::unit_in(e.units, (flags, u)) is None);
        assert(u * 6144 < end && offset < (u + 1) * 6144);
    } else {
        assert forall|u: u64|
            u * 6144 < end && offset < (u + 1) * 6144 implies !(#[trigger] cache::unit_in(
            e.units,
            (flags, u),
        ) is None) by {
            assert(first <= u <= last);
        }
    }
}

/// What the cache answers are the bytes that were asked for of the decrypted
/// file, each in its place, and the counters tell of them.
pub proof fn lemma_cached_read_gives(
    e: EngineView,
    node: Node,
    offset: u64,
    count: int,
    plains: spec_fn(u32) -> Seq<u8>,
)
    requires
        cache_true(e, plains),
        0 <= count,
        node.kind is Encrypted,
        plains(node.kind->name_flags).len() == node.size,
        e.begun(node, offset, count).0 is Done,
        offset <= node.size,
    ensures
        stretch(
            e.begun(node, offset, count).0->Done_0,
            plains(node.kind->name_flags),
            offset as int,
            due(node.size as int, offset as int, count),
        ),
        offset < node.size && count > 0 ==> {
            let next = e.begun(node, offset, count).1;
            &&& next.last_end == e.last_end.insert(
                node.id,
                (offset + due(node.size as int, offset as int, count)) as u64,
            )
            &&& next.stats.units_decrypted == e.stats.units_decrypted
            &&& next.stats.decrypt_errors == e.stats.decrypt_errors
            &&& e.stats.bytes_served + due(node.size as int, offset as int, count) <= u64::MAX
                ==> next.stats.bytes_served == e.stats.bytes_served + due(
                node.size as int,
                offset as int,
                count,
            )
        },
{
    let plain = plains(node.kind->name_flags);
    let n = due(node.size as int, offset as int, count);
    lemma_cached_read_true(e, node, offset, count, plains);
    assert(request_end(node.size, offset, count) == offset + n || n == 0);
    lemma_clip_is_stretch(plain, offset as int, n);
}

/// What a job on the encrypted file `cipher` may come to. It asks for whole
/// units of the file, of which some byte was asked for; it has whole units
/// decrypted under the file's own name, each at its own place; and what it gives
/// in the end are the decrypted bytes that were asked for.
pub open spec fn outcome_right(
    r: (EngineView, JobView, ActionView),
    flags: u32,
    cipher: Seq<u8>,
    plain: Seq<u8>,
    offset: int,
    count: int,
) -> bool {
    let n = due(cipher.len() as int, offset, count);
    match r.2 {
        ActionView::Source { offset: at, len } => {
            &&& at % 6144 == 0 && len % 6144 == 0
            &&& 0 <= at < cipher.len() && 0 < len
            &&& at < offset + n && offset < at + 6144
            &&& at + len < cipher.len() + 6144 && len <= 2730 * 6144
            &&& cache::unit_in(r.0.units, (flags, (at / 6144) as u64)) is None
        },
        ActionView::Unlock { name_flags, file_offset, unit } => {
            &&& name_flags == flags
            &&& file_offset % 6144 == 0
            &&& stretch(unit, cipher, file_offset, 6144)
            &&& unit[4] == 0x47
        },
        ActionView::Done(b) => stretch(b, plain, offset, n),
    }
}

/// What a job waits for, by what it asked for.
pub open spec fn asked_of(j: JobView, a: ActionView) -> bool {
    match a {
        ActionView::Source { offset, len } => {
            &&& j.phase == Phase::Source
            &&& offset == j.unit * 6144
            &&& len == j.run_end * 6144 - j.unit * 6144
        },
        ActionView::Unlock { file_offset, .. } => {
            &&& j.phase == Phase::Unlock
            &&& file_offset == j.unit * 6144 + j.at
        },
        ActionView::Done(_) => j.phase == Phase::Over,
    }
}

proof fn lemma_moved_right(e: EngineView, j: JobView)
    requires
        j.wf(),
        j.phase == Phase::Scan || j.phase == Phase::Run,
    ensures
        moved(e, j).1.size == j.size,
        moved(e, j).2 matches Some(a) ==> {
            let n = moved(e, j).1;
            &&& asked_of(n, a)
            &&& match a {
                ActionView::Source { offset: at, len } => {
                    &&& at % 6144 == 0 && len % 6144 == 0
                    &&& 0 <= at < j.end && 0 < len
                    &&& j.offset < at + 6144
                    &&& at + len < j.size + 6144 && len <= 2730 * 6144
                    &&& cache::unit_in(
                        moved(e, j).0.units,
                        (j.name_flags, (at / 6144) as u64),
                    ) is None
                },
                ActionView::Unlock { name_flags, file_offset, unit } => {
                    &&& name_flags == j.name_flags
                    &&& file_offset % 6144 == 0
                    &&& file_offset == n.current() * 6144
                    &&& unit.len() == 6144 && unit[4] == 0x47
                },
                ActionView::Done(_) => true,
            }
        },
{
}

proof fn lemma_carried_right(
    e: EngineView,
    j: JobView,
    plains: spec_fn(u32) -> Seq<u8>,
    cipher: Seq<u8>,
    offset: int,
    count: int,
)
    requires
        cache_true(e, plains),
        job_true(j, cipher, plains(j.name_flags)),
        deciphers(cipher, plains(j.name_flags)),
        j.phase == Phase::Scan || j.phase == Phase::Run,
        cipher.len() == j.size,
        j.offset == offset,
        j.end == offset + due(cipher.len() as int, offset, count),
    ensures
        outcome_right(
            carried_on(e, j),
            j.name_flags,
            cipher,
            plains(j.name_flags),
            offset,
            count,
        ),
        asked_of(carried_on(e, j).1, carried_on(e, j).2),
        carried_on(e, j).1.size == j.size,
    decreases j.work(),
{
    super::lemma_moved(e, j);
    lemma_moved_true(e, j, plains, cipher);
    lemma_moved_right(e, j);
    let (e1, j1, a) = moved(e, j);
    let plain = plains(j.name_flags);
    match a {
        None => {
            lemma_carried_right(e1, j1, plains, cipher, offset, count);
        },
        Some(ActionView::Unlock { name_flags, file_offset, unit }) => {
            assert(unit == unit_of(cipher, j1.current()));
            assert(file_offset + 6144 <= cipher.len());
        },
        Some(ActionView::Done(b)) => {
            lemma_clip_is_stretch(plain, offset, due(cipher.len() as int, offset, count));
        },
        _ => {},
    }
}

/// A job under way on the file with these flags, which holds `cipher` and is
/// `plain` when decrypted, for `count` bytes at `offset`.
pub open spec fn job_on(
    j: JobView,
    flags: u32,
    cipher: Seq<u8>,
    plain: Seq<u8>,
    offset: int,
    count: int,
) -> bool {
    &&& job_true(j, cipher, plain)
    &&& deciphers(cipher, plain)
    &&& j.name_flags == flags
    &&& j.size == cipher.len()
    &&& j.offset == offset
    &&& j.end == offset + due(cipher.len() as int, offset, count)
}

/// A read that needs the disc begins as it should: it asks for units of the file,
/// or gives the decrypted bytes.
pub proof fn lemma_start_gives(
    e: EngineView,
    node: Node,
    offset: u64,
    count: int,
    plains: spec_fn(u32) -> Seq<u8>,
    cipher: Seq<u8>,
)
    requires
        cache_true(e, plains),
        count > 0,
        node.kind is Encrypted,
        offset < node.size,
        cipher.len() == node.size,
        deciphers(cipher, plains(node.kind->name_flags)),
    ensures
        ({
            let flags = node.kind->name_flags;
            let r = carried_on(e, job_for(e, node, offset, count));
            &&& outcome_right(r, flags, cipher, plains(flags), offset as int, count)
            &&& asked_of(r.1, r.2)
            &&& cache_true(r.0, plains)
            &&& job_on(r.1, flags, cipher, plains(flags), offset as int, count)
        }),
{
    let j = job_for(e, node, offset, count);
    let plain = plains(j.name_flags);
    assert(j.out =~= clip(plain, j.offset, lesser(j.end, reached(j))));
    lemma_start_true(e, node, offset, count, plains, cipher);
    lemma_carried_right(e, j, plains, cipher, offset as int, count);
}

/// A job that gets the bytes of the file that it asked for, as far as the file
/// goes, carries on as it should.
pub proof fn lemma_source_gives(
    e: EngineView,
    j: JobView,
    at: int,
    len: int,
    raw: Seq<u8>,
    plains: spec_fn(u32) -> Seq<u8>,
    cipher: Seq<u8>,
    offset: int,
    count: int,
)
    requires
        cache_true(e, plains),
        job_on(j, j.name_flags, cipher, plains(j.name_flags), offset, count),
        asked_of(j, ActionView::Source { offset: at, len }),
        stretch(raw, cipher, at, due(cipher.len() as int, at, len)),
    ensures
        ({
            let r = carried_on(e, with_source(j, raw));
            let plain = plains(j.name_flags);
            &&& outcome_right(r, j.name_flags, cipher, plain, offset, count)
            &&& asked_of(r.1, r.2)
            &&& cache_true(r.0, plains)
            &&& job_on(r.1, j.name_flags, cipher, plain, offset, count)
        }),
{
    assert(j.run_len() == len);
    assert(raw =~= clip(cipher, j.unit * 6144, j.unit * 6144 + j.run_len()));
    lemma_source_true(e, j, raw, plains, cipher);
    lemma_carried_right(e, with_source(j, raw), plains, cipher, offset, count);
}

/// A job that gets the unit that it had decrypted carries on as it should, and
/// one more unit counts as decrypted.
pub proof fn lemma_decrypted_gives(
    e: EngineView,
    j: JobView,
    at: int,
    flags: u32,
    unit: Seq<u8>,
    buf: Seq<u8>,
    plains: spec_fn(u32) -> Seq<u8>,
    cipher: Seq<u8>,
    offset: int,
    count: int,
)
    requires
        cache_true(e, plains),
        job_on(j, flags, cipher, plains(flags), offset, count),
        asked_of(j, ActionView::Unlock { name_flags: flags, file_offset: at, unit }),
        stretch(buf, plains(flags), at, 6144),
    ensures
        ({
            let s = settled(e.unlocked(buf), j, buf);
            let r = carried_on(s.0, s.1);
            &&& outcome_right(r, flags, cipher, plains(flags), offset, count)
            &&& asked_of(r.1, r.2)
            &&& cache_true(r.0, plains)
            &&& job_on(r.1, flags, cipher, plains(flags), offset, count)
            &&& e.stats.units_decrypted < u64::MAX ==> e.unlocked(buf).stats.units_decrypted
                == e.stats.units_decrypted + 1
        }),
{
    let s = settled(e.unlocked(buf), j, buf);
    assert(j.current() * 6144 == at);
    assert(buf =~= unit_of(plains(flags), j.current()));
    lemma_decrypted_true(e, j, buf, plains, cipher);
    lemma_settled_true(e.unlocked(buf), j, buf, plains, cipher);
    lemma_carried_right(s.0, s.1, plains, cipher, offset, count);
}

/// A read that goes on within eight MiB of where the last one of that file ended
/// takes longer stretches off the disc than any other.
pub proof fn lemma_stretches(e: EngineView, node: Node, offset: u64, count: int)
    ensures
        job_for(e, node, offset, count).window == if e.last_end.dom().contains(node.id) && e.last_end[node.id]
            <= offset + 8 * 1024 * 1024 && offset <= e.last_end[node.id] + 8 * 1024 * 1024 {
            2730int
        } else {
            64int
        },
{
}

/// A new engine holds no unit, keeps as many as it has room for and at least 64,
/// and has counted nothing.
pub proof fn lemma_new_engine(cache_bytes: usize, has_udf: bool, key: UnitKey)
    ensures
        ({
            let e = super::engine_for(cache_bytes, has_udf);
            &&& cache::unit_in(e.units, key) is None
            &&& !e.shutting_down
            &&& e.limit >= 64
            &&& e.limit == 64 || e.limit * 6144 <= cache_bytes < (e.limit + 1) * 6144
            &&& cache_bytes >= 64 * 6144 ==> cache_bytes < (e.limit + 1) * 6144
            &&& e.stats.units_decrypted == 0 && e.stats.units_cached == 0
            &&& e.stats.bytes_served == 0 && e.stats.decrypt_errors == 0
        }),
{
}

/// What is fetched ahead starts where the source left off and goes to the end of
/// the file or for sixteen MiB; only a raw volume fetches ahead.
pub proof fn lemma_ahead_exact(e: EngineView, j: JobView, got: int)
    requires
        j.wf(),
        0 <= got,
    ensures
        ahead_of(e, j, got) is Some <==> e.has_udf && j.unit * 6144 + got < j.size,
        ahead_of(e, j, got) matches Some((at, n)) ==> at == j.unit * 6144 + got && n
            == vstd::math::min(16_777_216, j.size - at),
{
}

// ───────────────────────── jobs end ─────────────────────────

/// How much is left of a job: every answer that it gets leaves less.
pub open spec fn left(j: JobView) -> int {
    let units = if j.unit <= j.last_unit() {
        (j.last_unit() + 1 - j.unit) * 0x400_0000
    } else {
        0
    };
    match j.phase {
        Phase::Scan => units,
        Phase::Source => units - 1,
        Phase::Run => units - 2 - 2 * j.at,
        Phase::Unlock => units - 3 - 2 * j.at,
        Phase::Over => -1,
    }
}

proof fn lemma_moved_left(e: EngineView, j: JobView)
    requires
        j.wf(),
        j.phase == Phase::Scan || j.phase == Phase::Run,
    ensures
        left(moved(e, j).1) < left(j),
        left(j) >= 0,
{
    assert(j.last_unit() + 1 - j.unit >= 1 ==> (j.last_unit() + 1 - j.unit) * 0x400_0000
        >= 0x400_0000);
    let n = moved(e, j).1;
    if j.phase == Phase::Run {
        assert(j.run_len() <= 2730 * 6144);
    }
}

/// Every step of a job leaves less of it: what it asks for comes to an end.
pub proof fn lemma_carried_left(e: EngineView, j: JobView)
    requires
        j.wf(),
        j.phase == Phase::Scan || j.phase == Phase::Run,
    ensures
        left(carried_on(e, j).1) < left(j),
        left(j) >= 0,
    decreases j.work(),
{
    super::lemma_moved(e, j);
    lemma_moved_left(e, j);
    let (e1, j1, a) = moved(e, j);
    if a is None {
        lemma_carried_left(e1, j1);
    }
}

/// An answer, from the source or from decryption, leaves less of a job.
pub proof fn lemma_answered_left(e: EngineView, j: JobView, b: Seq<u8>)
    requires
        j.wf(),
        j.phase == Phase::Source && b.len() <= j.run_len() || j.phase == Phase::Unlock && b.len()
            == 6144,
    ensures
        j.phase == Phase::Source ==> left(with_source(j, b)) < left(j),
        j.phase == Phase::Unlock ==> left(settled(e, j, b).1) < left(j),
{
}

// ───────────────────────── the cache ─────────────────────────

/// Both caches answer alike.
pub open spec fn same_units(a: Units, b: Units) -> bool {
    forall|k: UnitKey| #[trigger] cache::unit_in(a, k) == cache::unit_in(b, k)
}

proof fn lemma_without_keeps(items: Units, key: UnitKey, k: UnitKey)
    requires
        k != key,
    ensures
        cache::unit_in(cache::without(items, key), k) == cache::unit_in(items, k),
    decreases items.len(),
{
    reveal(Seq::filter);
    if items.len() > 0 {
        let p = cache::other_than(key);
        let first = items.take(1);
        let rest = items.skip(1);
        assert(items =~= first + rest);
        Seq::filter_distributes_over_add(first, rest, p);
        assert(first.drop_last() =~= Seq::empty());
        assert(first.drop_last().filter(p) =~= Seq::empty());
        lemma_without_keeps(rest, key, k);
        let w = cache::without(rest, key);
        if items[0].0 != key {
            assert(first.filter(p) =~= first);
            assert(cache::without(items, key) =~= first + w);
            assert((first + w)[0] == items[0]);
            assert((first + w).skip(1) =~= w);
        } else {
            assert(first.filter(p) =~= Seq::empty());
            assert(cache::without(items, key) =~= w);
        }
    }
}

/// Asking for a unit changes no answer of the cache.
pub proof fn lemma_touched_same(items: Units, key: UnitKey)
    ensures
        same_units(items, cache::touched(items, key)),
{
    if let Some(u) = cache::unit_in(items, key) {
        let next = cache::touched(items, key);
        let w = cache::without(items, key);
        assert(next[0] == (key, u));
        assert(next.skip(1) =~= w);
        assert forall|k: UnitKey| #[trigger]
            cache::unit_in(items, k) == cache::unit_in(next, k) by {
            if k != key {
                lemma_without_keeps(items, key, k);
            }
        }
    }
}

proof fn lemma_all_cached_same(
    a: Units,
    b: Units,
    flags: u32,
    unit: int,
    last: int,
    start: int,
    end: int,
)
    requires
        same_units(a, b),
    ensures
        all_cached(a, flags, unit, last, start, end).1 == all_cached(
            b,
            flags,
            unit,
            last,
            start,
            end,
        ).1,
        all_cached(a, flags, unit, last, start, end).2 == all_cached(
            b,
            flags,
            unit,
            last,
            start,
            end,
        ).2,
        same_units(a, all_cached(a, flags, unit, last, start, end).0),
    decreases last + 1 - unit,
{
    if unit <= last {
        let key = (flags, unit as u64);
        assert(cache::unit_in(a, key) == cache::unit_in(b, key));
        lemma_touched_same(a, key);
        lemma_touched_same(b, key);
        let ta = cache::touched(a, key);
        let tb = cache::touched(b, key);
        assert forall|k: UnitKey| #[trigger]
            cache::unit_in(ta, k) == cache::unit_in(tb, k) by {
            assert(cache::unit_in(a, k) == cache::unit_in(b, k));
        }
        if cache::unit_in(a, key) is Some {
            lemma_all_cached_same(ta, tb, flags, unit + 1, last, start, end);
            let r = all_cached(a, flags, unit, last, start, end).0;
            assert forall|k: UnitKey| #[trigger]
                cache::unit_in(a, k) == cache::unit_in(r, k) by {
                assert(cache::unit_in(ta, k) == cache::unit_in(r, k));
            }
        }
    }
}

/// A read that the cache answered is answered alike when it is repeated.
pub proof fn lemma_read_repeats(e: EngineView, node: Node, offset: u64, count: int)
    requires
        e.begun(node, offset, count).0 is Done,
    ensures
        e.begun(node, offset, count).1.begun(node, offset, count).0 == e.begun(
            node,
            offset,
            count,
        ).0,
{
    if offset < node.size && count != 0 {
        let flags = node.kind->name_flags;
        let end = request_end(node.size, offset, count);
        let first = offset as int / 6144;
        let last = (end - 1) / 6144;
        let got = all_cached(e.units, flags, first, last, offset as int, end);
        lemma_all_cached_same(e.units, e.units, flags, first, last, offset as int, end);
        lemma_all_cached_same(e.units, got.0, flags, first, last, offset as int, end);
    }
}

/// A unit that was decrypted is in the cache, so it need not be decrypted again.
pub proof fn lemma_decrypted_once(e: EngineView, j: JobView, buf: Seq<u8>)
    requires
        buf.len() == 6144,
    ensures
        cache::unit_in(settled(e, j, buf).0.units, (j.name_flags, j.current() as u64)) == Some(buf),
{
    cache::lemma_stored_then_asked(e.units, e.limit, (j.name_flags, j.current() as u64), buf);
}

/// Once shut down, no read of any file is answered.
pub proof fn lemma_shut_down(e: EngineView, node: Node, offset: u64, count: int)
    requires
        e.shutting_down,
    ensures
        e.begun(node, offset, count) == (
            BeginView::Refused(super::EngineError::ShutDown),
            e,
        ),
{
}

/// What is fetched ahead lies in the file, right behind what was read.
pub proof fn lemma_ahead_inside(e: EngineView, j: JobView, got: int)
    requires
        j.wf(),
        0 <= got,
    ensures
        match ahead_of(e, j, got) {
            Some((at, n)) => at == j.unit * 6144 + got && 0 < n && at + n <= j.size,
            None => true,
        },
{
}

// ───────────────────────── plain files ─────────────────────────

/// A read of a plain file goes on behind what came so far, for as much as is
/// missing, until all is there or nothing more comes; it fails where a read did.
pub proof fn lemma_plain_read(
    offset: u64,
    count: usize,
    done: usize,
    last: Option<super::PlainRead>,
)
    requires
        done <= count,
        offset + count <= u64::MAX,
    ensures
        ({
            let (now, next) = super::plain_next(offset, count, done, last);
            let come = match last {
                Some(super::PlainRead::Got(n)) => vstd::math::min(done + n, count as int),
                _ => done as int,
            };
            &&& now == come
            &&& match next {
                super::PlainNext::Failed => last == Some(super::PlainRead::Failed),
                super::PlainNext::Done(n) => n == come && (n == count || last == Some(
                    super::PlainRead::Got(0),
                )),
                super::PlainNext::Read { offset: at, len } => at == offset + come && come + len
                    == count && 0 < len && last != Some(super::PlainRead::Failed) && last != Some(
                    super::PlainRead::Got(0),
                ),
            }
        }),
{
}

// ───────────────────────── counting ─────────────────────────

/// A stretch that is read from the source is as long as the window, or goes to the
/// end of the file's last unit.
pub proof fn lemma_run_end(j: JobView)
    requires
        j.wf(),
        j.unit * 6144 < j.size,
    ensures
        super::run_end(j) == vstd::math::min(j.unit + j.window, (j.size + 6143) / 6144),
{
}

/// What is counted: each unit that comes back decrypted, and each that does not
/// look so or could not be decrypted at all as an error; each unit that came from
/// the cache; and each byte that is handed out, with where it ended.
pub proof fn lemma_counts(e: EngineView, plain: Seq<u8>, id: u64, end: u64, n: int)
    requires
        0 <= n,
        e.stats.units_decrypted < u64::MAX,
        e.stats.decrypt_errors < u64::MAX,
        e.stats.units_cached + n <= u64::MAX,
        e.stats.bytes_served + n <= u64::MAX,
    ensures
        ({
            let u = e.unlocked(plain);
            &&& u.stats.units_decrypted == e.stats.units_decrypted + 1
            &&& u.stats.decrypt_errors == e.stats.decrypt_errors + if crate::mmbd::clear_ts(plain) {
                0int
            } else {
                1int
            }
            &&& u.stats.units_cached == e.stats.units_cached && u.stats.bytes_served
                == e.stats.bytes_served
            &&& u.units == e.units && u.last_end == e.last_end
        }),
        ({
            let r = e.refused();
            &&& r.stats.decrypt_errors == e.stats.decrypt_errors + 1
            &&& r.stats.units_decrypted == e.stats.units_decrypted
            &&& r.units == e.units && r.last_end == e.last_end
        }),
        ({
            let h = e.hit(n);
            &&& h.stats.units_cached == e.stats.units_cached + n
            &&& h.stats.bytes_served == e.stats.bytes_served && h.units == e.units
        }),
        ({
            let s = e.served(id, end, n);
            &&& s.stats.bytes_served == e.stats.bytes_served + n
            &&& s.last_end == e.last_end.insert(id, end)
            &&& s.stats.units_cached == e.stats.units_cached && s.units == e.units
        }),
{
}

/// A job that is done has counted the bytes that it hands out, for its own file,
/// and noted where the request ended.
pub proof fn lemma_finished(e: EngineView, j: JobView)
    requires
        0 <= j.end <= u64::MAX,
        e.stats.bytes_served + j.out.len() <= u64::MAX,
    ensures
        ({
            let r = super::finished(e, j);
            &&& r.2 == Some(ActionView::Done(j.out))
            &&& r.0.stats.bytes_served == e.stats.bytes_served + j.out.len()
            &&& r.0.last_end == e.last_end.insert(j.node_id, j.end as u64)
            &&& r.1.phase == Phase::Over
        }),
{
}

/// A read that the cache answers counts each unit that the request touches.
pub proof fn lemma_hits_counted(e: EngineView, node: Node, offset: u64, count: int)
    requires
        e.begun(node, offset, count).0 is Done,
        offset < node.size,
        count > 0,
    ensures
        ({
            let end = vstd::math::min(offset + count, node.size as int);
            let touched = (end - 1) / 6144 - offset as int / 6144 + 1;
            e.stats.units_cached + touched <= u64::MAX ==> e.begun(
                node,
                offset,
                count,
            ).1.stats.units_cached == e.stats.units_cached + touched
        }),
{
}

} // verus!
