//! The cache of decrypted units: an `lru::LruCache` and what is claimed of it.

use vstd::prelude::*;

verus! {

/// File (by its name flags) and number of a unit.
pub type UnitKey = (u32, u64);

/// Units with their keys, the most recently used first.
pub type Units = Seq<(UnitKey, Seq<u8>)>;

#[verifier::external_type_specification]
#[verifier::external_body]
#[verifier::reject_recursive_types(K)]
#[verifier::reject_recursive_types(V)]
#[verifier::reject_recursive_types(S)]
pub struct ExLruCache<K, V, S>(lru::LruCache<K, V, S>);

#[verifier::external_type_specification]
#[verifier::external_body]
pub struct ExDefaultHasher(lru::DefaultHasher);

/// What the cache holds, the most recently used unit first.
pub uninterp spec fn cached_units(c: lru::LruCache<(u32, u64), Vec<u8>>) -> Seq<((u32, u64), Seq<u8>)>;

/// How many units the cache was made for.
pub uninterp spec fn cache_limit(c: lru::LruCache<(u32, u64), Vec<u8>>) -> nat;

/// The unit under `key`.
pub open spec fn unit_in(items: Units, key: UnitKey) -> Option<Seq<u8>>
    decreases items.len(),
{
    if items.len() == 0 {
        None
    } else if items[0].0 == key {
        Some(items[0].1)
    } else {
        unit_in(items.skip(1), key)
    }
}

/// Picks the units that do not stand under `key`.
pub open spec fn other_than(key: UnitKey) -> spec_fn((UnitKey, Seq<u8>)) -> bool {
    |e: (UnitKey, Seq<u8>)| e.0 != key
}

/// The units other than the one under `key`.
pub open spec fn without(items: Units, key: UnitKey) -> Units {
    items.filter(other_than(key))
}

/// `unit` under `key` in front of all others.
pub open spec fn in_front(items: Units, key: UnitKey, unit: Seq<u8>) -> Units {
    seq![(key, unit)] + without(items, key)
}

/// The units after `key` was asked for.
pub open spec fn touched(items: Units, key: UnitKey) -> Units {
    match unit_in(items, key) {
        Some(u) => in_front(items, key, u),
        None => items,
    }
}

/// The units after `unit` was stored under `key`: a new key in a full cache
/// drives out the unit that was not used for the longest time.
pub open spec fn stored(items: Units, limit: nat, key: UnitKey, unit: Seq<u8>) -> Units {
    if unit_in(items, key) is Some {
        in_front(items, key, unit)
    } else if items.len() == limit {
        seq![(key, unit)] + items.drop_last()
    } else {
        seq![(key, unit)] + items
    }
}

/// `LruCache::new`: an empty cache for `units` entries. It reserves room for
/// them at once, so their number is bounded by what memory could address.
#[verifier::external_body]
pub(crate) fn new_cache(units: usize) -> (r: lru::LruCache<(u32, u64), Vec<u8>>)
    requires
        0 < units,
        units * 6144 <= usize::MAX,
    ensures
        cached_units(r) == Seq::<((u32, u64), Seq<u8>)>::empty(),
        cache_limit(r) == units,
{
    lru::LruCache::new(std::num::NonZeroUsize::new(units).unwrap())
}

/// `LruCache::get`: the value under the key, which becomes the most recently
/// used; an absent key changes nothing.
#[verifier::external_body]
pub(crate) fn get_unit(c: &mut lru::LruCache<(u32, u64), Vec<u8>>, key: (u32, u64)) -> (r: Option<
    Vec<u8>,
>)
    ensures
        match r {
            Some(u) => unit_in(cached_units(*old(c)), key) == Some(u@),
            None => unit_in(cached_units(*old(c)), key) is None,
        },
        cached_units(*final(c)) == touched(cached_units(*old(c)), key),
        cache_limit(*final(c)) == cache_limit(*old(c)),
{
    c.get(&key).cloned()
}

/// `LruCache::put`: the value stands under the key and is the most recently
/// used. In a full cache a new key takes the place of the least recently used.
#[verifier::external_body]
pub(crate) fn put_unit(
    c: &mut lru::LruCache<(u32, u64), Vec<u8>>,
    key: (u32, u64),
    unit: Vec<u8>,
)
    ensures
        cached_units(*final(c)) == stored(
            cached_units(*old(c)),
            cache_limit(*old(c)),
            key,
            unit@,
        ),
        cache_limit(*final(c)) == cache_limit(*old(c)),
{
    c.put(key, unit);
}

// ───────────────────────── laws ─────────────────────────

/// All units have the size of a unit, and there are no more of them than the
/// cache was made for.
pub open spec fn units_ok(items: Units, limit: nat) -> bool {
    &&& items.len() <= limit
    &&& forall|i: int| 0 <= i < items.len() ==> (#[trigger] items[i]).1.len() == 6144
}

/// Every unit in the cache is the one that `truth` gives for its key.
pub open spec fn agrees(items: Units, truth: spec_fn(UnitKey) -> Seq<u8>) -> bool {
    forall|i: int| 0 <= i < items.len() ==> (#[trigger] items[i]).1 == truth(items[i].0)
}

pub proof fn lemma_unit_in(items: Units, key: UnitKey)
    ensures
        match unit_in(items, key) {
            Some(u) => exists|i: int| 0 <= i < items.len() && #[trigger] items[i] == (key, u),
            None => forall|i: int| 0 <= i < items.len() ==> (#[trigger] items[i]).0 != key,
        },
    decreases items.len(),
{
    if items.len() > 0 && items[0].0 != key {
        let rest = items.skip(1);
        lemma_unit_in(rest, key);
        match unit_in(items, key) {
            Some(u) => {
                let i = choose|i: int| 0 <= i < rest.len() && #[trigger] rest[i] == (key, u);
                assert(items[i + 1] == (key, u));
            },
            None => {
                assert forall|i: int| 0 <= i < items.len() implies (#[trigger] items[i]).0
                    != key by {
                    if i > 0 {
                        assert(rest[i - 1] == items[i]);
                    }
                }
            },
        }
    } else if items.len() > 0 {
        assert(items[0] == (key, items[0].1));
    }
}

proof fn lemma_without(items: Units, key: UnitKey)
    ensures
        without(items, key).len() <= items.len(),
        unit_in(items, key) is Some ==> without(items, key).len() < items.len(),
        forall|i: int|
            0 <= i < without(items, key).len() ==> items.contains(
                #[trigger] without(items, key)[i],
            ),
    decreases items.len(),
{
    reveal(Seq::filter);
    let p = other_than(key);
    assert forall|i: int| 0 <= i < without(items, key).len() implies items.contains(
        #[trigger] without(items, key)[i],
    ) by {
        assert(items.filter(p).contains(items.filter(p)[i]));
        items.lemma_filter_contains_rev(p, without(items, key)[i]);
    }
    if items.len() > 0 {
        let rest = items.drop_last();
        lemma_without(rest, key);
        lemma_unit_in(items, key);
        lemma_unit_in(rest, key);
        if let Some(u) = unit_in(items, key) {
            let i = choose|i: int| 0 <= i < items.len() && #[trigger] items[i] == (key, u);
            if items.last().0 != key {
                assert(rest[i] == (key, u));
            }
        }
    }
}

/// Asking for a unit changes neither what the cache holds nor its bounds.
pub proof fn lemma_touched(items: Units, limit: nat, key: UnitKey, truth: spec_fn(UnitKey) -> Seq<u8>)
    requires
        units_ok(items, limit),
    ensures
        units_ok(touched(items, key), limit),
        agrees(items, truth) ==> agrees(touched(items, key), truth),
        match unit_in(items, key) {
            Some(u) => u.len() == 6144 && (agrees(items, truth) ==> u == truth(key)),
            None => true,
        },
{
    lemma_unit_in(items, key);
    lemma_without(items, key);
    let next = touched(items, key);
    let w = without(items, key);
    assert forall|i: int| 0 <= i < next.len() implies (#[trigger] next[i]).1.len() == 6144 && (
    agrees(items, truth) ==> next[i].1 == truth(next[i].0)) by {
        if unit_in(items, key) is Some && i > 0 {
            assert(next[i] == w[i - 1]);
            assert(items.contains(w[i - 1]));
        }
    }
}

/// Storing the true unit keeps the cache true and within its bounds.
pub proof fn lemma_stored(
    items: Units,
    limit: nat,
    key: UnitKey,
    unit: Seq<u8>,
    truth: spec_fn(UnitKey) -> Seq<u8>,
)
    requires
        units_ok(items, limit),
        limit > 0,
        unit.len() == 6144,
    ensures
        units_ok(stored(items, limit, key, unit), limit),
        agrees(items, truth) && unit == truth(key) ==> agrees(
            stored(items, limit, key, unit),
            truth,
        ),
{
    lemma_unit_in(items, key);
    lemma_without(items, key);
    let next = stored(items, limit, key, unit);
    let w = without(items, key);
    assert forall|i: int| 0 <= i < next.len() implies (#[trigger] next[i]).1.len() == 6144 && (
    agrees(items, truth) && unit == truth(key) ==> next[i].1 == truth(next[i].0)) by {
        if i > 0 {
            if unit_in(items, key) is Some {
                assert(next[i] == w[i - 1]);
                assert(items.contains(w[i - 1]));
            } else {
                assert(next[i] == items[i - 1]);
            }
        }
    }
}

/// What was stored last is there.
pub proof fn lemma_stored_then_asked(items: Units, limit: nat, key: UnitKey, unit: Seq<u8>)
    ensures
        unit_in(stored(items, limit, key, unit), key) == Some(unit),
{
    let next = stored(items, limit, key, unit);
    assert(next[0] == (key, unit));
}

} // verus!
