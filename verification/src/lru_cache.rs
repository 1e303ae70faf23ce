//! The LRU cache of the `lru` crate, as the cached block device uses it: a cache of block
//! positions that remembers which position was used least recently.
//!
//! Every item here is trusted: the contracts restate what the source of `lru` shows of
//! `LruCache`. Its contents are named by [`lru_order`], the cached positions from the most
//! recently used to the least recently used, and its capacity by [`lru_capacity`].

use vstd::prelude::*;
use lru::LruCache;
use crate::cached_block_device::{min_of, recent_run};

verus! {

/// The outside type `lru::LruCache`.
#[verifier::external_type_specification]
#[verifier::external_body]
#[verifier::reject_recursive_types(K)]
#[verifier::reject_recursive_types(V)]
#[verifier::reject_recursive_types(S)]
pub struct ExLruCache<K, V, S>(LruCache<K, V, S>);

/// The outside type `lru::DefaultHasher`, the hash builder of an `LruCache` made by `new`.
#[verifier::external_type_specification]
#[verifier::external_body]
pub struct ExDefaultHasher(lru::DefaultHasher);

/// The positions an LRU cache holds, from the most recently used to the least recently used.
pub uninterp spec fn lru_order(cache: LruCache<u64, ()>) -> Seq<u64>;

/// The number of positions an LRU cache may hold.
pub uninterp spec fn lru_capacity(cache: LruCache<u64, ()>) -> nat;

/// An LRU cache holds every position once, and no more positions than its capacity.
pub open spec fn lru_well_formed(cache: LruCache<u64, ()>) -> bool {
    &&& lru_order(cache).no_duplicates()
    &&& lru_order(cache).len() <= lru_capacity(cache)
}

/// `order` after position `k`, found at `i`, was used: it moves to the front.
pub open spec fn moved_to_front(order: Seq<u64>, i: int, k: u64) -> Seq<u64> {
    seq![k] + order.remove(i)
}

/// Calls `LruCache::new(cap)`: an empty cache that holds at most `cap` positions.
///
/// `LruCache::new` allocates a hash table for `cap` entries, whose size computation panics
/// when it overflows; the bound in `requires` keeps far below that on 32 and 64 bits. Running
/// out of memory for the table is not covered.
#[verifier::external_body]
pub(crate) fn lru_new(cap: usize) -> (cache: LruCache<u64, ()>)
    requires
        cap <= usize::MAX / 128,
    ensures
        lru_order(cache) == Seq::<u64>::empty(),
        lru_capacity(cache) == cap,
{
    LruCache::new(cap)
}

/// Calls `LruCache::len`: the number of cached positions.
#[verifier::external_body]
pub(crate) fn lru_len(cache: &LruCache<u64, ()>) -> (n: usize)
    ensures
        n == lru_order(*cache).len(),
{
    cache.len()
}

/// Calls `LruCache::cap`: the capacity of the cache.
#[verifier::external_body]
pub(crate) fn lru_cap(cache: &LruCache<u64, ()>) -> (n: usize)
    ensures
        n == lru_capacity(*cache),
{
    cache.cap()
}

/// Calls `LruCache::contains`: whether `k` is cached; the order is left as it is.
#[verifier::external_body]
pub(crate) fn lru_contains(cache: &LruCache<u64, ()>, k: u64) -> (found: bool)
    ensures
        found == lru_order(*cache).contains(k),
{
    cache.contains(&k)
}

/// Calls `LruCache::get`: `Some` where `k` is cached, and then `k` becomes the most recently
/// used position.
#[verifier::external_body]
pub(crate) fn lru_get(cache: &mut LruCache<u64, ()>, k: u64) -> (found: Option<()>)
    ensures
        found is Some == lru_order(*old(cache)).contains(k),
        lru_capacity(*final(cache)) == lru_capacity(*old(cache)),
        found is Some ==> exists|i: int|
            0 <= i < lru_order(*old(cache)).len() && lru_order(*old(cache))[i] == k
                && lru_order(*final(cache)) == moved_to_front(lru_order(*old(cache)), i, k),
        found is None ==> lru_order(*final(cache)) == lru_order(*old(cache)),
{
    cache.get(&k).copied()
}

/// Calls `LruCache::put(k, ())`: `k` becomes the most recently used position. A position that
/// was not cached yet takes the place of the least recently used one when the cache is full,
/// and is not cached at all when the capacity is zero.
#[verifier::external_body]
pub(crate) fn lru_put(cache: &mut LruCache<u64, ()>, k: u64)
    ensures
        lru_capacity(*final(cache)) == lru_capacity(*old(cache)),
        lru_order(*old(cache)).contains(k) ==> exists|i: int|
            0 <= i < lru_order(*old(cache)).len() && lru_order(*old(cache))[i] == k
                && lru_order(*final(cache)) == moved_to_front(lru_order(*old(cache)), i, k),
        !lru_order(*old(cache)).contains(k) ==> lru_order(*final(cache)) == if lru_capacity(
            *old(cache),
        ) == 0 {
            lru_order(*old(cache))
        } else if lru_order(*old(cache)).len() == lru_capacity(*old(cache)) {
            seq![k] + lru_order(*old(cache)).drop_last()
        } else {
            seq![k] + lru_order(*old(cache))
        },
{
    cache.put(k, ());
}

/// Calls `LruCache::pop_lru`: removes and returns the least recently used position.
#[verifier::external_body]
pub(crate) fn lru_pop_lru(cache: &mut LruCache<u64, ()>) -> (k: Option<u64>)
    ensures
        lru_capacity(*final(cache)) == lru_capacity(*old(cache)),
        lru_order(*old(cache)).len() == 0 ==> k is None && lru_order(*final(cache)) == lru_order(*old(cache)),
        lru_order(*old(cache)).len() > 0 ==> k == Some(lru_order(*old(cache)).last())
            && lru_order(*final(cache)) == lru_order(*old(cache)).drop_last(),
{
    cache.pop_lru().map(|(k, _)| k)
}

/// Calls `LruCache::iter`: the cached positions, from the most recently used to the least
/// recently used.
#[verifier::external_body]
pub(crate) fn lru_keys(cache: &LruCache<u64, ()>) -> (keys: Vec<u64>)
    ensures
        keys@ == lru_order(*cache),
{
    cache.iter().map(|(k, _)| *k).collect()
}

/// Moving a position of an order without duplicates to the front keeps the positions and
/// shifts those before it by one.
pub proof fn lemma_moved_to_front(order: Seq<u64>, i: int, k: u64)
    requires
        order.no_duplicates(),
        0 <= i < order.len(),
        order[i] == k,
    ensures
        moved_to_front(order, i, k).no_duplicates(),
        moved_to_front(order, i, k).len() == order.len(),
        moved_to_front(order, i, k)[0] == k,
        forall|x: u64| #[trigger] moved_to_front(order, i, k).contains(x) <==> order.contains(x),
        forall|t: int| 0 <= t < i ==> #[trigger] moved_to_front(order, i, k)[t + 1] == order[t],
{
    let m = moved_to_front(order, i, k);
    let r = order.remove(i);
    assert forall|x: u64| #[trigger] m.contains(x) <==> order.contains(x) by {
        if order.contains(x) {
            let t = choose|t: int| 0 <= t < order.len() && order[t] == x;
            if t < i {
                assert(m[t + 1] == x);
            } else if t > i {
                assert(m[t] == x);
            } else {
                assert(m[0] == x);
            }
        }
        if m.contains(x) {
            let t = choose|t: int| 0 <= t < m.len() && m[t] == x;
            if t == 0 {
                assert(order[i] == x);
            } else if t - 1 < i {
                assert(order[t - 1] == x);
            } else {
                assert(order[t] == x);
            }
        }
    }
    assert forall|a: int, b: int| 0 <= a < m.len() && 0 <= b < m.len() && a != b implies m[a] != m[b] by {
        if a > 0 && b > 0 {
            let oa = if a - 1 < i { a - 1 } else { a };
            let ob = if b - 1 < i { b - 1 } else { b };
            assert(m[a] == order[oa] && m[b] == order[ob]);
        } else if a == 0 {
            let ob = if b - 1 < i { b - 1 } else { b };
            assert(m[b] == order[ob] && ob != i);
        } else {
            let oa = if a - 1 < i { a - 1 } else { a };
            assert(m[a] == order[oa] && oa != i);
        }
    }
}

/// Putting a new position in front of an order without duplicates.
pub proof fn lemma_pushed_front(order: Seq<u64>, k: u64)
    requires
        order.no_duplicates(),
        !order.contains(k),
    ensures
        (seq![k] + order).no_duplicates(),
        (seq![k] + order).len() == order.len() + 1,
        (seq![k] + order)[0] == k,
        forall|x: u64| #[trigger] (seq![k] + order).contains(x) <==> (x == k || order.contains(x)),
        forall|t: int| 0 <= t < order.len() ==> #[trigger] (seq![k] + order)[t + 1] == order[t],
{
    let m = seq![k] + order;
    assert forall|x: u64| #[trigger] m.contains(x) <==> (x == k || order.contains(x)) by {
        if order.contains(x) {
            let t = choose|t: int| 0 <= t < order.len() && order[t] == x;
            assert(m[t + 1] == x);
        }
        if x == k {
            assert(m[0] == x);
        }
        if m.contains(x) {
            let t = choose|t: int| 0 <= t < m.len() && m[t] == x;
            if t > 0 {
                assert(order[t - 1] == x);
            }
        }
    }
    assert forall|a: int, b: int| 0 <= a < m.len() && 0 <= b < m.len() && a != b implies m[a] != m[b] by {
        if a > 0 && b > 0 {
            assert(m[a] == order[a - 1] && m[b] == order[b - 1]);
        } else if a == 0 {
            assert(m[b] == order[b - 1]);
        } else {
            assert(m[a] == order[a - 1]);
        }
    }
}

/// Dropping the last position of an order without duplicates.
pub proof fn lemma_dropped_last(order: Seq<u64>)
    requires
        order.no_duplicates(),
        order.len() > 0,
    ensures
        order.drop_last().no_duplicates(),
        forall|x: u64| #[trigger] order.drop_last().contains(x) <==> (order.contains(x) && x != order.last()),
{
    let d = order.drop_last();
    assert forall|x: u64| #[trigger] d.contains(x) <==> (order.contains(x) && x != order.last()) by {
        if order.contains(x) && x != order.last() {
            let t = choose|t: int| 0 <= t < order.len() && order[t] == x;
            assert(d[t] == x);
        }
        if d.contains(x) {
            let t = choose|t: int| 0 <= t < d.len() && d[t] == x;
            assert(order[t] == x);
        }
    }
}

/// An order without duplicates that holds `n` consecutive positions holds at least `n` positions.
pub proof fn lemma_run_fits(order: Seq<u64>, start: u64, n: nat)
    requires
        order.no_duplicates(),
        start + n <= u64::MAX + 1,
        forall|j: int| 0 <= j < n ==> order.contains(#[trigger] ((start + j) as u64)),
    ensures
        n <= order.len(),
{
    broadcast use vstd::seq_lib::seq_to_set_is_finite;
    let run = Seq::new(n, |j: int| (start + j) as u64);
    assert forall|a: int, b: int| 0 <= a < run.len() && 0 <= b < run.len() && a != b implies run[a] != run[b] by {
    }
    run.unique_seq_to_set();
    order.unique_seq_to_set();
    assert forall|x: u64| run.to_set().contains(x) implies order.to_set().contains(x) by {
        let j = choose|j: int| 0 <= j < run.len() && run[j] == x;
        assert(order.contains((start + j) as u64));
    }
    vstd::set_lib::lemma_len_subset(run.to_set(), order.to_set());
}

/// Using position `index + i` after the positions before it keeps them the most recently used,
/// as far as the capacity allows.
pub proof fn lemma_run_after_use(order: Seq<u64>, p: int, index: u64, i: int, cap: int)
    requires
        order.no_duplicates(),
        0 <= i,
        index + i <= u64::MAX,
        0 <= p < order.len(),
        order[p] == (index + i) as u64,
        recent_run(order, index, i, min_of(i, cap)),
        0 < cap,
    ensures
        recent_run(moved_to_front(order, p, (index + i) as u64), index, i + 1, min_of(i + 1, cap)),
{
    let k = (index + i) as u64;
    let m = min_of(i, cap);
    if p < m {
        assert(order[p] == (index + (i - 1 - p)) as u64);
    }
    lemma_moved_to_front(order, p, k);
    let new = moved_to_front(order, p, k);
    assert forall|t: int| 0 <= t < min_of(i + 1, cap) implies #[trigger] new[t] == (index + (i + 1 - 1 - t)) as u64 by {
        if t > 0 {
            assert(new[(t - 1) + 1] == order[t - 1]);
        }
    }
}

/// Caching position `index + i`, not cached yet, after the positions before it keeps them
/// the most recently used, as far as the capacity allows; the cache may have left out its
/// least recently used position to make room.
pub proof fn lemma_run_after_insert(order: Seq<u64>, rest: Seq<u64>, index: u64, i: int, cap: int)
    requires
        0 <= i,
        index + i <= u64::MAX,
        recent_run(order, index, i, min_of(i, cap)),
        0 < cap,
        order.len() <= cap,
        rest == order || (order.len() == cap && rest == order.drop_last()),
    ensures
        recent_run(seq![(index + i) as u64] + rest, index, i + 1, min_of(i + 1, cap)),
{
    let new = seq![(index + i) as u64] + rest;
    assert forall|t: int| 0 <= t < min_of(i + 1, cap) implies #[trigger] new[t] == (index + (i + 1 - 1 - t)) as u64 by {
        if t > 0 {
            assert(new[t] == rest[t - 1]);
            assert(rest[t - 1] == order[t - 1]);
        }
    }
}

} // verus!
