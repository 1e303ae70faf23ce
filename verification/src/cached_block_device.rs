//! A [`BlockDevice`] that keeps the most recently used blocks in a cache.

use vstd::prelude::*;
use vstd::hash_map::HashMapWithView;
use lru::LruCache;
use crate::block::{holds_at, overwritten, BlockCount, BlockError, BlockDevice, BlockIndex, BlockResult};
use crate::lru_cache::{
    lru_cap, lru_capacity, lru_contains, lru_get, lru_keys, lru_len, lru_new, lru_order,
    lru_pop_lru, lru_put, lru_well_formed, moved_to_front, lemma_moved_to_front,
    lemma_pushed_front, lemma_dropped_last, lemma_run_fits, lemma_run_after_use, lemma_run_after_insert,
};

verus! {

broadcast use vstd::std_specs::hash::axiom_u64_obeys_hash_table_key_model;

/// Represent a cached block in the LRU cache.
#[derive(Clone, Copy)]
struct CachedBlock<B> {
    /// Bool indicating whether this block should be written to device when flushing.
    dirty: bool,
    /// The data of this block.
    data: B,
}

/// The `m` most recently used positions of `order` are the positions before `index + i`, the
/// most recent first.
pub open spec fn recent_run(order: Seq<u64>, index: u64, i: int, m: int) -> bool {
    &&& order.len() >= m
    &&& forall|t: int| 0 <= t < m ==> #[trigger] order[t] == (index + (i - 1 - t)) as u64
}

/// The cache order after position `k` is written to a cache of capacity `cap`: `k` becomes the
/// most recently used position, and a position not cached yet takes the place of the least
/// recently used one when the cache is full.
pub open spec fn order_after_put(order: Seq<u64>, k: u64, cap: nat) -> Seq<u64> {
    if order.contains(k) {
        seq![k] + order.remove(order.index_of(k))
    } else if order.len() >= cap {
        seq![k] + order.drop_last()
    } else {
        seq![k] + order
    }
}

/// The position that writing position `k` to a cache of capacity `cap` evicts, if any: the
/// least recently used one, when `k` is not cached and the cache is full.
pub open spec fn evicted_by_put(order: Seq<u64>, k: u64, cap: nat) -> Set<u64> {
    if !order.contains(k) && order.len() >= cap {
        set![order.last()]
    } else {
        Set::empty()
    }
}

/// The cache order after the positions `index`, `index + 1`, ..., `index + n - 1` are written
/// one after the other.
pub open spec fn order_after_writes(order: Seq<u64>, index: u64, n: nat, cap: nat) -> Seq<u64>
    decreases n,
{
    if n == 0 {
        order
    } else {
        order_after_put(order_after_writes(order, index, (n - 1) as nat, cap), (index + (n - 1)) as u64, cap)
    }
}

/// The positions that writing the positions `index`, `index + 1`, ..., `index + n - 1` one
/// after the other evicts from the cache.
pub open spec fn evicted_by_writes(order: Seq<u64>, index: u64, n: nat, cap: nat) -> Set<u64>
    decreases n,
{
    if n == 0 {
        Set::empty()
    } else {
        evicted_by_writes(order, index, (n - 1) as nat, cap).union(
            evicted_by_put(order_after_writes(order, index, (n - 1) as nat, cap), (index + (n - 1)) as u64, cap),
        )
    }
}

/// Later writes only add evicted positions.
proof fn lemma_evicted_grows(order: Seq<u64>, index: u64, i: nat, n: nat, cap: nat)
    requires
        i <= n,
    ensures
        evicted_by_writes(order, index, i, cap).subset_of(evicted_by_writes(order, index, n, cap)),
    decreases n,
{
    if i < n {
        lemma_evicted_grows(order, index, i, (n - 1) as nat, cap);
    }
}

/// Moving a cached position to the front is what writing it does to the order.
proof fn lemma_moved_to_front_is_put(order: Seq<u64>, p: int, k: u64, cap: nat)
    requires
        order.no_duplicates(),
        0 <= p < order.len(),
        order[p] == k,
    ensures
        moved_to_front(order, p, k) == order_after_put(order, k, cap),
{
    assert(order.contains(k));
    let q = order.index_of(k);
    assert(0 <= q < order.len() && order[q] == k);
    assert(q == p);
}

/// Writing the dirty blocks of one more evicted position to the inner device.
proof fn lemma_union_restrict_step<V>(inner: Map<u64, V>, dirty: Map<u64, V>, evicted: Set<u64>, e: u64)
    ensures
        inner.union_prefer_right(dirty.restrict(evicted)).union_prefer_right(dirty.restrict(set![e]))
            == inner.union_prefer_right(dirty.restrict(evicted.union(set![e]))),
{
    assert(inner.union_prefer_right(dirty.restrict(evicted)).union_prefer_right(dirty.restrict(set![e]))
        =~= inner.union_prefer_right(dirty.restrict(evicted.union(set![e]))));
}

/// The smaller of `a` and `b`.
pub open spec fn min_of(a: int, b: int) -> int {
    if a < b {
        a
    } else {
        b
    }
}

/// Position `k` of a read request that is still to be filled in is ready to be: the device holds
/// a block there, and either the cache holds it (and its copy is taken when the request was
/// served entirely from cache or when it is dirty, else `b` is that block already) or `b` is
/// the block the device holds.
spec fn pending_ok<V>(
    cached: Map<u64, CachedBlock<V>>,
    contents: Map<u64, V>,
    k: u64,
    b: V,
    fully_cached: bool,
) -> bool {
    &&& contents.contains_key(k)
    &&& if cached.contains_key(k) {
        fully_cached || cached[k].dirty || b == cached[k].data
    } else {
        b == contents[k]
    }
}

/// Position `y` holds a dirty cached block that a write of `n` blocks at `index` does not
/// overwrite, and is among `keys`.
spec fn outside_dirty<V>(cached: Map<u64, CachedBlock<V>>, keys: Seq<u64>, index: u64, n: nat, y: u64) -> bool {
    &&& keys.contains(y)
    &&& cached.contains_key(y)
    &&& cached[y].dirty
    &&& !(index <= y < index + n)
}

/// The inner device after the dirty cached blocks at the positions in `keys` that a write of
/// `n` blocks at `index` does not overwrite were written to it.
spec fn written_outside<V>(
    inner: Map<u64, V>,
    cached: Map<u64, CachedBlock<V>>,
    keys: Seq<u64>,
    index: u64,
    n: nat,
) -> Map<u64, V> {
    Map::new(
        |y: u64| inner.contains_key(y) || outside_dirty(cached, keys, index, n, y),
        |y: u64| if outside_dirty(cached, keys, index, n, y) { cached[y].data } else { inner[y] },
    )
}

/// A BlockDevice that reduces device accesses by keeping the most recently used blocks in a cache.
///
/// It will keep track of which blocks are dirty, and will only write those ones to device when
/// flushing, or when they are evicted from the cache.
///
/// The device it presents holds the blocks of the inner device, except where the cache holds a
/// block: there it holds the cached block.
///
/// Dropping a `CachedBlockDevice` does not flush it: call [`CachedBlockDevice::flush`] before
/// dropping it, or the dirty blocks it holds are lost. A flush on drop would make device
/// writes, which may fail, from a destructor, whose failure nobody could see.
pub struct CachedBlockDevice<B: BlockDevice> {
    /// The inner block device.
    block_device: B,
    /// The LRU cache, which orders the cached block positions by their last use.
    lru_cache: LruCache<u64, ()>,
    /// The cached blocks, by position.
    blocks: HashMapWithView<u64, CachedBlock<B::Block>>,
}

impl<B: BlockDevice> CachedBlockDevice<B> {
    /// The inner block device.
    pub closed spec fn inner(&self) -> B {
        self.block_device
    }

    /// The cached block positions, from the most recently used to the least recently used.
    pub closed spec fn cache_order(&self) -> Seq<u64> {
        lru_order(self.lru_cache)
    }

    /// The number of blocks the cache may hold.
    pub closed spec fn capacity(&self) -> nat {
        lru_capacity(self.lru_cache)
    }

    /// The cached blocks, by position.
    pub closed spec fn cached_blocks(&self) -> Map<u64, B::Block> {
        Map::new(|k: u64| self.blocks@.contains_key(k), |k: u64| self.blocks@[k].data)
    }

    /// The cached blocks that the inner device does not hold yet, by position.
    pub closed spec fn dirty_blocks(&self) -> Map<u64, B::Block> {
        Map::new(
            |k: u64| self.blocks@.contains_key(k) && self.blocks@[k].dirty,
            |k: u64| self.blocks@[k].data,
        )
    }

    /// The blocks the device holds: those of the inner device, overlaid with the cached ones.
    closed spec fn contents(&self) -> Map<u64, B::Block> {
        self.block_device@.union_prefer_right(self.cached_blocks())
    }

    /// The LRU cache and the cached blocks know the same positions, every position once, and
    /// no more of them than the capacity, which is not zero.
    closed spec fn cache_structured(&self) -> bool {
        &&& lru_well_formed(self.lru_cache)
        &&& lru_capacity(self.lru_cache) > 0
        &&& forall|k: u64| #[trigger] lru_order(self.lru_cache).contains(k) <==> self.blocks@.contains_key(k)
    }

    /// A cached block that is not dirty is the block that the inner device holds.
    closed spec fn coherent(&self) -> bool {
        forall|k: u64|
            #[trigger] self.blocks@.contains_key(k) && !self.blocks@[k].dirty ==> self.block_device@.get(k)
                == Some(self.blocks@[k].data)
    }

    /// The cache is consistent: the LRU cache and the cached blocks know the same positions,
    /// there are no more of them than the capacity, and a cached block that is not dirty
    /// is the block that the inner device holds.
    pub closed spec fn well_formed(&self) -> bool {
        &&& self.block_device.inv()
        &&& self.cache_structured()
        &&& self.coherent()
    }

    /// The cache holds every position once, no more positions than its capacity, and a block
    /// for each position it holds. This holds whatever an operation returned.
    pub open spec fn cache_sound(&self) -> bool {
        &&& self.cache_order().no_duplicates()
        &&& self.cache_order().len() <= self.capacity()
        &&& forall|k: u64| #[trigger] self.cache_order().contains(k) <==> self.cached_blocks().contains_key(k)
    }

    proof fn lemma_structured_sound(&self)
        requires
            self.cache_structured(),
        ensures
            self.cache_sound(),
    {
        assert forall|k: u64| #[trigger] self.cache_order().contains(k) <==> self.cached_blocks().contains_key(k) by {
            if self.blocks@.contains_key(k) {
                assert(self.cached_blocks().contains_key(k));
            }
        }
    }

    /// A well-formed cached device is sound.
    pub proof fn lemma_well_formed_sound(&self)
        requires
            self.well_formed(),
        ensures
            self.cache_sound(),
    {
        self.lemma_structured_sound();
    }

    /// A cached block that is not dirty is the block that the inner device holds.
    pub proof fn lemma_clean_blocks_match_inner(&self)
        requires
            self.well_formed(),
        ensures
            forall|k: u64|
                #[trigger] self.cached_blocks().contains_key(k) && !self.dirty_blocks().contains_key(k)
                    ==> self.inner()@.get(k) == Some(self.cached_blocks()[k]),
    {
        assert forall|k: u64|
            #[trigger] self.cached_blocks().contains_key(k) && !self.dirty_blocks().contains_key(k)
                implies self.inner()@.get(k) == Some(self.cached_blocks()[k]) by {
            assert(self.blocks@.contains_key(k));
        }
    }

    /// Caching is transparent: the device holds the blocks of the inner device, except for
    /// the dirty cached blocks, which it holds in their place.
    pub proof fn lemma_contents_are_inner_with_dirty_blocks(&self)
        requires
            self.well_formed(),
        ensures
            self@ == self.inner()@.union_prefer_right(self.dirty_blocks()),
    {
        let lhs = self.contents();
        let rhs = self.block_device@.union_prefer_right(self.dirty_blocks());
        assert forall|k: u64| lhs.contains_key(k) <==> rhs.contains_key(k) by {
            if self.blocks@.contains_key(k) && !self.blocks@[k].dirty {
                assert(self.block_device@.get(k) == Some(self.blocks@[k].data));
            }
        }
        assert forall|k: u64| #[trigger] lhs.contains_key(k) implies lhs[k] == rhs[k] by {
            if self.blocks@.contains_key(k) && !self.blocks@[k].dirty {
                assert(self.block_device@.get(k) == Some(self.blocks@[k].data));
            }
        }
        assert(lhs =~= rhs);
    }

    /// The cache holds every position once, and no more positions than its capacity.
    pub proof fn lemma_cache_bounded(&self)
        requires
            self.well_formed(),
        ensures
            self.cache_order().no_duplicates(),
            self.cache_order().len() <= self.capacity(),
            self.cache_order().to_set() == self.cached_blocks().dom(),
    {
        assert(self.cache_order().to_set() =~= self.cached_blocks().dom());
    }

    /// Creates a new CachedBlockDevice that wraps `device`, and can hold at most `cap` blocks in cache.
    ///
    /// The cache holds at least one block: with no room at all, caching a block read from the
    /// device would have no block to evict.
    pub fn new(device: B, cap: usize) -> (dev: Self)
        requires
            device.inv(),
            0 < cap <= usize::MAX / 128,
        ensures
            dev.well_formed(),
            dev.inner() == device,
            dev@ == device@,
            dev.cache_order() == Seq::<u64>::empty(),
            dev.capacity() == cap,
    {
        let dev = CachedBlockDevice {
            block_device: device,
            lru_cache: lru_new(cap),
            blocks: HashMapWithView::new(),
        };
        assert(dev.cached_blocks() =~= Map::<u64, B::Block>::empty());
        assert(dev.contents() =~= device@);
        dev
    }

    /// Writes every dirty cached block to device.
    ///
    /// Note that this will not empty the cache, just perform device writes
    /// and update dirty blocks as now non-dirty.
    ///
    /// This function has no effect on lru order.
    pub fn flush(&mut self) -> (r: BlockResult<()>)
        requires
            old(self).well_formed(),
        ensures
            final(self).cache_order() == old(self).cache_order(),
            final(self).capacity() == old(self).capacity(),
            final(self).cached_blocks() == old(self).cached_blocks(),
            final(self).cache_sound(),
            // whatever the result, flushing only turns dirty blocks clean
            final(self).dirty_blocks().submap_of(old(self).dirty_blocks()),
            // flushing fails only when a write to the inner device fails
            old(self).inner().reliable() ==> r is Ok && final(self).inner().reliable(),
            // without dirty blocks there is nothing to write, and flushing succeeds without
            // touching the inner device
            old(self).dirty_blocks().dom().is_empty() ==> r is Ok && final(self).inner() == old(self).inner(),
            r is Ok ==> {
                &&& final(self).well_formed()
                &&& final(self)@ == old(self)@
                &&& final(self).inner()@ == old(self)@
                &&& final(self).dirty_blocks() == Map::<u64, B::Block>::empty()
                &&& final(self).inner().spec_count() == old(self).inner().spec_count()
            },
    {
        let ghost contents0 = self.contents();
        let ghost cached0 = self.cached_blocks();
        let keys = lru_keys(&self.lru_cache);
        let mut t: usize = 0;
        while t < keys.len()
            invariant
                t <= keys@.len(),
                keys@ == lru_order(self.lru_cache),
                self.cache_order() == old(self).cache_order(),
                self.capacity() == old(self).capacity(),
                self.cached_blocks() == cached0,
                cached0 == old(self).cached_blocks(),
                contents0 == old(self).contents(),
                self.well_formed(),
                self.contents() == contents0,
                self.inner().spec_count() == old(self).inner().spec_count(),
                forall|j: int| 0 <= j < t ==> !(#[trigger] self.blocks@[keys@[j]]).dirty,
                forall|k: u64|
                    #[trigger] self.blocks@.contains_key(k) && self.blocks@[k].dirty ==> old(self).dirty_blocks().contains_key(k),
                forall|k: u64|
                    #[trigger] self.blocks@.contains_key(k) && self.blocks@[k].dirty ==> old(self).blocks@.contains_key(k)
                        && old(self).blocks@[k].dirty && old(self).blocks@[k].data == self.blocks@[k].data,
                old(self).dirty_blocks().dom().is_empty() ==> self.block_device == old(self).block_device,
                old(self).inner().reliable() ==> self.block_device.reliable(),
            decreases keys@.len() - t,
        {
            let k = keys[t];
            let entry = self.blocks.get(&k);
            if let Some(cb) = entry {
                let cb: CachedBlock<B::Block> = *cb;
                if cb.dirty {
                    assert(old(self).dirty_blocks().contains_key(k));
                    assert(old(self).dirty_blocks().dom().contains(k));
                    let ghost before = *self;
                    proof {
                        self.lemma_structured_sound();
                    }
                    self.block_device.write(core::slice::from_ref(&cb.data), BlockIndex(k))?;
                    self.blocks.insert(k, CachedBlock { dirty: false, data: cb.data });
                    proof {
                        assert(self.cached_blocks() =~= cached0);
                        assert forall|y: u64|
                            #[trigger] self.blocks@.contains_key(y) && !self.blocks@[y].dirty implies self.block_device@.get(y)
                                == Some(self.blocks@[y].data) by {
                            if y != k {
                                assert(before.blocks@.contains_key(y));
                            }
                        }
                        assert(self.contents() =~= contents0);
                    }
                }
            }
            assert(lru_order(self.lru_cache).contains(k));
            t = t + 1;
        }
        proof {
            assert forall|k: u64| #[trigger] self.blocks@.contains_key(k) implies !self.blocks@[k].dirty by {
                assert(lru_order(self.lru_cache).contains(k));
                let j = choose|j: int| 0 <= j < keys@.len() && keys@[j] == k;
                assert(!self.blocks@[keys@[j]].dirty);
            }
            assert(self.dirty_blocks() =~= Map::<u64, B::Block>::empty());
            self.lemma_structured_sound();
            self.lemma_contents_are_inner_with_dirty_blocks();
            assert(self.block_device@.union_prefer_right(Map::<u64, B::Block>::empty()) =~= self.block_device@);
        }
        Ok(())
    }
}

impl<B: BlockDevice> CachedBlockDevice<B> {
    /// Removes the least recently used block from the cache, writing it to the inner device
    /// first if it is dirty. Returns its position and its data.
    fn evict_lru(&mut self) -> (r: BlockResult<(u64, B::Block)>)
        requires
            old(self).well_formed(),
            old(self).cache_order().len() > 0,
        ensures
            final(self).cache_structured(),
            final(self).cache_sound(),
            final(self).capacity() == old(self).capacity(),
            final(self).cache_order() == old(self).cache_order().drop_last(),
            old(self).blocks@.contains_key(old(self).cache_order().last()),
            final(self).blocks@ == old(self).blocks@.remove(old(self).cache_order().last()),
            // a clean block goes without a device write, and its eviction succeeds
            !old(self).dirty_blocks().contains_key(old(self).cache_order().last()) ==> r is Ok
                && final(self).block_device == old(self).block_device,
            // a dirty block is written to the inner device
            r is Ok ==> final(self).block_device@ == old(self).block_device@.union_prefer_right(
                old(self).dirty_blocks().restrict(set![old(self).cache_order().last()]),
            ),
            // with an inner device that never fails, eviction succeeds
            old(self).block_device.reliable() ==> r is Ok && final(self).block_device.reliable(),
            r matches Ok((e, data)) ==> {
                &&& final(self).well_formed()
                &&& final(self).contents() == old(self).contents()
                &&& e == old(self).cache_order().last()
                &&& old(self).blocks@.contains_key(e)
                &&& data == old(self).blocks@[e].data
                &&& final(self).cache_order() == old(self).cache_order().drop_last()
                &&& final(self).blocks@ == old(self).blocks@.remove(e)
                &&& final(self).capacity() == old(self).capacity()
                &&& final(self).inner().spec_count() == old(self).inner().spec_count()
            },
    {
        let ghost old_order = lru_order(self.lru_cache);
        let e = lru_pop_lru(&mut self.lru_cache).unwrap();
        proof {
            lemma_dropped_last(old_order);
            assert(old_order.contains(e));
        }
        let cb = self.blocks.remove(&e).unwrap();
        proof {
            assert(old(self).blocks@.contains_key(e));
            assert forall|y: u64| #[trigger] lru_order(self.lru_cache).contains(y) <==> self.blocks@.contains_key(y) by {
                assert(old_order.contains(y) <==> old(self).blocks@.contains_key(y));
            }
            self.lemma_structured_sound();
            if !cb.dirty {
                let d = old(self).dirty_blocks().restrict(set![e]);
                assert(d =~= Map::<u64, B::Block>::empty());
                assert(old(self).block_device@.union_prefer_right(d) =~= old(self).block_device@);
            }
        }
        let ghost inner0 = self.block_device@;
        if cb.dirty {
            self.block_device.write(core::slice::from_ref(&cb.data), BlockIndex(e))?;
            proof {
                let d = old(self).dirty_blocks().restrict(set![e]);
                assert(d =~= map![e => cb.data]);
                assert(self.block_device@ =~= inner0.union_prefer_right(d));
            }
        }
        proof {
            assert forall|y: u64|
                #[trigger] self.blocks@.contains_key(y) && !self.blocks@[y].dirty implies self.block_device@.get(y)
                    == Some(self.blocks@[y].data) by {
                assert(old(self).blocks@.contains_key(y));
            }
            let lhs = self.contents();
            let rhs = old(self).contents();
            assert forall|y: u64| #[trigger] lhs.contains_key(y) <==> rhs.contains_key(y) by {
                if y == e && !cb.dirty {
                    assert(old(self).blocks@.contains_key(y));
                }
            }
            assert forall|y: u64| #[trigger] lhs.contains_key(y) implies lhs[y] == rhs[y] by {
                if y == e && !cb.dirty {
                    assert(old(self).blocks@.contains_key(y));
                }
            }
            assert(lhs =~= rhs);
        }
        Ok((e, cb.data))
    }

    /// Caches `cb` at position `k`, as the most recently used block. The position must be
    /// cached already, or the cache must have room for it.
    fn cache_block(&mut self, k: u64, cb: CachedBlock<B::Block>)
        requires
            old(self).well_formed(),
            old(self).blocks@.contains_key(k) || old(self).cache_order().len() < old(self).capacity(),
            !cb.dirty ==> old(self).block_device@.get(k) == Some(cb.data),
        ensures
            final(self).well_formed(),
            final(self).block_device == old(self).block_device,
            final(self).blocks@ == old(self).blocks@.insert(k, cb),
            final(self).contents() == old(self).contents().insert(k, cb.data),
            final(self).capacity() == old(self).capacity(),
            final(self).cache_order().len() <= old(self).cache_order().len() + 1,
            old(self).blocks@.contains_key(k) ==> exists|i: int|
                0 <= i < old(self).cache_order().len() && old(self).cache_order()[i] == k
                    && final(self).cache_order() == moved_to_front(old(self).cache_order(), i, k),
            !old(self).blocks@.contains_key(k) ==> final(self).cache_order() == seq![k] + old(self).cache_order(),
    {
        let ghost old_order = lru_order(self.lru_cache);
        self.blocks.insert(k, cb);
        lru_put(&mut self.lru_cache, k);
        proof {
            if old_order.contains(k) {
                let i = choose|i: int|
                    0 <= i < old_order.len() && old_order[i] == k && lru_order(self.lru_cache)
                        == moved_to_front(old_order, i, k);
                lemma_moved_to_front(old_order, i, k);
                assert(old(self).cache_order()[i] == k);
            } else {
                lemma_pushed_front(old_order, k);
            }
            assert forall|y: u64|
                #[trigger] self.blocks@.contains_key(y) && !self.blocks@[y].dirty implies self.block_device@.get(y)
                    == Some(self.blocks@[y].data) by {
                if y != k {
                    assert(old(self).blocks@.contains_key(y));
                }
            }
            assert(self.cached_blocks() =~= old(self).cached_blocks().insert(k, cb.data));
            assert(self.contents() =~= old(self).contents().insert(k, cb.data));
        }
    }
}

impl<B: BlockDevice> BlockDevice for CachedBlockDevice<B> {
    type Block = B::Block;

    /// The blocks of the inner device, overlaid with the cached blocks.
    open spec fn view(&self) -> Map<u64, B::Block> {
        self.inner()@.union_prefer_right(self.cached_blocks())
    }

    open spec fn inv(&self) -> bool {
        self.well_formed()
    }

    open spec fn spec_count(&self) -> u64 {
        self.inner().spec_count()
    }

    /// Every write has reached the inner device: no cached block is dirty.
    open spec fn persisted(&self) -> bool {
        self.dirty_blocks() == Map::<u64, B::Block>::empty()
    }

    /// The cached device never fails when the inner device never does.
    open spec fn reliable(&self) -> bool {
        self.inner().reliable()
    }

    /// Attempts to fill `blocks` with blocks found in the cache, and will fetch them from device if it can't.
    ///
    /// Will update the access time of every block involved.
    fn read(&mut self, blocks: &mut [B::Block], index: BlockIndex) -> (r: BlockResult<()>)
        ensures
            // a read fails only when a call to the inner device fails, whatever its length
            old(self).inner().reliable() ==> r is Ok,
            // a read served entirely from the cache does not touch the device, succeeds, and
            // leaves the cached blocks as they were
            (forall|j: int|
                0 <= j < old(blocks)@.len() ==> #[trigger] old(self).cached_blocks().contains_key(
                    (index.0 + j) as u64,
                )) ==> {
                &&& r is Ok
                &&& final(self).inner() == old(self).inner()
                &&& final(self).cached_blocks() == old(self).cached_blocks()
                &&& final(self).dirty_blocks() == old(self).dirty_blocks()
            },
            final(self).capacity() == old(self).capacity(),
            final(self).cache_sound(),
            // every block read is used: the last ones read are the most recently used
            r is Ok ==> recent_run(
                final(self).cache_order(),
                index.0,
                old(blocks)@.len() as int,
                min_of(old(blocks)@.len() as int, final(self).capacity() as int),
            ),
            r is Ok ==> final(self).capacity() == old(self).capacity(),
            // the positions read are used in turn, as writes of them are; the dirty blocks they
            // evict go to the inner device, and a block read from the inner device is cached clean
            r is Ok ==> {
                &&& final(self).cache_order() == order_after_writes(
                    old(self).cache_order(),
                    index.0,
                    old(blocks)@.len(),
                    old(self).capacity(),
                )
                &&& final(self).dirty_blocks().submap_of(old(self).dirty_blocks())
                &&& final(self).inner()@ == old(self).inner()@.union_prefer_right(
                    old(self).dirty_blocks().restrict(
                        evicted_by_writes(old(self).cache_order(), index.0, old(blocks)@.len(), old(self).capacity()),
                    ),
                )
                &&& forall|k: u64|
                    #[trigger] final(self).cached_blocks().contains_key(k) && !final(self).dirty_blocks().contains_key(k)
                        ==> final(self).inner()@.get(k) == Some(final(self).cached_blocks()[k])
            },
    {
        let ghost l0 = self.contents();
        let ghost c0 = self.inner().spec_count();
        let ghost o0 = old(self).cache_order();
        let ghost d0 = old(self).dirty_blocks();
        let ghost b0 = old(self).blocks@;
        let ghost inner0 = old(self).block_device@;
        let ghost cap0 = old(self).capacity();
        let n: usize = blocks.len();
        let ghost all_cached: bool = forall|j: int|
            0 <= j < n ==> #[trigger] old(self).cached_blocks().contains_key((index.0 + j) as u64);
        proof {
            if all_cached {
                assert forall|j: int| 0 <= j < n implies lru_order(self.lru_cache).contains(#[trigger] ((index.0 + j) as u64)) by {
                    assert(old(self).cached_blocks().contains_key((index.0 + j) as u64));
                }
                lemma_run_fits(lru_order(self.lru_cache), index.0, n as nat);
            }
        }
        // check if we can satisfy the request only from what we have in cache
        let mut fully_cached = true;
        if n > lru_len(&self.lru_cache) {
            // requested more blocks that cache is holding
            fully_cached = false;
        } else {
            // check each block is found in the cache
            let mut i: usize = 0;
            while i < n && fully_cached
                invariant
                    i <= n,
                    index.0 + n <= u64::MAX + 1,
                    self == old(self),
                    all_cached ==> fully_cached,
                    all_cached == forall|j: int|
                        0 <= j < n ==> #[trigger] old(self).cached_blocks().contains_key((index.0 + j) as u64),
                    self.well_formed(),
                    fully_cached ==> forall|j: int|
                        0 <= j < i ==> lru_order(self.lru_cache).contains(#[trigger] ((index.0 + j) as u64)),
                decreases n - i + (if fully_cached { 1int } else { 0int }),
            {
                if !lru_contains(&self.lru_cache, index.0 + i as u64) {
                    assert(!old(self).cached_blocks().contains_key((index.0 + i) as u64));
                    fully_cached = false;
                } else {
                    i = i + 1;
                }
            }
        }
        proof {
            self.lemma_structured_sound();
        }
        if !fully_cached {
            // we must read from device
            self.block_device.read(blocks, index)?;
        }
        proof {
            assert forall|j: int| 0 <= j < n implies #[trigger] pending_ok(
                self.blocks@,
                l0,
                (index.0 + j) as u64,
                blocks@[j],
                fully_cached,
            ) by {
                let k = (index.0 + j) as u64;
                if !fully_cached {
                    assert(self.block_device@.get((index.0 + j) as u64) == Some(blocks@[j]));
                } else {
                    assert(lru_order(self.lru_cache).contains(k));
                }
            }
            assert(inner0.union_prefer_right(d0.restrict(Set::empty())) =~= inner0);
            assert(self.block_device@ == inner0);
        }
        // update from/to cache
        let mut i: usize = 0;
        while i < n
            invariant
                i <= n,
                n == blocks@.len(),
                n == old(blocks)@.len(),
                index.0 + n <= u64::MAX + 1,
                self.well_formed(),
                self.contents() == l0,
                self.inner().spec_count() == c0,
                all_cached ==> fully_cached,
                all_cached == forall|j: int|
                    0 <= j < n ==> #[trigger] old(self).cached_blocks().contains_key((index.0 + j) as u64),
                all_cached ==> forall|j: int| i <= j < n ==> #[trigger] self.blocks@.contains_key((index.0 + j) as u64),
                all_cached ==> self.blocks@ == old(self).blocks@ && self.block_device == old(self).block_device,
                self.capacity() == old(self).capacity(),
                o0 == old(self).cache_order(),
                d0 == old(self).dirty_blocks(),
                b0 == old(self).blocks@,
                inner0 == old(self).block_device@,
                cap0 == old(self).capacity(),
                lru_order(self.lru_cache) == order_after_writes(o0, index.0, i as nat, cap0),
                self.block_device@ == inner0.union_prefer_right(
                    d0.restrict(evicted_by_writes(o0, index.0, i as nat, cap0)),
                ),
                forall|k: u64|
                    #[trigger] self.blocks@.contains_key(k) ==> (b0.contains_key(k) && self.blocks@[k] == b0[k]) || (
                    !self.blocks@[k].dirty && (d0.contains_key(k) ==> evicted_by_writes(o0, index.0, i as nat, cap0).contains(k))),
                forall|k: u64|
                    #[trigger] b0.contains_key(k) && !self.blocks@.contains_key(k) ==> evicted_by_writes(
                        o0,
                        index.0,
                        i as nat,
                        cap0,
                    ).contains(k),
                recent_run(lru_order(self.lru_cache), index.0, i as int, min_of(i as int, self.capacity() as int)),
                forall|j: int| 0 <= j < i ==> l0.get((index.0 + j) as u64) == Some(#[trigger] blocks@[j]),
                forall|j: int|
                    i <= j < n ==> #[trigger] pending_ok(
                        self.blocks@,
                        l0,
                        (index.0 + j) as u64,
                        blocks@[j],
                        fully_cached,
                    ),
                old(self).inner().reliable() ==> self.block_device.reliable(),
            decreases n - i,
        {
            let k: u64 = index.0 + i as u64;
            assert(pending_ok(self.blocks@, l0, k, blocks@[i as int], fully_cached));
            let ghost order = lru_order(self.lru_cache);
            let ghost map0 = self.blocks@;
            let ghost blocks0 = blocks@;
            let ghost dev0 = self.block_device@;
            let ghost ev0 = evicted_by_writes(o0, index.0, i as nat, cap0);
            if lru_get(&mut self.lru_cache, k).is_some() {
                proof {
                    let p = choose|p: int|
                        0 <= p < order.len() && order[p] == k && lru_order(self.lru_cache)
                            == moved_to_front(order, p, k);
                    lemma_moved_to_front(order, p, k);
                    lemma_run_after_use(order, p, index.0, i as int, self.capacity() as int);
                    lemma_moved_to_front_is_put(order, p, k, cap0);
                    assert(evicted_by_put(order, k, cap0) =~= Set::<u64>::empty());
                    assert(ev0.union(Set::<u64>::empty()) =~= ev0);
                    assert(evicted_by_writes(o0, index.0, (i + 1) as nat, cap0) == ev0);
                }
                // block was found in cache, its access time was updated.
                let cb: CachedBlock<B::Block> = *self.blocks.get(&k).unwrap();
                if fully_cached || cb.dirty {
                    // fully_cached: block[i] is uninitialized, copy it from cache.
                    // dirty:        block[i] is initialized from device if !fully_cached,
                    //               but we hold a newer dirty version in cache, overlay it.
                    blocks[i] = cb.data;
                }
                proof {
                    assert forall|j: int| i + 1 <= j < n implies #[trigger] pending_ok(
                        self.blocks@,
                        l0,
                        (index.0 + j) as u64,
                        blocks@[j],
                        fully_cached,
                    ) by {
                        assert(pending_ok(map0, l0, (index.0 + j) as u64, blocks0[j], fully_cached));
                    }
                }
            } else {
                proof {
                    assert(!self.blocks@.contains_key(k));
                    if all_cached {
                        assert(self.blocks@.contains_key((index.0 + i) as u64));
                    }
                }
                // add the block we just read to the cache.
                // if cache is full, flush its lru entry
                if lru_len(&self.lru_cache) == lru_cap(&self.lru_cache) {
                    let ghost before = self.blocks@;
                    let ghost pre_blocks = blocks@;
                    let ghost pre = *self;
                    let ghost el = order.last();
                    assert(before.contains_key(k) == false);
                    proof {
                        assert(order.contains(el));
                        assert(evicted_by_put(order, k, cap0) == set![el]);
                        assert(evicted_by_writes(o0, index.0, (i + 1) as nat, cap0) == ev0.union(set![el]));
                    }
                    let (e, data) = self.evict_lru()?;
                    proof {
                        if b0.contains_key(el) && before[el] == b0[el] {
                            assert(pre.dirty_blocks().restrict(set![el]) =~= d0.restrict(set![el]));
                            lemma_union_restrict_step(inner0, d0, ev0, el);
                        } else {
                            assert(pre.dirty_blocks().restrict(set![el]) =~= Map::<u64, B::Block>::empty());
                            assert(dev0.union_prefer_right(Map::<u64, B::Block>::empty()) =~= dev0);
                            assert(d0.restrict(ev0.union(set![el])) =~= d0.restrict(ev0));
                        }
                    }
                    // the evicted block may be one that this request has yet to fill
                    if e > k && e - index.0 < n as u64 {
                        blocks[(e - index.0) as usize] = data;
                    }
                    proof {
                        assert forall|j: int| i <= j < n implies #[trigger] pending_ok(
                            self.blocks@,
                            l0,
                            (index.0 + j) as u64,
                            blocks@[j],
                            fully_cached,
                        ) by {
                            let kj = (index.0 + j) as u64;
                            assert(pending_ok(before, l0, kj, pre_blocks[j], fully_cached));
                            if kj == e {
                                assert(blocks@[j] == data);
                            } else {
                                assert(blocks@[j] == pre_blocks[j]);
                            }
                        }
                    }
                }
                let ghost before = self.contents();
                let ghost map1 = self.blocks@;
                let ghost blocks1 = blocks@;
                let ghost rest = lru_order(self.lru_cache);
                proof {
                    if rest == order {
                        assert(order.len() < cap0);
                        assert(evicted_by_put(order, k, cap0) =~= Set::<u64>::empty());
                        assert(ev0.union(Set::<u64>::empty()) =~= ev0);
                        assert(evicted_by_writes(o0, index.0, (i + 1) as nat, cap0) == ev0);
                    }
                }
                self.cache_block(k, CachedBlock { dirty: false, data: blocks[i] });
                proof {
                    lemma_run_after_insert(order, rest, index.0, i as int, self.capacity() as int);
                    assert(lru_order(self.lru_cache) == order_after_put(order, k, cap0));
                    let ev1 = evicted_by_writes(o0, index.0, (i + 1) as nat, cap0);
                    assert forall|y: u64|
                        #[trigger] self.blocks@.contains_key(y) implies (b0.contains_key(y) && self.blocks@[y] == b0[y]) || (
                        !self.blocks@[y].dirty && (d0.contains_key(y) ==> ev1.contains(y))) by {
                        if y != k {
                            assert(map1.contains_key(y));
                            assert(map0.contains_key(y));
                        } else if d0.contains_key(y) {
                            assert(b0.contains_key(y));
                            assert(!map1.contains_key(y));
                        }
                    }
                    assert forall|y: u64| #[trigger] b0.contains_key(y) && !self.blocks@.contains_key(y) implies ev1.contains(y) by {
                        if !map0.contains_key(y) {
                            assert(ev0.contains(y));
                        }
                    }
                    assert(self.contents() =~= before);
                    assert forall|j: int| i + 1 <= j < n implies #[trigger] pending_ok(
                        self.blocks@,
                        l0,
                        (index.0 + j) as u64,
                        blocks@[j],
                        fully_cached,
                    ) by {
                        assert(pending_ok(map1, l0, (index.0 + j) as u64, blocks1[j], fully_cached));
                    }
                }
            }
            i = i + 1;
        }
        proof {
            assert forall|j: int| #![trigger blocks@[j]] 0 <= j < n implies l0.get((index.0 + j) as u64) == Some(blocks@[j]) by {
            }
            self.lemma_structured_sound();
            if all_cached {
                assert(self.cached_blocks() =~= old(self).cached_blocks());
                assert(self.dirty_blocks() =~= old(self).dirty_blocks());
            }
            assert forall|y: u64| #[trigger] self.dirty_blocks().contains_key(y) implies d0.contains_key(y)
                && self.dirty_blocks()[y] == d0[y] by {
                assert(self.blocks@.contains_key(y));
            }
            self.lemma_clean_blocks_match_inner();
        }
        Ok(())
    }

    /// Adds dirty blocks to the cache.
    ///
    /// If the block was already present in the cache, it will simply be updated.
    ///
    /// When the cache is full, least recently used blocks will be evicted and written to device.
    /// This operation may fail, and this function will return an error when it happens.
    ///
    /// A write of at least as many blocks as the cache holds goes to the device in one go: the
    /// dirty cached blocks outside of it are written first, and the cache then holds the first
    /// blocks of the request, as clean blocks.
    fn write(&mut self, blocks: &[B::Block], index: BlockIndex) -> (r: BlockResult<()>)
        ensures
            // a write fails only when a call to the inner device fails, whatever it evicts
            old(self).inner().reliable() ==> r is Ok,
            final(self).capacity() == old(self).capacity(),
            final(self).cache_sound(),
            // a write that fits in the room left in the cache does not touch the device, and
            // succeeds
            blocks@.len() < old(self).capacity() && old(self).cache_order().len() + blocks@.len()
                <= old(self).capacity() ==> r is Ok,
            // a write of fewer blocks than the cache holds, to positions that are all cached,
            // updates them in the cache: it does not touch the device, and succeeds
            blocks@.len() < old(self).capacity() && (forall|t: int|
                0 <= t < blocks@.len() ==> #[trigger] old(self).cached_blocks().contains_key(
                    (index.0 + t) as u64,
                )) ==> {
                &&& r is Ok
                &&& final(self).inner() == old(self).inner()
                &&& final(self).cached_blocks().dom() == old(self).cached_blocks().dom()
            },
            // a write of fewer blocks than the cache holds succeeds when every block it evicts
            // is clean, in particular when no cached block is dirty
            blocks@.len() < old(self).capacity() && (forall|p: u64|
                #[trigger] evicted_by_writes(old(self).cache_order(), index.0, blocks@.len(), old(self).capacity()).contains(p)
                    ==> !old(self).dirty_blocks().contains_key(p)) ==> r is Ok,
            blocks@.len() < old(self).capacity() && old(self).dirty_blocks().dom().is_empty() ==> r is Ok,
            // a write of fewer blocks than the cache holds leaves them in the cache, dirty, as
            // the most recently used blocks; the blocks it evicts that are dirty go to the inner
            // device, and the other cached blocks stay as they were
            r is Ok && blocks@.len() < old(self).capacity() ==> {
                &&& final(self).cache_order() == order_after_writes(old(self).cache_order(), index.0, blocks@.len(), old(self).capacity())
                &&& recent_run(final(self).cache_order(), index.0, blocks@.len() as int, blocks@.len() as int)
                &&& forall|t: int|
                    0 <= t < blocks@.len() ==> #[trigger] final(self).dirty_blocks().get((index.0 + t) as u64)
                        == Some(blocks@[t])
                &&& final(self).inner()@ == old(self).inner()@.union_prefer_right(
                    old(self).dirty_blocks().restrict(
                        evicted_by_writes(old(self).cache_order(), index.0, blocks@.len(), old(self).capacity()),
                    ),
                )
                &&& forall|k: u64|
                    #[trigger] final(self).cached_blocks().contains_key(k) && !(index.0 <= k < index.0 + blocks@.len())
                        ==> old(self).cached_blocks().contains_key(k)
                        && final(self).cached_blocks()[k] == old(self).cached_blocks()[k]
                        && (final(self).dirty_blocks().contains_key(k) <==> old(self).dirty_blocks().contains_key(k))
            },
            // a bigger write leaves only its first blocks in the cache, clean
            r is Ok && blocks@.len() >= old(self).capacity() ==> {
                &&& recent_run(final(self).cache_order(), index.0, old(self).capacity() as int, old(self).capacity() as int)
                &&& final(self).cache_order().len() == old(self).capacity()
                &&& final(self).dirty_blocks() == Map::<u64, B::Block>::empty()
            },
    {
        let ghost l0 = self.contents();
        let ghost c0 = self.inner().spec_count();
        let n: usize = blocks.len();
        let cap: usize = lru_cap(&self.lru_cache);
        proof {
            self.lemma_structured_sound();
        }
        if n < cap {
            let ghost o0 = old(self).cache_order();
            let ghost d0 = old(self).dirty_blocks();
            let ghost b0 = old(self).blocks@;
            let ghost inner0 = old(self).block_device@;
            let ghost all_cached: bool = forall|t: int|
                0 <= t < n ==> #[trigger] old(self).cached_blocks().contains_key((index.0 + t) as u64);
            let ghost clean_evictions: bool = forall|p: u64|
                #[trigger] evicted_by_writes(o0, index.0, n as nat, cap as nat).contains(p) ==> !d0.contains_key(p);
            proof {
                assert(inner0.union_prefer_right(d0.restrict(Set::empty())) =~= inner0);
                if d0.dom().is_empty() {
                    assert forall|p: u64|
                        #[trigger] evicted_by_writes(o0, index.0, n as nat, cap as nat).contains(p) implies !d0.contains_key(p) by {
                        assert(!d0.dom().contains(p));
                    }
                }
            }
            let mut i: usize = 0;
            while i < n
                invariant
                    i <= n,
                    n == blocks@.len(),
                    n < cap,
                    cap == self.capacity(),
                    cap == old(self).capacity(),
                    index.0 + n <= u64::MAX + 1,
                    self.well_formed(),
                    self.cache_sound(),
                    self.inner().spec_count() == c0,
                    self.contents() == overwritten(l0, index.0, blocks@.subrange(0, i as int)),
                    old(self).cache_order().len() + n <= cap ==> self.cache_order().len()
                        <= old(self).cache_order().len() + i,
                    recent_run(lru_order(self.lru_cache), index.0, i as int, i as int),
                    forall|t: int|
                        0 <= t < i ==> #[trigger] self.blocks@.get((index.0 + t) as u64) == Some(
                            CachedBlock { dirty: true, data: blocks@[t] },
                        ),
                    o0 == old(self).cache_order(),
                    d0 == old(self).dirty_blocks(),
                    b0 == old(self).blocks@,
                    inner0 == old(self).block_device@,
                    all_cached == forall|t: int|
                        0 <= t < n ==> #[trigger] old(self).cached_blocks().contains_key((index.0 + t) as u64),
                    clean_evictions == forall|p: u64|
                        #[trigger] evicted_by_writes(o0, index.0, n as nat, cap as nat).contains(p) ==> !d0.contains_key(p),
                    lru_order(self.lru_cache) == order_after_writes(o0, index.0, i as nat, cap as nat),
                    self.block_device@ == inner0.union_prefer_right(
                        d0.restrict(evicted_by_writes(o0, index.0, i as nat, cap as nat)),
                    ),
                    forall|k: u64|
                        #[trigger] self.blocks@.contains_key(k) && !(index.0 <= k < index.0 + i) ==> b0.contains_key(k)
                            && self.blocks@[k] == b0[k],
                    all_cached ==> self.blocks@.dom() == b0.dom() && self.block_device == old(self).block_device,
                    old(self).inner().reliable() ==> self.block_device.reliable(),
                decreases n - i,
            {
                let k: u64 = index.0 + i as u64;
                let ghost order = lru_order(self.lru_cache);
                let ghost map0 = self.blocks@;
                let ghost dev0 = self.block_device@;
                let ghost ev0 = evicted_by_writes(o0, index.0, i as nat, cap as nat);
                proof {
                    if all_cached {
                        assert(old(self).cached_blocks().contains_key((index.0 + i) as u64));
                        assert(b0.contains_key(k));
                        assert(map0.dom().contains(k));
                        assert(order.contains(k));
                    }
                }
                // add it to the cache
                // if the position is not cached yet and the cache is full, flush its lru entry
                if !lru_contains(&self.lru_cache, k) && lru_len(&self.lru_cache) == cap {
                    let ghost pre = *self;
                    let ghost e = order.last();
                    proof {
                        // the least recently used position is none of those this write wrote
                        assert(order.contains(e));
                        assert(map0.contains_key(e));
                        if index.0 <= e && e < index.0 + i {
                            let t = (i - 1 - (e - index.0)) as int;
                            assert(order[t] == (index.0 + (i - 1 - t)) as u64);
                            assert(order[order.len() - 1] == e);
                        }
                        assert(map0[e] == b0[e]);
                        assert(evicted_by_put(order, k, cap as nat) == set![e]);
                        assert(evicted_by_writes(o0, index.0, (i + 1) as nat, cap as nat) == ev0.union(set![e]));
                        lemma_evicted_grows(o0, index.0, (i + 1) as nat, n as nat, cap as nat);
                        if clean_evictions {
                            assert(evicted_by_writes(o0, index.0, n as nat, cap as nat).contains(e));
                            assert(!d0.contains_key(e));
                            assert(!self.dirty_blocks().contains_key(order.last()));
                        }
                    }
                    let _evicted = self.evict_lru()?;
                    proof {
                        assert forall|t: int| 0 <= t < i implies #[trigger] lru_order(self.lru_cache)[t]
                            == (index.0 + (i - 1 - t)) as u64 by {
                            assert(order[t] == (index.0 + (i - 1 - t)) as u64);
                        }
                        assert forall|t: int| 0 <= t < i implies #[trigger] self.blocks@.get((index.0 + t) as u64) == Some(
                            CachedBlock { dirty: true, data: blocks@[t] },
                        ) by {
                            assert(order[i - 1 - t] == (index.0 + t) as u64);
                            assert(map0.get((index.0 + t) as u64) == Some(CachedBlock { dirty: true, data: blocks@[t] }));
                        }
                        assert(pre.dirty_blocks().restrict(set![e]) =~= d0.restrict(set![e]));
                        lemma_union_restrict_step(inner0, d0, ev0, e);
                    }
                }
                let ghost rest = lru_order(self.lru_cache);
                let ghost map1 = self.blocks@;
                self.cache_block(k, CachedBlock { dirty: true, data: blocks[i] });
                proof {
                    assert(self.contents() =~= overwritten(l0, index.0, blocks@.subrange(0, i + 1)));
                    if map1.contains_key(k) {
                        let p = choose|p: int|
                            0 <= p < rest.len() && rest[p] == k && lru_order(self.lru_cache)
                                == moved_to_front(rest, p, k);
                        lemma_run_after_use(rest, p, index.0, i as int, cap as int);
                        lemma_moved_to_front_is_put(rest, p, k, cap as nat);
                        assert(rest == order);
                        assert(evicted_by_put(order, k, cap as nat) =~= Set::<u64>::empty());
                        assert(ev0.union(Set::<u64>::empty()) =~= ev0);
                    } else {
                        lemma_run_after_insert(rest, rest, index.0, i as int, cap as int);
                        if !order.contains(k) && order.len() < cap {
                            assert(rest == order);
                            assert(evicted_by_put(order, k, cap as nat) =~= Set::<u64>::empty());
                            assert(ev0.union(Set::<u64>::empty()) =~= ev0);
                        }
                    }
                    assert(lru_order(self.lru_cache) == order_after_put(order, k, cap as nat));
                    assert forall|t: int| 0 <= t < i + 1 implies #[trigger] self.blocks@.get((index.0 + t) as u64) == Some(
                        CachedBlock { dirty: true, data: blocks@[t] },
                    ) by {
                        if t < i {
                            assert(map1.get((index.0 + t) as u64) == Some(CachedBlock { dirty: true, data: blocks@[t] }));
                        }
                    }
                    assert forall|y: u64|
                        #[trigger] self.blocks@.contains_key(y) && !(index.0 <= y < index.0 + (i + 1)) implies b0.contains_key(y)
                            && self.blocks@[y] == b0[y] by {
                        assert(map1.contains_key(y));
                        assert(map0.contains_key(y));
                    }
                    if all_cached {
                        assert(self.blocks@.dom() =~= b0.dom());
                    }
                    self.lemma_structured_sound();
                }
                i = i + 1;
            }
            proof {
                assert(blocks@.subrange(0, n as int) =~= blocks@);
                assert forall|t: int| 0 <= t < n implies #[trigger] self.dirty_blocks().get((index.0 + t) as u64)
                    == Some(blocks@[t]) by {
                    assert(self.blocks@.get((index.0 + t) as u64) == Some(CachedBlock { dirty: true, data: blocks@[t] }));
                }
                assert forall|y: u64|
                    #[trigger] self.cached_blocks().contains_key(y) && !(index.0 <= y < index.0 + n) implies old(
                        self,
                    ).cached_blocks().contains_key(y) && self.cached_blocks()[y] == old(self).cached_blocks()[y] && (
                    self.dirty_blocks().contains_key(y) <==> old(self).dirty_blocks().contains_key(y)) by {
                    assert(self.blocks@.contains_key(y));
                }
                if all_cached {
                    assert(self.cached_blocks().dom() =~= old(self).cached_blocks().dom());
                }
            }
        } else {
            // we're performing a big write, that will evict all cache blocks.
            // evict it in one go, and repopulate with the first `cap` blocks from `blocks`.
            let ghost inner0 = self.block_device@;
            let ghost map0 = self.blocks@;
            let keys = lru_keys(&self.lru_cache);
            let mut t: usize = 0;
            while t < keys.len()
                invariant
                    t <= keys@.len(),
                    keys@ == lru_order(self.lru_cache),
                    cap == self.capacity(),
                    cap == old(self).capacity(),
                    cap <= n,
                    self.cache_structured(),
                    self.blocks@ == map0,
                    self.block_device.inv(),
                    self.inner().spec_count() == c0,
                    n == blocks@.len(),
                    index.0 + n <= u64::MAX + 1,
                    self.block_device@ == written_outside(inner0, map0, keys@.subrange(0, t as int), index.0, n as nat),
                    old(self).inner().reliable() ==> self.block_device.reliable(),
                decreases keys@.len() - t,
            {
                let x = keys[t];
                assert(lru_order(self.lru_cache).contains(x));
                let cb: CachedBlock<B::Block> = *self.blocks.get(&x).unwrap();
                // a dirty block that this write does not overwrite is written to device first
                if cb.dirty && !(x >= index.0 && x - index.0 < n as u64) {
                    self.block_device.write(core::slice::from_ref(&cb.data), BlockIndex(x))?;
                }
                proof {
                    let before = keys@.subrange(0, t as int);
                    let after = keys@.subrange(0, t + 1);
                    assert(after =~= before.push(x));
                    assert forall|y: u64| #[trigger] outside_dirty(map0, after, index.0, n as nat, y)
                        <==> (outside_dirty(map0, before, index.0, n as nat, y)
                            || (y == x && cb.dirty && !(index.0 <= x < index.0 + n))) by {
                        if before.contains(y) {
                            let q = choose|q: int| 0 <= q < before.len() && before[q] == y;
                            assert(after[q] == y);
                        }
                        if after.contains(y) && y != x {
                            let q = choose|q: int| 0 <= q < after.len() && after[q] == y;
                            assert(before[q] == y);
                        }
                        if y == x {
                            assert(after[t as int] == y);
                        }
                    }
                    assert(self.block_device@ =~= written_outside(inner0, map0, after, index.0, n as nat));
                }
                t = t + 1;
            }
            proof {
                assert(keys@.subrange(0, keys@.len() as int) =~= keys@);
            }
            // write in one go
            self.block_device.write(blocks, index)?;
            let ghost target = overwritten(l0, index.0, blocks@);
            proof {
                assert(self.block_device@ =~= target);
            }
            // add first `cap` blocks to cache
            let mut j: usize = 0;
            while j < cap
                invariant
                    j <= cap,
                    cap == self.capacity(),
                    cap <= n,
                    n == blocks@.len(),
                    index.0 + n <= u64::MAX + 1,
                    self.block_device@ == target,
                    self.block_device.inv(),
                    self.inner().spec_count() == c0,
                    self.cache_structured(),
                    lru_order(self.lru_cache).len() >= j,
                    forall|q: int| 0 <= q < j ==> #[trigger] lru_order(self.lru_cache)[q] == (index.0 + (j - 1 - q)) as u64,
                    forall|q: int|
                        0 <= q < j ==> #[trigger] self.blocks@.contains_key((index.0 + q) as u64)
                            && !self.blocks@[(index.0 + q) as u64].dirty
                            && self.blocks@[(index.0 + q) as u64].data == blocks@[q],
                    old(self).inner().reliable() ==> self.block_device.reliable(),
                decreases cap - j,
            {
                let k: u64 = index.0 + j as u64;
                let ghost order = lru_order(self.lru_cache);
                let ghost map_j = self.blocks@;
                proof {
                    assert forall|q: int| 0 <= q < j implies #[trigger] order[q] != k by {
                        assert(order[q] == (index.0 + (j - 1 - q)) as u64);
                    }
                }
                if !lru_contains(&self.lru_cache, k) && lru_len(&self.lru_cache) == cap {
                    // the cache is full: its least recently used block is left out
                    let e = lru_pop_lru(&mut self.lru_cache).unwrap();
                    self.blocks.remove(&e);
                    proof {
                        lemma_dropped_last(order);
                        assert forall|q: int| 0 <= q < j implies order[q] != e by {
                            assert(order[order.len() - 1] == e);
                        }
                        assert forall|q: int| 0 <= q < j implies #[trigger] self.blocks@.contains_key((index.0 + q) as u64)
                            && !self.blocks@[(index.0 + q) as u64].dirty
                            && self.blocks@[(index.0 + q) as u64].data == blocks@[q] by {
                            assert(order[j - 1 - q] == (index.0 + q) as u64);
                            assert(map_j.contains_key((index.0 + q) as u64));
                        }
                    }
                }
                let ghost order1 = lru_order(self.lru_cache);
                let ghost map1 = self.blocks@;
                self.blocks.insert(k, CachedBlock { dirty: false, data: blocks[j] });
                lru_put(&mut self.lru_cache, k);
                proof {
                    assert forall|q: int| 0 <= q < j implies #[trigger] order1[q] == (index.0 + (j - 1 - q)) as u64 by {
                        assert(order[q] == (index.0 + (j - 1 - q)) as u64);
                    }
                    if order1.contains(k) {
                        let p = choose|p: int|
                            0 <= p < order1.len() && order1[p] == k && lru_order(self.lru_cache)
                                == moved_to_front(order1, p, k);
                        lemma_moved_to_front(order1, p, k);
                        if p < j {
                            assert(order1[p] == (index.0 + (j - 1 - p)) as u64);
                        }
                        assert forall|q: int| 0 <= q < j + 1 implies #[trigger] lru_order(self.lru_cache)[q]
                            == (index.0 + (j + 1 - 1 - q)) as u64 by {
                            if q > 0 {
                                assert(lru_order(self.lru_cache)[(q - 1) + 1] == order1[q - 1]);
                            }
                        }
                    } else {
                        lemma_pushed_front(order1, k);
                        assert forall|q: int| 0 <= q < j + 1 implies #[trigger] lru_order(self.lru_cache)[q]
                            == (index.0 + (j + 1 - 1 - q)) as u64 by {
                            if q > 0 {
                                assert(lru_order(self.lru_cache)[(q - 1) + 1] == order1[q - 1]);
                            }
                        }
                    }
                    assert forall|q: int| 0 <= q < j + 1 implies #[trigger] self.blocks@.contains_key((index.0 + q) as u64)
                        && !self.blocks@[(index.0 + q) as u64].dirty
                        && self.blocks@[(index.0 + q) as u64].data == blocks@[q] by {
                        if q < j {
                            assert(map1.contains_key((index.0 + q) as u64));
                        }
                    }
                }
                j = j + 1;
            }
            proof {
                // the cache now holds exactly the first `cap` blocks of the request
                let order = lru_order(self.lru_cache);
                assert(order.len() == cap);
                assert forall|y: u64|
                    #[trigger] self.blocks@.contains_key(y) implies self.blocks@.contains_key(y) && !self.blocks@[y].dirty
                        && target.get(y) == Some(self.blocks@[y].data) by {
                    assert(order.contains(y));
                    let p = choose|p: int| 0 <= p < order.len() && order[p] == y;
                    assert(order[p] == (index.0 + (cap - 1 - p)) as u64);
                    let q = cap - 1 - p;
                    assert(self.blocks@.contains_key((index.0 + q) as u64));
                }
                let c = self.contents();
                assert forall|y: u64| #[trigger] c.contains_key(y) implies c[y] == target[y] by {
                    if self.blocks@.contains_key(y) {
                        assert(target.get(y) == Some(self.blocks@[y].data));
                    }
                }
                assert forall|y: u64| #[trigger] c.contains_key(y) <==> target.contains_key(y) by {
                    if self.blocks@.contains_key(y) {
                        assert(target.get(y) == Some(self.blocks@[y].data));
                    }
                }
                assert(c =~= target);
            }
        }
        Ok(())
    }

    /// Asks the inner device; the cache is left as it is.
    fn count(&mut self) -> (r: BlockResult<BlockCount>)
        ensures
            // counting fails only when the inner device's count fails
            old(self).inner().reliable() ==> r is Ok,
            final(self).cache_order() == old(self).cache_order(),
            final(self).capacity() == old(self).capacity(),
            final(self).cached_blocks() == old(self).cached_blocks(),
            final(self).dirty_blocks() == old(self).dirty_blocks(),
    {
        self.block_device.count()
    }

    /// Writes every dirty cached block to device; the lru order and the cached blocks stay
    /// as they are.
    fn flush(&mut self) -> (r: BlockResult<()>)
        ensures
            final(self).cache_order() == old(self).cache_order(),
            final(self).capacity() == old(self).capacity(),
            final(self).cached_blocks() == old(self).cached_blocks(),
            final(self).cache_sound(),
            final(self).dirty_blocks().submap_of(old(self).dirty_blocks()),
            // flushing fails only when a write to the inner device fails
            old(self).inner().reliable() ==> r is Ok,
            old(self).dirty_blocks().dom().is_empty() ==> r is Ok && final(self).inner() == old(self).inner(),
            r is Ok ==> final(self).inner()@ == old(self)@,
    {
        CachedBlockDevice::<B>::flush(self)
    }
}

} // verus!
