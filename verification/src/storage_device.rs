//! Randomly accessible device
//!
//! This modules exposes the [`StorageDevice`] to represent any device that exposes byte-granular
//! read and write operations, as opposed to block-size operations, and the [`StorageBlockDevice`]
//! struct that can turn any `BlockDevice` into a `StorageDevice` by performing multiple block-align
//! operations.

use vstd::prelude::*;
use vstd::arithmetic::div_mod::{lemma_fundamental_div_mod, lemma_fundamental_div_mod_converse, lemma_mod_bound};
use crate::block::{overwritten, holds_at, BlockData, BlockDevice, BlockError, BlockIndex, BlockResult};

verus! {

/// The bytes that a map of blocks holds, by byte offset: byte `o` is byte `o % n` of block
/// `o / n`, where `n` is the size of a block.
pub open spec fn byte_view<B: BlockData>(blocks: Map<u64, B>) -> Map<u64, u8> {
    Map::new(
        |o: u64| blocks.contains_key((o as int / B::spec_block_len() as int) as u64),
        |o: u64|
            blocks[(o as int / B::spec_block_len() as int) as u64].bytes()[o as int
                % B::spec_block_len() as int],
    )
}

/// The bytes of `blocks`, one block after the other.
pub open spec fn flatten_blocks<B: BlockData>(blocks: Seq<B>) -> Seq<u8> {
    Seq::new(
        blocks.len() * B::spec_block_len(),
        |q: int| blocks[q / B::spec_block_len() as int].bytes()[q % B::spec_block_len() as int],
    )
}

/// `items` where the positions from `lo` on are replaced by `src`.
pub open spec fn patched<T>(items: Seq<T>, lo: int, src: Seq<T>) -> Seq<T> {
    Seq::new(items.len(), |x: int| if lo <= x < lo + src.len() { src[x - lo] } else { items[x] })
}

/// Position `o` is position `t` of block `blk`.
proof fn lemma_position(o: int, blk: int, t: int, bs: int)
    requires
        bs > 0,
        0 <= t < bs,
        o == blk * bs + t,
    ensures
        o / bs == blk,
        o % bs == t,
{
    lemma_fundamental_div_mod_converse(o, bs, blk, t);
}

/// Moving a position by `a` whole blocks moves its block by `a` and keeps its place in the block.
proof fn lemma_shift(o: int, a: int, m: int, bs: int)
    requires
        bs > 0,
    ensures
        (o - a * bs) / bs == o / bs - a,
        (o - a * bs) % bs == o % bs,
        0 <= o % bs < bs,
        (a <= o / bs < a + m) <==> (a * bs <= o < a * bs + m * bs),
        o >= 0 ==> 0 <= o / bs <= o,
{
    lemma_fundamental_div_mod(o, bs);
    lemma_mod_bound(o, bs);
    let q = o / bs;
    let r = o % bs;
    assert(o - a * bs == (q - a) * bs + r) by (nonlinear_arith)
        requires
            o == bs * q + r,
    ;
    lemma_position(o - a * bs, q - a, r, bs);
    assert((a <= q < a + m) <==> (a * bs <= o < a * bs + m * bs)) by (nonlinear_arith)
        requires
            o == bs * q + r,
            0 <= r < bs,
            bs > 0,
    ;
    assert(o >= 0 ==> 0 <= q <= o) by (nonlinear_arith)
        requires
            o == bs * q + r,
            0 <= r < bs,
            bs > 0,
    ;
}

/// Writing nothing leaves a view as it is.
pub proof fn lemma_overwrite_nothing<T>(view: Map<u64, T>, start: u64)
    ensures
        overwritten(view, start, Seq::<T>::empty()) == view,
{
    assert(overwritten(view, start, Seq::<T>::empty()) =~= view);
}

/// Writing `s1` and then `s2` right after it is writing `s1 + s2`.
pub proof fn lemma_overwrite_concat<T>(view: Map<u64, T>, start: u64, s1: Seq<T>, s2: Seq<T>)
    requires
        start + s1.len() <= u64::MAX,
    ensures
        overwritten(overwritten(view, start, s1), (start + s1.len()) as u64, s2) == overwritten(
            view,
            start,
            s1 + s2,
        ),
{
    let lhs = overwritten(overwritten(view, start, s1), (start + s1.len()) as u64, s2);
    let rhs = overwritten(view, start, s1 + s2);
    assert forall|k: u64| #[trigger] lhs.contains_key(k) implies lhs[k] == rhs[k] by {
        if start <= k < start + s1.len() {
            assert((s1 + s2)[k - start] == s1[k - start]);
        } else if start + s1.len() <= k < start + s1.len() + s2.len() {
            assert((s1 + s2)[k - start] == s2[k - start - s1.len()]);
        }
    }
    assert(lhs =~= rhs);
}

/// Where a view already holds `items`, writing them with some positions replaced by `src`
/// is writing `src` alone.
pub proof fn lemma_overwrite_patched<T>(
    view: Map<u64, T>,
    start: u64,
    items: Seq<T>,
    lo: int,
    src: Seq<T>,
)
    requires
        holds_at(view, start, items),
        0 <= lo,
        lo + src.len() <= items.len(),
        start + lo <= u64::MAX,
    ensures
        overwritten(view, start, patched(items, lo, src)) == overwritten(
            view,
            (start + lo) as u64,
            src,
        ),
{
    let lhs = overwritten(view, start, patched(items, lo, src));
    let rhs = overwritten(view, (start + lo) as u64, src);
    assert forall|k: u64| lhs.contains_key(k) <==> rhs.contains_key(k) by {
        if start <= k < start + items.len() {
            let i = k - start;
            assert(view.get((start + i) as u64) == Some(items[i]));
        }
    }
    assert forall|k: u64| #[trigger] lhs.contains_key(k) implies lhs[k] == rhs[k] by {
        if start <= k < start + items.len() {
            let i = k - start;
            assert(view.get((start + i) as u64) == Some(items[i]));
        }
    }
    assert(lhs =~= rhs);
}

/// A view that holds `s1` and, right after it, `s2`, holds `s1 + s2`.
pub proof fn lemma_holds_concat<T>(view: Map<u64, T>, start: u64, s1: Seq<T>, s2: Seq<T>)
    requires
        holds_at(view, start, s1),
        holds_at(view, (start + s1.len()) as u64, s2),
        start + s1.len() <= u64::MAX,
    ensures
        holds_at(view, start, s1 + s2),
{
    assert forall|i: int|
        #![trigger (s1 + s2)[i]]
        0 <= i < (s1 + s2).len() && start + i <= u64::MAX implies view.contains_key(
        (start + i) as u64) && view[(start + i) as u64] == (s1 + s2)[i] by {
        if i < s1.len() {
            assert(s1[i] == (s1 + s2)[i]);
        } else {
            assert(s2[i - s1.len()] == (s1 + s2)[i]);
        }
    }
}

/// A view that holds `items` holds every part of it.
pub proof fn lemma_holds_subrange<T>(view: Map<u64, T>, start: u64, items: Seq<T>, lo: int, hi: int)
    requires
        holds_at(view, start, items),
        0 <= lo <= hi <= items.len(),
        start + lo <= u64::MAX,
    ensures
        holds_at(view, (start + lo) as u64, items.subrange(lo, hi)),
{
    assert forall|i: int|
        #![trigger items.subrange(lo, hi)[i]]
        0 <= i < hi - lo && start + lo + i <= u64::MAX implies view.contains_key(
        (start + lo + i) as u64) && view[(start + lo + i) as u64] == items.subrange(lo, hi)[i] by {
        assert(items[lo + i] == items.subrange(lo, hi)[i]);
    }
}

/// Blocks that a block view holds give their bytes to its byte view.
pub proof fn lemma_bytes_of_held_blocks<B: BlockData>(view: Map<u64, B>, start: u64, blocks: Seq<B>)
    requires
        holds_at(view, start, blocks),
        start * B::spec_block_len() <= u64::MAX,
    ensures
        holds_at(
            byte_view(view),
            (start * B::spec_block_len()) as u64,
            flatten_blocks(blocks),
        ),
{
    let bs = B::spec_block_len() as int;
    let a = start as int;
    let bytes = flatten_blocks(blocks);
    B::lemma_block_len_positive();
    assert forall|q: int|
        #![trigger bytes[q]]
        0 <= q < bytes.len() && a * bs + q <= u64::MAX implies byte_view(view).contains_key(
        (a * bs + q) as u64) && byte_view(view)[(a * bs + q) as u64] == bytes[q] by {
        let o = a * bs + q;
        lemma_shift(o, a, blocks.len() as int, bs);
        lemma_shift(q, 0, blocks.len() as int, bs);
        let j = q / bs;
        assert(o / bs == a + j);
        assert(0 <= o / bs <= o) by (nonlinear_arith)
            requires
                o >= 0,
                bs > 0,
        ;
        assert(view.get((start + j) as u64) == Some(blocks[j]));
        assert(byte_view(view).contains_key(o as u64));
    }
}

/// Writing whole blocks writes their bytes, one block after the other.
pub proof fn lemma_bytes_of_overwritten_blocks<B: BlockData>(
    view: Map<u64, B>,
    start: u64,
    blocks: Seq<B>,
)
    requires
        start * B::spec_block_len() <= u64::MAX,
    ensures
        byte_view(overwritten(view, start, blocks)) == overwritten(
            byte_view(view),
            (start * B::spec_block_len()) as u64,
            flatten_blocks(blocks),
        ),
{
    let bs = B::spec_block_len() as int;
    let a = start as int;
    let m = blocks.len() as int;
    let lhs = byte_view(overwritten(view, start, blocks));
    let rhs = overwritten(byte_view(view), (start * B::spec_block_len()) as u64, flatten_blocks(blocks));
    B::lemma_block_len_positive();
    assert(m * bs == flatten_blocks(blocks).len());
    assert forall|o: u64| lhs.contains_key(o) <==> rhs.contains_key(o) by {
        lemma_shift(o as int, a, m, bs);
        assert(0 <= (o as int) / bs <= o) by (nonlinear_arith)
            requires
                o >= 0,
                bs > 0,
        ;
    }
    assert forall|o: u64| #[trigger] lhs.contains_key(o) implies lhs[o] == rhs[o] by {
        lemma_shift(o as int, a, m, bs);
        assert(0 <= (o as int) / bs <= o) by (nonlinear_arith)
            requires
                o >= 0,
                bs > 0,
        ;
    }
    assert(lhs =~= rhs);
}


/// A block that a block view holds gives its bytes to the byte view.
pub proof fn lemma_bytes_of_held_block<B: BlockData>(view: Map<u64, B>, blk: u64)
    requires
        view.contains_key(blk),
        blk * B::spec_block_len() <= u64::MAX,
    ensures
        holds_at(byte_view(view), (blk * B::spec_block_len()) as u64, view[blk].bytes()),
{
    let b = view[blk];
    assert(view.get((blk + 0) as u64) == Some(seq![b][0]));
    lemma_bytes_of_held_blocks(view, blk, seq![b]);
    lemma_flatten_one(b);
}

/// The bytes of a single block are its bytes.
pub proof fn lemma_flatten_one<B: BlockData>(b: B)
    ensures
        flatten_blocks(seq![b]) == b.bytes(),
{
    B::lemma_block_len_positive();
    b.lemma_bytes_len();
    let bs = B::spec_block_len() as int;
    let n = seq![b].len();
    assert(n == 1);
    assert(n * B::spec_block_len() == B::spec_block_len()) by (nonlinear_arith)
        requires
            n == 1,
    ;
    assert(flatten_blocks(seq![b]).len() == bs);
    assert forall|q: int| 0 <= q < bs implies #[trigger] flatten_blocks(seq![b])[q] == b.bytes()[q] by {
        lemma_position(q, 0, q, bs);
        assert(seq![b][0] == b);
        assert(flatten_blocks(seq![b])[q] == seq![b][q / bs].bytes()[q % bs]);
    }
    assert(flatten_blocks(seq![b]) =~= b.bytes());
}

/// How many bytes of a request of `len` bytes at `offset` fall in the block where it starts,
/// when that block is only partly covered.
pub open spec fn head_part_len(offset: int, len: int, bs: int) -> int {
    if offset % bs == 0 {
        0
    } else if len < bs - offset % bs {
        len
    } else {
        bs - offset % bs
    }
}

/// How many bytes of a request of `len` bytes at `offset` fall in the block where it ends,
/// when that block is only partly covered and is not the block where the request starts.
pub open spec fn tail_part_len(offset: int, len: int, bs: int) -> int {
    if head_part_len(offset, len, bs) == len {
        0
    } else {
        (offset + len) % bs
    }
}

/// A request splits into a partial first block, whole middle blocks and a partial last block.
proof fn lemma_request_split(offset: int, len: int, bs: int)
    requires
        bs > 0,
        offset >= 0,
        len >= 0,
    ensures
        ({
            let hl = head_part_len(offset, len, bs);
            let tl = tail_part_len(offset, len, bs);
            let ml = len - hl - tl;
            &&& 0 <= hl <= len
            &&& 0 <= tl < bs
            &&& hl + tl <= len
            &&& (ml / bs) * bs == ml
            &&& 0 <= offset % bs < bs
            &&& (offset / bs) * bs + offset % bs == offset
            &&& hl > 0 ==> offset % bs + hl <= bs
            &&& hl < len ==> ((offset + hl) / bs) * bs == offset + hl
            &&& tl > 0 ==> hl < len && ((offset + len) / bs) * bs + tl == offset + len
            &&& ml > 0 ==> hl < len
        }),
{
    let hl = head_part_len(offset, len, bs);
    let tl = tail_part_len(offset, len, bs);
    let ml = len - hl - tl;
    lemma_fundamental_div_mod(offset, bs);
    lemma_mod_bound(offset, bs);
    lemma_fundamental_div_mod(offset + len, bs);
    lemma_mod_bound(offset + len, bs);
    let q = offset / bs;
    let r = offset % bs;
    assert(q * bs == bs * q) by (nonlinear_arith);
    assert((offset + len) / bs * bs == bs * ((offset + len) / bs)) by (nonlinear_arith);
    if hl < len {
        // the request goes on past its first block, from a block boundary on
        let b = offset + hl;
        assert(b == (if r == 0 { q } else { q + 1 }) * bs) by (nonlinear_arith)
            requires
                offset == bs * q + r,
                b == offset + (if r == 0 { 0 } else { bs - r }),
        ;
        let bq = if r == 0 { q } else { q + 1 };
        lemma_position(b, bq, 0, bs);
        let rest = len - hl;
        lemma_fundamental_div_mod(rest, bs);
        lemma_mod_bound(rest, bs);
        assert((offset + len) % bs == rest % bs) by {
            lemma_shift(rest, -bq, 0, bs);
            assert(rest - (-bq) * bs == offset + len) by (nonlinear_arith)
                requires
                    b == bq * bs,
                    rest == len - hl,
                    b == offset + hl,
            ;
        }
        assert(ml == bs * (rest / bs));
        assert(ml == (rest / bs) * bs) by (nonlinear_arith)
            requires
                ml == bs * (rest / bs),
        ;
        lemma_position(ml, rest / bs, 0, bs);
        assert((ml / bs) * bs == ml) by (nonlinear_arith)
            requires
                ml == bs * (rest / bs),
                ml / bs == rest / bs,
        ;
    } else {
        assert(ml == 0);
        assert((ml / bs) * bs == ml) by (nonlinear_arith)
            requires
                ml == 0,
                bs > 0,
        ;
    }
}

/// A buffer whose first `pos` bytes hold the bytes of a view from `start` on, and which then
/// gets the next `n` bytes from `start + pos` on, holds its first `pos + n` bytes.
proof fn lemma_holds_prefix_extended(
    view: Map<u64, u8>,
    start: u64,
    before: Seq<u8>,
    after: Seq<u8>,
    pos: int,
    n: int,
)
    requires
        0 <= pos,
        0 <= n,
        pos + n <= after.len(),
        pos <= before.len(),
        start + pos <= u64::MAX,
        holds_at(view, start, before.subrange(0, pos)),
        after.subrange(0, pos) == before.subrange(0, pos),
        holds_at(view, (start + pos) as u64, after.subrange(pos, pos + n)),
    ensures
        holds_at(view, start, after.subrange(0, pos + n)),
{
    lemma_holds_concat(view, start, after.subrange(0, pos), after.subrange(pos, pos + n));
    assert(after.subrange(0, pos) + after.subrange(pos, pos + n) =~= after.subrange(0, pos + n));
}

/// `core::slice::from_mut` turns a reference to a value into a slice of length one that is
/// that value: the slice holds the value, and what the slice holds at the end is the value.
pub assume_specification<T>[ core::slice::from_mut::<T> ](s: &mut T) -> (r: &mut [T])
    ensures
        r@ == seq![*old(s)],
        final(r)@ == seq![*final(s)],
;

/// `core::slice::from_ref` turns a reference to a value into a slice of length one that holds
/// that value.
pub assume_specification<T>[ core::slice::from_ref::<T> ](s: &T) -> (r: &[T])
    ensures
        r@ == seq![*s],
;

/// A trait to represent any device that exposes byte-granular read and write operations,
/// as opposed to block-size operations.
///
/// A `StorageDevice` can read/write to/from arbitrary length buffers, and at arbitrary offsets.
/// It is described by its view, the map from byte offsets to the bytes it holds.
pub trait StorageDevice {
    /// Error type returned by this storage device when an operation fails
    type Error;

    /// The bytes the device holds, by offset.
    ///
    /// The defaults of this and the next spec functions describe nothing: a device that keeps
    /// them is not in working order (`inv` is false), so no contract of this trait is in force
    /// for it. A device describes itself by giving all five.
    open spec fn view(&self) -> Map<u64, u8> {
        Map::empty()
    }

    /// The device is in working order, so that its operations keep their contracts.
    open spec fn inv(&self) -> bool {
        false
    }

    /// The size of the device in bytes.
    open spec fn spec_len(&self) -> u64 {
        0
    }

    /// Every write made to the device so far has reached its backing store.
    open spec fn persisted(&self) -> bool {
        false
    }

    /// Every call on the device succeeds: it is one that never fails, such as one held in
    /// memory. The default describes nothing, and promises no success.
    open spec fn reliable(&self) -> bool {
        false
    }

    /// Read the data at the given ``offset`` in the storage device into a given buffer.
    fn read(&mut self, offset: u64, buf: &mut [u8]) -> (r: Result<(), Self::Error>)
        requires
            old(self).inv(),
            offset + old(buf)@.len() <= u64::MAX,
        ensures
            // a reliable device succeeds, and stays reliable
            old(self).reliable() ==> r is Ok && final(self).reliable(),
            final(buf)@.len() == old(buf)@.len(),
            r is Ok ==> {
                &&& final(self).inv()
                &&& final(self)@ == old(self)@
                &&& final(self).spec_len() == old(self).spec_len()
                &&& holds_at(old(self)@, offset, final(buf)@)
            },
    ;

    /// Write the data from the given buffer at the given ``offset`` in the storage device.
    ///
    /// Writes aren't guaranteed to persist to disk until `flush()` is called.
    fn write(&mut self, offset: u64, buf: &[u8]) -> (r: Result<(), Self::Error>)
        requires
            old(self).inv(),
            offset + buf@.len() <= u64::MAX,
        ensures
            // a reliable device succeeds, and stays reliable
            old(self).reliable() ==> r is Ok && final(self).reliable(),
            r is Ok ==> {
                &&& final(self).inv()
                &&& final(self)@ == overwritten(old(self)@, offset, buf@)
                &&& final(self).spec_len() == old(self).spec_len()
            },
    ;

    /// Persists writes to disk.
    fn flush(&mut self) -> (r: Result<(), Self::Error>)
        requires
            old(self).inv(),
        ensures
            // a reliable device succeeds, and stays reliable
            old(self).reliable() ==> r is Ok && final(self).reliable(),
            r is Ok ==> {
                &&& final(self).inv()
                &&& final(self)@ == old(self)@
                &&& final(self).spec_len() == old(self).spec_len()
                &&& final(self).persisted()
            },
    ;

    /// Return the total size of the storage device in bytes.
    fn len(&mut self) -> (r: Result<u64, Self::Error>)
        requires
            old(self).inv(),
        ensures
            // a reliable device succeeds, and stays reliable
            old(self).reliable() ==> r is Ok && final(self).reliable(),
            r matches Ok(n) ==> {
                &&& final(self).inv()
                &&& final(self)@ == old(self)@
                &&& final(self).spec_len() == old(self).spec_len()
                &&& n == old(self).spec_len()
            },
    ;
}

/// Turns any [`BlockDevice`] to a [`StorageDevice`] by implementing the logic to read and write
/// from/to block-size unaligned offsets and length.
///
/// An operation is split in at most 3 requests to the block device: one for the first
/// truncated block, one for every whole block in the middle, in one go, and one for the last
/// truncated block. The first and last truncated blocks go through a single temporary block
/// that resides in the StorageBlockDevice, the middle blocks through a temporary vector of
/// blocks. Writes read the truncated blocks first, so that they write back the bytes outside
/// the request unchanged: a write makes at most 5 requests.
///
/// The middle blocks cost a heap allocation of as many blocks: the caller's byte buffer is not
/// reinterpreted as blocks in place, which safe code cannot do. In exchange, the middle part is
/// always one request, whatever the alignment of the caller's buffer, and the device sees the
/// same requests as it would from an in-place transfer.
pub struct StorageBlockDevice<BD: BlockDevice> {
    /// The inner block device.
    block_device: BD,
    /// A single block used for partial read/writes.
    tmp_block: BD::Block,
}

impl<BD: BlockDevice> StorageBlockDevice<BD> {
    /// The inner block device.
    pub closed spec fn inner(&self) -> BD {
        self.block_device
    }

    /// Create a new storage block device.
    pub fn new(block_device: BD) -> (dev: Self)
        ensures
            dev.inner() == block_device,
    {
        StorageBlockDevice { block_device, tmp_block: BD::Block::default() }
    }
}

/// Copy `n` bytes of `block`, from its byte `from` on, into `buf` at position `at`.
fn copy_from_block<B: BlockData>(block: &B, from: usize, buf: &mut [u8], at: usize, n: usize)
    requires
        from + n <= B::spec_block_len(),
        at + n <= old(buf)@.len(),
    ensures
        final(buf)@ == patched(old(buf)@, at as int, block.bytes().subrange(from as int, from + n)),
{
    proof {
        block.lemma_bytes_len();
        B::lemma_block_len_positive();
    }
    let ghost src = block.bytes().subrange(from as int, from + n);
    let blen = buf.len();
    let mut t: usize = 0;
    while t < n
        invariant
            t <= n,
            from + n <= B::spec_block_len() <= usize::MAX,
            block.bytes().len() == B::spec_block_len(),
            at + n <= old(buf)@.len() == blen,
            buf@.len() == old(buf)@.len(),
            src == block.bytes().subrange(from as int, from + n),
            buf@ == patched(old(buf)@, at as int, src.subrange(0, t as int)),
        decreases n - t,
    {
        let b = block.byte(from + t);
        buf[at + t] = b;
        t = t + 1;
        assert(buf@ =~= patched(old(buf)@, at as int, src.subrange(0, t as int)));
    }
    assert(src.subrange(0, n as int) =~= src);
}

/// Copy the bytes of `blocks`, one block after the other, into `buf` at position `at`.
fn copy_from_blocks<B: BlockData>(blocks: &Vec<B>, buf: &mut [u8], at: usize)
    requires
        at + blocks@.len() * B::spec_block_len() <= old(buf)@.len(),
    ensures
        final(buf)@ == patched(old(buf)@, at as int, flatten_blocks(blocks@)),
{
    let bs = B::block_len();
    proof {
        B::lemma_block_len_positive();
    }
    let ghost flat = flatten_blocks(blocks@);
    let blen = buf.len();
    let mut j: usize = 0;
    while j < blocks.len()
        invariant
            j <= blocks@.len(),
            bs == B::spec_block_len(),
            bs > 0,
            at + blocks@.len() * bs <= old(buf)@.len() == blen,
            buf@.len() == blen,
            flat == flatten_blocks(blocks@),
            buf@ == patched(old(buf)@, at as int, flat.subrange(0, j * bs)),
        decreases blocks@.len() - j,
    {
        assert((j + 1) * bs <= blocks@.len() * bs && j * bs + bs == (j + 1) * bs) by (nonlinear_arith)
            requires
                j < blocks@.len(),
        ;
        proof {
            blocks@[j as int].lemma_bytes_len();
        }
        copy_from_block(&blocks[j], 0, buf, at + j * bs, bs);
        proof {
            let part = blocks@[j as int].bytes().subrange(0, bs as int);
            assert forall|x: int| j * bs <= x < (j + 1) * bs implies #[trigger] flat[x] == part[x - j * bs] by {
                lemma_position(x, j as int, x - j * bs, bs as int);
            }
            assert(buf@ =~= patched(old(buf)@, at as int, flat.subrange(0, (j + 1) * bs)));
        }
        j = j + 1;
    }
    assert(flat.subrange(0, j * bs) =~= flat);
}

/// Replace `n` bytes of `block`, from its byte `to` on, with those of `buf` from position `at`.
fn copy_into_block<B: BlockData>(block: &mut B, to: usize, buf: &[u8], at: usize, n: usize)
    requires
        to + n <= B::spec_block_len(),
        at + n <= buf@.len(),
    ensures
        final(block).bytes() == patched(old(block).bytes(), to as int, buf@.subrange(at as int, at + n)),
{
    let ghost src = buf@.subrange(at as int, at + n);
    proof {
        old(block).lemma_bytes_len();
        B::lemma_block_len_positive();
    }
    let blen = buf.len();
    let mut t: usize = 0;
    while t < n
        invariant
            t <= n,
            to + n <= B::spec_block_len() <= usize::MAX,
            at + n <= buf@.len() == blen,
            src == buf@.subrange(at as int, at + n),
            old(block).bytes().len() == B::spec_block_len(),
            block.bytes() == patched(old(block).bytes(), to as int, src.subrange(0, t as int)),
        decreases n - t,
    {
        block.set_byte(to + t, buf[at + t]);
        t = t + 1;
        assert(block.bytes() =~= patched(old(block).bytes(), to as int, src.subrange(0, t as int)));
    }
    assert(src.subrange(0, n as int) =~= src);
}

/// `count` blocks holding the bytes of `buf` from position `at` on, one block after the other.
fn blocks_from_bytes<B: BlockData>(template: B, buf: &[u8], at: usize, count: usize) -> (blocks: Vec<B>)
    requires
        at + count * B::spec_block_len() <= buf@.len(),
    ensures
        blocks@.len() == count,
        flatten_blocks(blocks@) == buf@.subrange(at as int, at + count * B::spec_block_len()),
{
    let bs = B::block_len();
    proof {
        B::lemma_block_len_positive();
        template.lemma_bytes_len();
    }
    let blen = buf.len();
    let mut blocks: Vec<B> = Vec::new();
    let mut j: usize = 0;
    while j < count
        invariant
            j <= count,
            blocks@.len() == j,
            bs == B::spec_block_len(),
            bs > 0,
            at + count * bs <= buf@.len() == blen,
            template.bytes().len() == bs,
            forall|i: int| 0 <= i < j ==> #[trigger] blocks@[i].bytes() == buf@.subrange(at + i * bs, at + i * bs + bs),
        decreases count - j,
    {
        assert(j * bs + bs <= count * bs) by (nonlinear_arith)
            requires
                j < count,
        ;
        let mut b = template;
        copy_into_block(&mut b, 0, buf, at + j * bs, bs);
        proof {
            assert(b.bytes() =~= buf@.subrange(at + j * bs, at + j * bs + bs));
        }
        blocks.push(b);
        j = j + 1;
    }
    proof {
        let flat = flatten_blocks(blocks@);
        let want = buf@.subrange(at as int, at + count * bs);
        assert forall|q: int| 0 <= q < count * bs implies #[trigger] flat[q] == want[q] by {
            lemma_shift(q, 0, count as int, bs as int);
            let i = q / bs as int;
            let t = q % bs as int;
            lemma_fundamental_div_mod(q, bs as int);
            assert(q == i * bs + t) by (nonlinear_arith)
                requires
                    q == bs * i + t,
            ;
            assert(0 <= i < count);
            assert(i * bs + bs <= count * bs) by (nonlinear_arith)
                requires
                    i < count,
            ;
            lemma_mod_bound(q, bs as int);
            assert(blocks@[i].bytes() == buf@.subrange(at + i * bs, at + i * bs + bs));
            assert(flat[q] == blocks@[i].bytes()[t]);
            assert(at + i * bs + t == at + q);
        }
        assert(flat =~= want);
    }
    blocks
}

impl<BD: BlockDevice> StorageBlockDevice<BD> {
    /// Reads block `blk` into `.tmp_block`, and copies its `n` bytes from byte `from` on to
    /// `buf` at position `at`.
    fn read_partial_block(&mut self, blk: u64, from: usize, buf: &mut [u8], at: usize, n: usize) -> (r: BlockResult<()>)
        requires
            old(self).inner().inv(),
            from + n <= BD::Block::spec_block_len(),
            at + n <= old(buf)@.len(),
            blk * BD::Block::spec_block_len() + from <= u64::MAX,
        ensures
            // it fails only when a call to the inner device fails
            old(self).inner().reliable() ==> r is Ok && final(self).inner().reliable(),
            final(buf)@.len() == old(buf)@.len(),
            r is Ok ==> {
                &&& final(self).inner().inv()
                &&& final(self).inner()@ == old(self).inner()@
                &&& final(self).inner().spec_count() == old(self).inner().spec_count()
                &&& final(buf)@.subrange(0, at as int) == old(buf)@.subrange(0, at as int)
                &&& holds_at(
                    byte_view(old(self).inner()@),
                    (blk * BD::Block::spec_block_len() + from) as u64,
                    final(buf)@.subrange(at as int, at + n),
                )
            },
    {
        let ghost v0 = self.block_device@;
        let ghost bs = BD::Block::spec_block_len();
        // read a whole block into our tmp block
        self.block_device.read(core::slice::from_mut(&mut self.tmp_block), BlockIndex(blk))?;
        // and copy only the desired bytes to our destination buffer
        copy_from_block(&self.tmp_block, from, buf, at, n);
        proof {
            assert(seq![self.tmp_block][0] == self.tmp_block);
            assert(v0.get(blk) == Some(self.tmp_block));
            self.tmp_block.lemma_bytes_len();
            lemma_bytes_of_held_block(v0, blk);
            lemma_holds_subrange(byte_view(v0), (blk * bs) as u64, self.tmp_block.bytes(), from as int, from + n);
            assert(buf@.subrange(at as int, at + n) =~= self.tmp_block.bytes().subrange(from as int, from + n));
            assert(buf@.subrange(0, at as int) =~= old(buf)@.subrange(0, at as int));
        }
        Ok(())
    }

    /// Reads the `count` blocks from block `first` on in one go, and copies them to `buf` at
    /// position `at`.
    fn read_whole_blocks(&mut self, first: u64, count: usize, buf: &mut [u8], at: usize) -> (r: BlockResult<()>)
        requires
            old(self).inner().inv(),
            at + count * BD::Block::spec_block_len() <= old(buf)@.len(),
            first * BD::Block::spec_block_len() <= u64::MAX,
            first + count <= u64::MAX + 1,
        ensures
            // it fails only when a call to the inner device fails
            old(self).inner().reliable() ==> r is Ok && final(self).inner().reliable(),
            final(buf)@.len() == old(buf)@.len(),
            r is Ok ==> {
                &&& final(self).inner().inv()
                &&& final(self).inner()@ == old(self).inner()@
                &&& final(self).inner().spec_count() == old(self).inner().spec_count()
                &&& final(buf)@.subrange(0, at as int) == old(buf)@.subrange(0, at as int)
                &&& holds_at(
                    byte_view(old(self).inner()@),
                    (first * BD::Block::spec_block_len()) as u64,
                    final(buf)@.subrange(at as int, at + count * BD::Block::spec_block_len()),
                )
            },
    {
        let ghost v0 = self.block_device@;
        let mut blocks: Vec<BD::Block> = Vec::new();
        while blocks.len() < count
            invariant
                blocks@.len() <= count,
            decreases count - blocks@.len(),
        {
            blocks.push(self.tmp_block);
        }
        // read everything in one go
        self.block_device.read(blocks.as_mut_slice(), BlockIndex(first))?;
        copy_from_blocks(&blocks, buf, at);
        proof {
            lemma_bytes_of_held_blocks(v0, first, blocks@);
            assert(buf@.subrange(at as int, at + count * BD::Block::spec_block_len()) =~= flatten_blocks(blocks@));
            assert(buf@.subrange(0, at as int) =~= old(buf)@.subrange(0, at as int));
        }
        Ok(())
    }

    /// Reads from the block device from an arbitrary offset to an arbitrary len buffer.
    ///
    /// 1. Read the first truncated block to our `.tmp_block`, and copy only the desired bytes to
    /// the destination buffer.
    /// 2. Read all the middle blocks in one go, and copy them to the destination buffer.
    /// 3. Read the last truncated block to our `.tmp_block`, and copy only the desired bytes to
    /// the destination buffer.
    ///
    /// Depending on how `offset` and/or `buf.len` relate to block size, we might not need the
    /// first and/or last step. This operation performs at most 3 device requests.
    fn read_internal(&mut self, offset: u64, buf: &mut [u8]) -> (r: BlockResult<()>)
        requires
            old(self).inner().inv(),
            offset + old(buf)@.len() <= u64::MAX,
        ensures
            // it fails only when a call to the inner device fails
            old(self).inner().reliable() ==> r is Ok && final(self).inner().reliable(),
            final(buf)@.len() == old(buf)@.len(),
            old(buf)@.len() == 0 ==> r is Ok,
            r is Ok ==> {
                &&& final(self).inner().inv()
                &&& final(self).inner()@ == old(self).inner()@
                &&& final(self).inner().spec_count() == old(self).inner().spec_count()
                &&& holds_at(byte_view(old(self).inner()@), offset, final(buf)@)
            },
    {
        let ghost bv = byte_view(self.block_device@);
        let bs: usize = BD::Block::block_len();
        proof {
            BD::Block::lemma_block_len_positive();
        }
        let bs64: u64 = bs as u64;
        let len: usize = buf.len();
        let end: u64 = offset + len as u64;
        // here's how we're splitting our operation
        let first_block: u64 = offset / bs64;
        let in_block: usize = (offset % bs64) as usize;
        let head_len: usize = if in_block == 0 {
            0
        } else if len < bs - in_block {
            len
        } else {
            bs - in_block
        };
        let tail_len: usize = if head_len == len {
            0
        } else {
            (end % bs64) as usize
        };
        proof {
            lemma_request_split(offset as int, len as int, bs as int);
            assert(head_len == head_part_len(offset as int, len as int, bs as int));
            assert(tail_len == tail_part_len(offset as int, len as int, bs as int));
        }
        let middle_len: usize = len - head_len - tail_len;
        let middle_block: u64 = (offset + head_len as u64) / bs64;
        let end_block: u64 = end / bs64;
        assert(buf@.subrange(0, 0) =~= Seq::<u8>::empty());

        // the first part, if any
        if head_len > 0 {
            let ghost before = buf@;
            self.read_partial_block(first_block, in_block, buf, 0, head_len)?;
            proof {
                lemma_holds_prefix_extended(bv, offset, before, buf@, 0, head_len as int);
            }
        }

        // the middle part, if any
        if middle_len > 0 {
            let ghost before = buf@;
            self.read_whole_blocks(middle_block, middle_len / bs, buf, head_len)?;
            proof {
                lemma_holds_prefix_extended(bv, offset, before, buf@, head_len as int, middle_len as int);
            }
        }

        // and finally the last part, if any
        if tail_len > 0 {
            let ghost before = buf@;
            self.read_partial_block(end_block, 0, buf, head_len + middle_len, tail_len)?;
            proof {
                lemma_holds_prefix_extended(bv, offset, before, buf@, head_len + middle_len, tail_len as int);
            }
        }
        assert(buf@.subrange(0, len as int) =~= buf@);
        Ok(())
    }

    /// Reads block `blk` into `.tmp_block`, replaces its `n` bytes from byte `to` on with those
    /// of `buf` from position `at`, and writes it back.
    fn write_partial_block(&mut self, blk: u64, to: usize, buf: &[u8], at: usize, n: usize) -> (r: BlockResult<()>)
        requires
            old(self).inner().inv(),
            to + n <= BD::Block::spec_block_len(),
            at + n <= buf@.len(),
            blk * BD::Block::spec_block_len() + to <= u64::MAX,
        ensures
            // it fails only when a call to the inner device fails
            old(self).inner().reliable() ==> r is Ok && final(self).inner().reliable(),
            r is Ok ==> {
                &&& final(self).inner().inv()
                &&& final(self).inner().spec_count() == old(self).inner().spec_count()
                &&& byte_view(final(self).inner()@) == overwritten(
                    byte_view(old(self).inner()@),
                    (blk * BD::Block::spec_block_len() + to) as u64,
                    buf@.subrange(at as int, at + n),
                )
            },
    {
        let ghost bs = BD::Block::spec_block_len();
        // first read a whole block into our tmp block
        self.block_device.read(core::slice::from_mut(&mut self.tmp_block), BlockIndex(blk))?;
        let ghost v = self.block_device@;
        let ghost read_block = self.tmp_block;
        proof {
            assert(seq![self.tmp_block][0] == self.tmp_block);
            assert(v.get(blk) == Some(self.tmp_block));
            self.tmp_block.lemma_bytes_len();
            lemma_bytes_of_held_block(v, blk);
        }
        // copy bytes from our buffer into our tmp block
        copy_into_block(&mut self.tmp_block, to, buf, at, n);
        // and write back the block to the device
        self.block_device.write(core::slice::from_ref(&self.tmp_block), BlockIndex(blk))?;
        proof {
            lemma_bytes_of_overwritten_blocks(v, blk, seq![self.tmp_block]);
            lemma_flatten_one(self.tmp_block);
            lemma_overwrite_patched(
                byte_view(v),
                (blk * bs) as u64,
                read_block.bytes(),
                to as int,
                buf@.subrange(at as int, at + n),
            );
        }
        Ok(())
    }

    /// Writes the `count` blocks that the bytes of `buf` from position `at` on make up, from
    /// block `first` on, in one go.
    fn write_whole_blocks(&mut self, first: u64, count: usize, buf: &[u8], at: usize) -> (r: BlockResult<()>)
        requires
            old(self).inner().inv(),
            at + count * BD::Block::spec_block_len() <= buf@.len(),
            first * BD::Block::spec_block_len() <= u64::MAX,
            first + count <= u64::MAX + 1,
        ensures
            // it fails only when a call to the inner device fails
            old(self).inner().reliable() ==> r is Ok && final(self).inner().reliable(),
            r is Ok ==> {
                &&& final(self).inner().inv()
                &&& final(self).inner().spec_count() == old(self).inner().spec_count()
                &&& byte_view(final(self).inner()@) == overwritten(
                    byte_view(old(self).inner()@),
                    (first * BD::Block::spec_block_len()) as u64,
                    buf@.subrange(at as int, at + count * BD::Block::spec_block_len()),
                )
            },
    {
        let ghost v = self.block_device@;
        let blocks = blocks_from_bytes(self.tmp_block, buf, at, count);
        // write everything in one go
        self.block_device.write(blocks.as_slice(), BlockIndex(first))?;
        proof {
            lemma_bytes_of_overwritten_blocks(v, first, blocks@);
        }
        Ok(())
    }

    /// Writes to the block device from an arbitrary offset and an arbitrary len buffer.
    ///
    /// 1. Read the first truncated block to our `.tmp_block`, copy only the desired bytes from
    /// the source buffer, and write back the updated block to the device.
    /// 2. Write all the middle blocks in one go.
    /// 3. Read the last truncated block to our `.tmp_block`, copy only the desired bytes from
    /// the source buffer, and write back the updated block to the device.
    ///
    /// Depending on how `offset` and/or `buf.len` relate to block size, we might not need the
    /// first and/or last step. This operation performs at most 5 device requests.
    fn write_internal(&mut self, offset: u64, buf: &[u8]) -> (r: BlockResult<()>)
        requires
            old(self).inner().inv(),
            offset + buf@.len() <= u64::MAX,
        ensures
            // it fails only when a call to the inner device fails
            old(self).inner().reliable() ==> r is Ok && final(self).inner().reliable(),
            buf@.len() == 0 ==> r is Ok,
            r is Ok ==> {
                &&& final(self).inner().inv()
                &&& byte_view(final(self).inner()@) == overwritten(byte_view(old(self).inner()@), offset, buf@)
                &&& final(self).inner().spec_count() == old(self).inner().spec_count()
            },
    {
        let ghost bv0 = byte_view(self.block_device@);
        let bs: usize = BD::Block::block_len();
        proof {
            BD::Block::lemma_block_len_positive();
        }
        let bs64: u64 = bs as u64;
        let len: usize = buf.len();
        let end: u64 = offset + len as u64;
        // here's how we're splitting our operation
        let first_block: u64 = offset / bs64;
        let in_block: usize = (offset % bs64) as usize;
        let head_len: usize = if in_block == 0 {
            0
        } else if len < bs - in_block {
            len
        } else {
            bs - in_block
        };
        let tail_len: usize = if head_len == len {
            0
        } else {
            (end % bs64) as usize
        };
        proof {
            lemma_request_split(offset as int, len as int, bs as int);
            assert(head_len == head_part_len(offset as int, len as int, bs as int));
            assert(tail_len == tail_part_len(offset as int, len as int, bs as int));
        }
        let middle_len: usize = len - head_len - tail_len;
        let middle_block: u64 = (offset + head_len as u64) / bs64;
        let end_block: u64 = end / bs64;
        let ghost s1 = buf@.subrange(0, head_len as int);
        let ghost s2 = buf@.subrange(head_len as int, head_len + middle_len);
        let ghost s3 = buf@.subrange(head_len + middle_len, len as int);

        // the first part, if any
        if head_len > 0 {
            self.write_partial_block(first_block, in_block, buf, 0, head_len)?;
        } else {
            proof {
                lemma_overwrite_nothing(bv0, offset);
                assert(s1 =~= Seq::<u8>::empty());
            }
        }
        let ghost bv1 = byte_view(self.block_device@);
        assert(bv1 == overwritten(bv0, offset, s1));

        // the middle part, if any
        if middle_len > 0 {
            self.write_whole_blocks(middle_block, middle_len / bs, buf, head_len)?;
        } else {
            proof {
                lemma_overwrite_nothing(bv1, (offset + head_len) as u64);
                assert(s2 =~= Seq::<u8>::empty());
            }
        }
        let ghost bv2 = byte_view(self.block_device@);
        assert(bv2 == overwritten(bv1, (offset + head_len) as u64, s2));

        // and finally the last part, if any
        if tail_len > 0 {
            self.write_partial_block(end_block, 0, buf, head_len + middle_len, tail_len)?;
        } else {
            proof {
                lemma_overwrite_nothing(bv2, (offset + head_len + middle_len) as u64);
                assert(s3 =~= Seq::<u8>::empty());
            }
        }
        proof {
            lemma_overwrite_concat(bv0, offset, s1, s2);
            lemma_overwrite_concat(bv0, offset, s1 + s2, s3);
            assert(s1 + s2 + s3 =~= buf@);
        }
        Ok(())
    }
}

impl<BD: BlockDevice> StorageDevice for StorageBlockDevice<BD> {
    type Error = BlockError;

    /// The bytes of the blocks of the inner device, block after block.
    open spec fn view(&self) -> Map<u64, u8> {
        byte_view(self.inner()@)
    }

    /// The inner device is in working order and its size in bytes fits a `u64`.
    open spec fn inv(&self) -> bool {
        &&& self.inner().inv()
        &&& self.inner().spec_count() * BD::Block::spec_block_len() <= u64::MAX
    }

    open spec fn spec_len(&self) -> u64 {
        (self.inner().spec_count() * BD::Block::spec_block_len()) as u64
    }

    /// The writes have reached the backing store once the inner device has persisted them.
    open spec fn persisted(&self) -> bool {
        self.inner().persisted()
    }

    /// The storage device never fails when the inner device never does.
    open spec fn reliable(&self) -> bool {
        self.inner().reliable()
    }

    /// Reads whole blocks around the requested bytes; an empty request touches no block and
    /// succeeds.
    fn read(&mut self, offset: u64, buf: &mut [u8]) -> (r: Result<(), Self::Error>)
        ensures
            old(buf)@.len() == 0 ==> r is Ok,
            // a read fails only when a call to the inner device fails, whatever its offset and
            // length
            old(self).inner().reliable() ==> r is Ok,
    {
        self.read_internal(offset, buf)
    }

    /// Writes whole blocks, reading those that the requested bytes only partly cover first; an
    /// empty request touches no block and succeeds.
    fn write(&mut self, offset: u64, buf: &[u8]) -> (r: Result<(), Self::Error>)
        ensures
            buf@.len() == 0 ==> r is Ok,
            // a write fails only when a call to the inner device fails, whatever its offset and
            // length
            old(self).inner().reliable() ==> r is Ok,
    {
        self.write_internal(offset, buf)
    }

    fn flush(&mut self) -> (r: Result<(), Self::Error>) {
        self.block_device.flush()
    }

    fn len(&mut self) -> (r: Result<u64, Self::Error>) {
        match self.block_device.count() {
            Ok(bc) => Ok(bc.0 * BD::Block::block_len() as u64),
            Err(e) => Err(e),
        }
    }
}

/// A boxed storage device is the device in the box.
impl<S: StorageDevice + ?Sized> StorageDevice for Box<S> {
    type Error = S::Error;

    open spec fn view(&self) -> Map<u64, u8> {
        (**self)@
    }

    open spec fn inv(&self) -> bool {
        (**self).inv()
    }

    open spec fn spec_len(&self) -> u64 {
        (**self).spec_len()
    }

    open spec fn persisted(&self) -> bool {
        (**self).persisted()
    }

    open spec fn reliable(&self) -> bool {
        (**self).reliable()
    }

    fn read(&mut self, offset: u64, buf: &mut [u8]) -> (r: Result<(), Self::Error>) {
        (**self).read(offset, buf)
    }

    fn write(&mut self, offset: u64, buf: &[u8]) -> (r: Result<(), Self::Error>) {
        (**self).write(offset, buf)
    }

    fn flush(&mut self) -> (r: Result<(), Self::Error>) {
        (**self).flush()
    }

    fn len(&mut self) -> (r: Result<u64, Self::Error>) {
        (**self).len()
    }
}

} // verus!
