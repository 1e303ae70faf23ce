//! Blocks, block positions and counts, and the [`BlockDevice`] trait.

use vstd::prelude::*;

verus! {

/// Represent a block error.
#[derive(Debug, Clone, Copy, PartialEq, Eq, Structural)]
pub enum BlockError {
    /// Read error.
    ReadError,
    /// Write error.
    WriteError,
    /// Unknown error.
    Unknown,
}

/// Represent a block result.
pub type BlockResult<T> = core::result::Result<T, BlockError>;

/// Represent a certain amount of data from a block device.
#[derive(Clone, Copy)]
pub struct Block {
    /// The actual storage of the block.
    pub contents: [u8; 512],
}

/// Represent the position of a block on a block device.
#[derive(Debug, Copy, Clone, Hash, PartialOrd, PartialEq, Ord, Eq, Structural)]
pub struct BlockIndex(pub u64);

/// Represent the count of blocks that a block device hold.
#[derive(Debug, Copy, Clone)]
pub struct BlockCount(pub u64);

/// The bytes of a block holding only zeroes.
pub open spec fn zero_bytes(len: nat) -> Seq<u8> {
    Seq::new(len, |_i: int| 0u8)
}

impl Block {
    /// The size of a block in bytes.
    pub const LEN: usize = 512;

    /// The size of a block in bytes as a 64 bits unsigned value.
    pub const LEN_U64: u64 = 512;

    /// Create a new block instance, filled with zeroes.
    pub fn new() -> (block: Block)
        ensures
            block.contents@ == zero_bytes(512),
    {
        Block::default()
    }

    /// Return the content of the block.
    pub fn as_contents(&self) -> (contents: [u8; 512])
        ensures
            contents@ == self.contents@,
    {
        self.contents
    }
}

impl Default for Block {
    fn default() -> (block: Self)
        ensures
            block.contents@ == zero_bytes(512),
    {
        let block = Block { contents: [0u8; 512] };
        assert(block.contents@ =~= zero_bytes(512));
        block
    }
}

impl core::ops::Deref for Block {
    type Target = [u8];

    /// The bytes of the block.
    fn deref(&self) -> (bytes: &[u8])
        ensures
            bytes@ == self.contents@,
    {
        self.contents.as_slice()
    }
}

impl BlockCount {
    /// Get the block count as a raw bytes count.
    pub fn into_bytes_count(self) -> (bytes: u64)
        requires
            self.0 * 512 <= u64::MAX,
        ensures
            bytes == self.0 * 512,
    {
        self.0 * Block::LEN_U64
    }

    /// Convert the block count into a size in bytes.
    pub fn into_size(self) -> (size: u64)
        requires
            self.0 * 512 <= u64::MAX,
        ensures
            size == self.0 * 512,
    {
        self.0 * Block::LEN_U64
    }
}

impl BlockIndex {
    /// Convert the block index into an offset in bytes.
    pub fn into_offset(self) -> (offset: u64)
        requires
            self.0 * 512 <= u64::MAX,
        ensures
            offset == self.0 * 512,
    {
        self.0 * Block::LEN_U64
    }
}


/// The contents that a block device holds, block after block.
///
/// A block is a fixed number of bytes. The user is free (and encouraged) to define their own
/// block type, as long as it exposes its bytes through this trait.
pub trait BlockData: Copy + Default + Sized {
    /// Number of bytes in every block of this type.
    spec fn spec_block_len() -> nat;

    /// The bytes of this block.
    spec fn bytes(&self) -> Seq<u8>;

    /// Blocks of this type hold at least one byte, and their size fits a `usize`.
    proof fn lemma_block_len_positive()
        ensures
            0 < Self::spec_block_len() <= usize::MAX,
    ;

    /// Every block of this type holds exactly `spec_block_len()` bytes.
    proof fn lemma_bytes_len(&self)
        ensures
            self.bytes().len() == Self::spec_block_len(),
    ;

    /// Number of bytes in every block of this type.
    fn block_len() -> (len: usize)
        ensures
            len == Self::spec_block_len(),
    ;

    /// Byte `i` of this block.
    fn byte(&self, i: usize) -> (b: u8)
        requires
            i < Self::spec_block_len(),
        ensures
            b == self.bytes()[i as int],
    ;

    /// Replace byte `i` of this block with `b`.
    fn set_byte(&mut self, i: usize, b: u8)
        requires
            i < Self::spec_block_len(),
        ensures
            final(self).bytes() == old(self).bytes().update(i as int, b),
    ;
}

impl BlockData for Block {
    open spec fn spec_block_len() -> nat {
        512
    }

    open spec fn bytes(&self) -> Seq<u8> {
        self.contents@
    }

    proof fn lemma_block_len_positive() {
    }

    proof fn lemma_bytes_len(&self) {
    }

    fn block_len() -> (len: usize) {
        Block::LEN
    }

    fn byte(&self, i: usize) -> (b: u8) {
        self.contents[i]
    }

    fn set_byte(&mut self, i: usize, b: u8) {
        self.contents[i] = b;
    }
}

/// A device view after `items` were written from position `start` on: those positions hold
/// the new items, every other position is as before.
pub open spec fn overwritten<T>(view: Map<u64, T>, start: u64, items: Seq<T>) -> Map<u64, T> {
    Map::new(
        |k: u64| view.contains_key(k) || (start <= k && k < start + items.len()),
        |k: u64| if start <= k && k < start + items.len() { items[k - start] } else { view[k] },
    )
}

/// The device view holds `items` from position `start` on (as far as positions go).
pub open spec fn holds_at<T>(view: Map<u64, T>, start: u64, items: Seq<T>) -> bool {
    forall|i: int|
        #![trigger items[i]]
        0 <= i < items.len() && start + i <= u64::MAX ==> view.get((start + i) as u64) == Some(
            items[i],
        )
}

/// A read of the positions just written gives back what was written.
pub proof fn lemma_read_after_write<T>(view: Map<u64, T>, start: u64, items: Seq<T>)
    ensures
        holds_at(overwritten(view, start, items), start, items),
{
    assert forall|i: int|
        #![trigger items[i]]
        0 <= i < items.len() && start + i <= u64::MAX implies overwritten(view, start, items).get(
        (start + i) as u64) == Some(items[i]) by {
    }
}

/// A write leaves every position outside of it as it was.
pub proof fn lemma_write_keeps_other_positions<T>(view: Map<u64, T>, start: u64, items: Seq<T>, k: u64)
    requires
        !(start <= k < start + items.len()),
    ensures
        overwritten(view, start, items).get(k) == view.get(k),
{
}

/// Represent a device holding blocks.
///
/// This trait is agnostic over the size of block that is being held: the `Block` type says how
/// many bytes a block has.
///
/// A device is described by its view, the map from block positions to the blocks it holds.
/// A successful read hands out the blocks of the view, a successful write overwrites them.
/// After a failed operation nothing is promised of the device.
pub trait BlockDevice {
    /// Represents a Block that this BlockDevice can read or write to.
    type Block: BlockData;

    /// The blocks the device holds, by position.
    ///
    /// The defaults of this and the next spec functions describe nothing: a device that keeps
    /// them is not in working order (`inv` is false), so no contract of this trait is in force
    /// for it. A device describes itself by giving all five.
    open spec fn view(&self) -> Map<u64, Self::Block> {
        Map::empty()
    }

    /// The device is in working order, so that its operations keep their contracts.
    open spec fn inv(&self) -> bool {
        false
    }

    /// The amount of blocks the device reports.
    open spec fn spec_count(&self) -> u64 {
        0
    }

    /// Every write made to the device so far has reached its backing store.
    open spec fn persisted(&self) -> bool {
        false
    }

    /// Every call on the device succeeds: it is one that never fails, such as one held in
    /// memory. The default describes nothing, and promises no success.
    open spec fn reliable(&self) -> bool {
        false
    }

    /// Read blocks from the block device starting at the given ``index``.
    fn read(&mut self, blocks: &mut [Self::Block], index: BlockIndex) -> (r: BlockResult<()>)
        requires
            old(self).inv(),
            index.0 + old(blocks)@.len() <= u64::MAX + 1,
        ensures
            // a reliable device succeeds, and stays reliable
            old(self).reliable() ==> r is Ok && final(self).reliable(),
            final(blocks)@.len() == old(blocks)@.len(),
            r is Ok ==> {
                &&& final(self).inv()
                &&& final(self)@ == old(self)@
                &&& final(self).spec_count() == old(self).spec_count()
                &&& holds_at(old(self)@, index.0, final(blocks)@)
            },
    ;

    /// Write blocks to the block device starting at the given ``index``.
    fn write(&mut self, blocks: &[Self::Block], index: BlockIndex) -> (r: BlockResult<()>)
        requires
            old(self).inv(),
            index.0 + blocks@.len() <= u64::MAX + 1,
        ensures
            // a reliable device succeeds, and stays reliable
            old(self).reliable() ==> r is Ok && final(self).reliable(),
            r is Ok ==> {
                &&& final(self).inv()
                &&& final(self)@ == overwritten(old(self)@, index.0, blocks@)
                &&& final(self).spec_count() == old(self).spec_count()
            },
    ;

    /// Return the amount of blocks hold by the block device.
    fn count(&mut self) -> (r: BlockResult<BlockCount>)
        requires
            old(self).inv(),
        ensures
            // a reliable device succeeds, and stays reliable
            old(self).reliable() ==> r is Ok && final(self).reliable(),
            r matches Ok(c) ==> {
                &&& final(self).inv()
                &&& final(self)@ == old(self)@
                &&& final(self).spec_count() == old(self).spec_count()
                &&& c.0 == old(self).spec_count()
            },
    ;

    /// Persists writes to the device.
    fn flush(&mut self) -> (r: BlockResult<()>)
        requires
            old(self).inv(),
        ensures
            // a reliable device succeeds, and stays reliable
            old(self).reliable() ==> r is Ok && final(self).reliable(),
            r is Ok ==> {
                &&& final(self).inv()
                &&& final(self)@ == old(self)@
                &&& final(self).spec_count() == old(self).spec_count()
                &&& final(self).persisted()
            },
    ;
}

} // verus!
