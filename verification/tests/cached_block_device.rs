use std::cell::RefCell;
use std::rc::Rc;

use storage_device::block::{Block, BlockCount, BlockError, BlockIndex, BlockResult};
use storage_device::cached_block_device::CachedBlockDevice;
use storage_device::storage_device::StorageBlockDevice;
use storage_device::{BlockDevice, StorageDevice};

/// What a RAM device holds and what was asked of it.
struct RamState {
    blocks: Vec<Block>,
    reads: Vec<(u64, usize)>,
    writes: Vec<(u64, usize)>,
}

/// A block device in memory, whose state the test keeps a handle on.
#[derive(Clone)]
struct RamDevice(Rc<RefCell<RamState>>);

impl RamDevice {
    fn new(count: usize) -> RamDevice {
        RamDevice(Rc::new(RefCell::new(RamState { blocks: vec![Block::new(); count], reads: vec![], writes: vec![] })))
    }
    fn block(&self, i: usize) -> Block {
        self.0.borrow().blocks[i]
    }
    fn writes(&self) -> Vec<(u64, usize)> {
        self.0.borrow().writes.clone()
    }
    fn reads(&self) -> Vec<(u64, usize)> {
        self.0.borrow().reads.clone()
    }
}

impl BlockDevice for RamDevice {
    type Block = Block;

    fn read(&mut self, blocks: &mut [Block], index: BlockIndex) -> BlockResult<()> {
        let mut state = self.0.borrow_mut();
        state.reads.push((index.0, blocks.len()));
        if index.0 as usize + blocks.len() > state.blocks.len() {
            return Err(BlockError::ReadError);
        }
        for (i, b) in blocks.iter_mut().enumerate() {
            *b = state.blocks[index.0 as usize + i];
        }
        Ok(())
    }

    fn write(&mut self, blocks: &[Block], index: BlockIndex) -> BlockResult<()> {
        let mut state = self.0.borrow_mut();
        state.writes.push((index.0, blocks.len()));
        if index.0 as usize + blocks.len() > state.blocks.len() {
            return Err(BlockError::WriteError);
        }
        for (i, b) in blocks.iter().enumerate() {
            state.blocks[index.0 as usize + i] = *b;
        }
        Ok(())
    }

    fn count(&mut self) -> BlockResult<BlockCount> {
        Ok(BlockCount(self.0.borrow().blocks.len() as u64))
    }

    fn flush(&mut self) -> BlockResult<()> {
        Ok(())
    }
}

fn filled(byte: u8) -> Block {
    Block { contents: [byte; 512] }
}

#[test]
fn cached_read_gives_device_blocks() {
    let ram = RamDevice::new(8);
    ram.0.borrow_mut().blocks[3] = filled(3);
    ram.0.borrow_mut().blocks[4] = filled(4);
    let mut dev = CachedBlockDevice::new(ram.clone(), 4);
    let mut out = [Block::new(); 2];
    dev.read(&mut out, BlockIndex(3)).expect("reading failed");
    assert_eq!(out[0].contents, [3; 512]);
    assert_eq!(out[1].contents, [4; 512]);
    assert_eq!(ram.reads(), vec![(3, 2)]);

    // a second read is served from the cache
    let mut again = [Block::new(); 2];
    dev.read(&mut again, BlockIndex(3)).expect("reading failed");
    assert_eq!(again[1].contents, [4; 512]);
    assert_eq!(ram.reads(), vec![(3, 2)]);
}

#[test]
fn cached_read_after_write() {
    let ram = RamDevice::new(8);
    let mut dev = CachedBlockDevice::new(ram.clone(), 4);
    dev.write(&[filled(7), filled(8)], BlockIndex(1)).expect("writing failed");
    // the write stays in the cache
    assert!(ram.writes().is_empty());
    assert_eq!(ram.block(1).contents, [0; 512]);

    let mut out = [Block::new(); 2];
    dev.read(&mut out, BlockIndex(1)).expect("reading failed");
    assert_eq!(out[0].contents, [7; 512]);
    assert_eq!(out[1].contents, [8; 512]);
    assert!(ram.reads().is_empty());
}

#[test]
fn cached_flush_writes_dirty_blocks() {
    let ram = RamDevice::new(8);
    let mut dev = CachedBlockDevice::new(ram.clone(), 4);
    dev.write(&[filled(7)], BlockIndex(2)).expect("writing failed");
    dev.write(&[filled(9)], BlockIndex(5)).expect("writing failed");
    dev.flush().expect("flushing failed");
    assert_eq!(ram.block(2).contents, [7; 512]);
    assert_eq!(ram.block(5).contents, [9; 512]);
    assert_eq!(ram.writes().len(), 2);

    // the blocks are clean now: a second flush writes nothing
    dev.flush().expect("flushing failed");
    assert_eq!(ram.writes().len(), 2);
}

#[test]
fn cached_evicts_least_recently_used() {
    let ram = RamDevice::new(8);
    let mut dev = CachedBlockDevice::new(ram.clone(), 2);
    dev.write(&[filled(1)], BlockIndex(1)).expect("writing failed");
    dev.write(&[filled(2)], BlockIndex(2)).expect("writing failed");
    // block 1 becomes the most recently used
    let mut out = [Block::new(); 1];
    dev.read(&mut out, BlockIndex(1)).expect("reading failed");
    assert_eq!(out[0].contents, [1; 512]);
    // caching block 3 evicts block 2, which is dirty and goes to the device
    dev.write(&[filled(3)], BlockIndex(3)).expect("writing failed");
    assert_eq!(ram.writes(), vec![(2, 1)]);
    assert_eq!(ram.block(2).contents, [2; 512]);
    assert_eq!(ram.block(1).contents, [0; 512]);
}

#[test]
fn cached_big_write_goes_through() {
    let ram = RamDevice::new(8);
    let mut dev = CachedBlockDevice::new(ram.clone(), 2);
    dev.write(&[filled(1), filled(2), filled(3)], BlockIndex(4)).expect("writing failed");
    assert_eq!(ram.writes(), vec![(4, 3)]);
    assert_eq!(ram.block(6).contents, [3; 512]);
    // the first blocks of the write stay cached
    let mut out = [Block::new(); 2];
    dev.read(&mut out, BlockIndex(4)).expect("reading failed");
    assert_eq!(out[0].contents, [1; 512]);
    assert_eq!(out[1].contents, [2; 512]);
    assert!(ram.reads().is_empty());
}

#[test]
fn cached_big_write_keeps_dirty_blocks_outside_it() {
    let ram = RamDevice::new(20);
    let mut dev = CachedBlockDevice::new(ram.clone(), 2);
    dev.write(&[filled(5)], BlockIndex(5)).expect("writing failed");
    // a write of 10 blocks at 7 covers 7..17, not 5: block 5 must not be lost
    let big = [filled(0xaa); 10];
    dev.write(&big, BlockIndex(7)).expect("writing failed");
    let mut out = [Block::new(); 1];
    dev.read(&mut out, BlockIndex(5)).expect("reading failed");
    assert_eq!(out[0].contents, [5; 512]);
    assert_eq!(ram.block(5).contents, [5; 512]);
}

#[test]
fn cached_read_sees_block_evicted_during_the_read() {
    let ram = RamDevice::new(20);
    let mut dev = CachedBlockDevice::new(ram.clone(), 2);
    // block 1 is dirty in the cache, then block 9 is cached after it
    dev.write(&[filled(1)], BlockIndex(1)).expect("writing failed");
    let mut one = [Block::new(); 1];
    dev.read(&mut one, BlockIndex(9)).expect("reading failed");
    // reading blocks 0 and 1 caches block 0, which evicts block 1 before it is served
    let mut out = [Block::new(); 2];
    dev.read(&mut out, BlockIndex(0)).expect("reading failed");
    assert_eq!(out[0].contents, [0; 512]);
    assert_eq!(out[1].contents, [1; 512]);
}

#[test]
fn cached_count_is_device_count() {
    let ram = RamDevice::new(8);
    let mut dev = CachedBlockDevice::new(ram, 2);
    assert_eq!(dev.count().expect("count failed").0, 8);
}

#[test]
fn cached_read_error_propagates() {
    let ram = RamDevice::new(4);
    let mut dev = CachedBlockDevice::new(ram, 2);
    let mut out = [Block::new(); 2];
    assert!(matches!(dev.read(&mut out, BlockIndex(3)), Err(BlockError::ReadError)));
}

#[test]
fn cached_write_error_on_eviction() {
    let ram = RamDevice::new(4);
    let mut dev = CachedBlockDevice::new(ram, 2);
    // the cache accepts blocks past the end of the device
    dev.write(&[filled(1)], BlockIndex(10)).expect("writing failed");
    dev.write(&[filled(1)], BlockIndex(11)).expect("writing failed");
    // evicting block 10 to the device fails
    assert!(matches!(dev.write(&[filled(2)], BlockIndex(0)), Err(BlockError::WriteError)));
}

#[test]
fn storage_over_cached_device() {
    let ram = RamDevice::new(8);
    let mut dev = StorageBlockDevice::new(CachedBlockDevice::new(ram.clone(), 3));
    let data: Vec<u8> = (0..1000u32).map(|i| (i % 251) as u8).collect();
    StorageDevice::write(&mut dev, 300, &data).expect("writing failed");
    let mut out = vec![0u8; 1000];
    StorageDevice::read(&mut dev, 300, &mut out).expect("reading failed");
    assert_eq!(out, data);
    // bytes around the write are untouched
    let mut around = [0xffu8; 300];
    StorageDevice::read(&mut dev, 0, &mut around).expect("reading failed");
    assert_eq!(around, [0u8; 300]);
    assert_eq!(StorageDevice::len(&mut dev).expect("len failed"), 8 * 512);
}

#[test]
fn cached_flush_keeps_lru_order() {
    let ram = RamDevice::new(8);
    let mut dev = CachedBlockDevice::new(ram.clone(), 2);
    dev.write(&[filled(1)], BlockIndex(1)).expect("writing failed");
    dev.write(&[filled(2)], BlockIndex(2)).expect("writing failed");
    dev.flush().expect("flushing failed");
    // block 1 is still the least recently used: caching block 3 evicts it, not block 2
    dev.write(&[filled(3)], BlockIndex(3)).expect("writing failed");
    let mut out = [Block::new(); 1];
    dev.read(&mut out, BlockIndex(2)).expect("reading failed");
    assert_eq!(out[0].contents, [2; 512]);
    assert!(ram.reads().is_empty());
    dev.read(&mut out, BlockIndex(1)).expect("reading failed");
    assert_eq!(out[0].contents, [1; 512]);
    assert_eq!(ram.reads(), vec![(1, 1)]);
}

/// A block device whose size cannot be found.
struct NoSizeDevice;

impl BlockDevice for NoSizeDevice {
    type Block = Block;

    fn read(&mut self, _blocks: &mut [Block], _index: BlockIndex) -> BlockResult<()> {
        Ok(())
    }

    fn write(&mut self, _blocks: &[Block], _index: BlockIndex) -> BlockResult<()> {
        Ok(())
    }

    fn count(&mut self) -> BlockResult<BlockCount> {
        Err(BlockError::Unknown)
    }

    fn flush(&mut self) -> BlockResult<()> {
        Ok(())
    }
}

#[test]
fn storage_len_error_propagates() {
    let mut dev = StorageBlockDevice::new(NoSizeDevice);
    assert!(matches!(StorageDevice::len(&mut dev), Err(BlockError::Unknown)));
    let mut cached = CachedBlockDevice::new(NoSizeDevice, 2);
    assert!(matches!(cached.count(), Err(BlockError::Unknown)));
}

#[test]
fn storage_read_error_propagates() {
    let ram = RamDevice::new(2);
    let mut dev = StorageBlockDevice::new(ram);
    let mut buf = [0u8; 100];
    assert!(matches!(StorageDevice::read(&mut dev, 1000, &mut buf), Err(BlockError::ReadError)));
    // an empty request touches no block
    let mut empty = [0u8; 0];
    StorageDevice::read(&mut dev, 1000, &mut empty).expect("reading failed");
    StorageDevice::write(&mut dev, 1000, &empty).expect("writing failed");
}

#[test]
fn storage_unaligned_write_keeps_neighbours() {
    let ram = RamDevice::new(4);
    ram.0.borrow_mut().blocks[0] = filled(0x11);
    ram.0.borrow_mut().blocks[1] = filled(0x22);
    let mut dev = StorageBlockDevice::new(ram.clone());
    StorageDevice::write(&mut dev, 510, &[1, 2, 3, 4]).expect("writing failed");
    let b0 = ram.block(0).contents;
    let b1 = ram.block(1).contents;
    assert_eq!(&b0[508..512], &[0x11, 0x11, 1, 2]);
    assert_eq!(&b1[0..4], &[3, 4, 0x22, 0x22]);
    // the first block was read then written, then the second one
    assert_eq!(ram.reads(), vec![(0, 1), (1, 1)]);
    assert_eq!(ram.writes(), vec![(0, 1), (1, 1)]);
}

#[test]
fn storage_aligned_requests_in_one_go() {
    let ram = RamDevice::new(8);
    let mut dev = StorageBlockDevice::new(ram.clone());
    let data = vec![9u8; 3 * 512];
    StorageDevice::write(&mut dev, 1024, &data).expect("writing failed");
    assert_eq!(ram.writes(), vec![(2, 3)]);
    assert!(ram.reads().is_empty());
    let mut out = vec![0u8; 3 * 512];
    StorageDevice::read(&mut dev, 1024, &mut out).expect("reading failed");
    assert_eq!(out, data);
    assert_eq!(ram.reads(), vec![(2, 3)]);
}

#[test]
fn boxed_storage_device() {
    let ram = RamDevice::new(4);
    let mut dev: Box<StorageBlockDevice<RamDevice>> = Box::new(StorageBlockDevice::new(ram));
    StorageDevice::write(&mut dev, 5, &[7, 8]).expect("writing failed");
    let mut out = [0u8; 2];
    StorageDevice::read(&mut dev, 5, &mut out).expect("reading failed");
    assert_eq!(out, [7, 8]);
    assert_eq!(StorageDevice::len(&mut dev).expect("len failed"), 2048);
    StorageDevice::flush(&mut dev).expect("flushing failed");
}

#[test]
fn cached_write_to_cached_positions_on_full_cache_evicts_nothing() {
    let ram = RamDevice::new(8);
    let mut dev = CachedBlockDevice::new(ram.clone(), 3);
    // fill the cache with three dirty blocks
    dev.write(&[filled(1), filled(2)], BlockIndex(0)).expect("writing failed");
    dev.write(&[filled(3)], BlockIndex(2)).expect("writing failed");
    // rewriting cached positions only updates them
    dev.write(&[filled(4), filled(5)], BlockIndex(0)).expect("writing failed");
    assert!(ram.writes().is_empty());
    let mut out = [Block::new(); 3];
    dev.read(&mut out, BlockIndex(0)).expect("reading failed");
    assert_eq!(out[0].contents, [4; 512]);
    assert_eq!(out[1].contents, [5; 512]);
    assert_eq!(out[2].contents, [3; 512]);
    assert!(ram.reads().is_empty());
    assert!(ram.writes().is_empty());
}

#[test]
fn cached_one_block_write_on_full_clean_cache_evicts_lru_silently() {
    let ram = RamDevice::new(8);
    ram.0.borrow_mut().blocks[0] = filled(10);
    let mut dev = CachedBlockDevice::new(ram.clone(), 2);
    let mut out = [Block::new(); 2];
    // positions 0 and 1 are cached clean; 0 is the least recently used
    dev.read(&mut out, BlockIndex(0)).expect("reading failed");
    dev.write(&[filled(6)], BlockIndex(5)).expect("writing failed");
    // position 0 was clean: evicting it needed no device write
    assert!(ram.writes().is_empty());
    // position 0 is no longer cached: reading it goes to the device
    let mut one = [Block::new(); 1];
    dev.read(&mut one, BlockIndex(0)).expect("reading failed");
    assert_eq!(one[0].contents, [10; 512]);
    assert_eq!(ram.reads(), vec![(0, 2), (0, 1)]);
}

#[test]
fn cached_one_block_write_on_full_dirty_cache_writes_lru_back() {
    let ram = RamDevice::new(8);
    let mut dev = CachedBlockDevice::new(ram.clone(), 2);
    dev.write(&[filled(1)], BlockIndex(0)).expect("writing failed");
    dev.write(&[filled(2)], BlockIndex(1)).expect("writing failed");
    dev.write(&[filled(3)], BlockIndex(2)).expect("writing failed");
    // the least recently used block, position 0, was dirty: it went to the device
    assert_eq!(ram.writes(), vec![(0, 1)]);
    assert_eq!(ram.block(0).contents, [1; 512]);
}

#[test]
fn cached_count_leaves_cache_alone() {
    let ram = RamDevice::new(8);
    let mut dev = CachedBlockDevice::new(ram.clone(), 2);
    dev.write(&[filled(1)], BlockIndex(4)).expect("writing failed");
    assert_eq!(dev.count().expect("count failed").0, 8);
    let mut one = [Block::new(); 1];
    dev.read(&mut one, BlockIndex(4)).expect("reading failed");
    assert_eq!(one[0].contents, [1; 512]);
    assert!(ram.reads().is_empty());
    assert!(ram.writes().is_empty());
}

#[test]
fn cached_second_flush_makes_no_device_call() {
    let ram = RamDevice::new(8);
    let mut dev = CachedBlockDevice::new(ram.clone(), 4);
    dev.write(&[filled(1)], BlockIndex(3)).expect("writing failed");
    dev.flush().expect("flushing failed");
    assert_eq!(ram.writes(), vec![(3, 1)]);
    dev.flush().expect("flushing failed");
    assert_eq!(ram.writes(), vec![(3, 1)]);
}

#[test]
fn cached_read_caches_clean_and_writes_back_evicted_dirty_blocks() {
    let ram = RamDevice::new(8);
    ram.0.borrow_mut().blocks[5] = filled(5);
    let mut dev = CachedBlockDevice::new(ram.clone(), 1);
    dev.write(&[filled(2)], BlockIndex(2)).expect("writing failed");
    let mut one = [Block::new(); 1];
    // reading position 5 evicts the dirty position 2, which goes to the device
    dev.read(&mut one, BlockIndex(5)).expect("reading failed");
    assert_eq!(one[0].contents, [5; 512]);
    assert_eq!(ram.writes(), vec![(2, 1)]);
    assert_eq!(ram.block(2).contents, [2; 512]);
    // the block read is cached clean: flushing writes nothing
    dev.flush().expect("flushing failed");
    assert_eq!(ram.writes(), vec![(2, 1)]);
}
