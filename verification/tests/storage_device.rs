use storage_device::block::{Block, BlockCount, BlockError, BlockIndex, BlockResult};
use storage_device::storage_device::StorageBlockDevice;
use storage_device::{BlockDevice, StorageDevice};

/// Block device that when read from returns blocks filled with for every byte
/// their index in the block,
/// and when wrote to checks that for every byte it's its index in the block.
///
/// Used to debug that our reading logic for unaligned buffers is correct.
#[derive(Debug)]
struct DbgBlockDevice;

impl BlockDevice for DbgBlockDevice {
    type Block = Block;

    fn read(&mut self, blocks: &mut [Block], _index: BlockIndex) -> BlockResult<()> {
        for block in blocks.iter_mut() {
            for (index, byte) in block.contents.iter_mut().enumerate() {
                *byte = index as u8 // overflows once per block
            }
        }
        Ok(())
    }

    fn write(&mut self, blocks: &[Block], _index: BlockIndex) -> BlockResult<()> {
        for block in blocks.iter() {
            for (idx, byte) in block.contents.iter().enumerate() {
                if *byte != (idx as u8) {
                    return Err(BlockError::WriteError);
                }
            }
        }
        Ok(())
    }

    fn count(&mut self) -> BlockResult<BlockCount> {
        Ok(BlockCount(8))
    }

    fn flush(&mut self) -> BlockResult<()> {
        Ok(())
    }
}

/// Block device that when read from returns blocks filled with their block index in every byte,
/// and when wrote to checks that for every byte it's its index in the block.
///
/// Used to debug that our reading logic for unaligned buffers is correct.
#[derive(Debug)]
struct DbgIdxBlockDevice;

impl BlockDevice for DbgIdxBlockDevice {
    type Block = Block;

    fn read(&mut self, blocks: &mut [Block], index: BlockIndex) -> BlockResult<()> {
        for (i, block) in blocks.iter_mut().enumerate() {
            for byte in block.contents.iter_mut() {
                *byte = (i as u64 + index.0) as u8
            }
        }
        Ok(())
    }

    fn write(&mut self, blocks: &[Block], index: BlockIndex) -> BlockResult<()> {
        for (i, block) in blocks.iter().enumerate() {
            for byte in block.contents.iter() {
                if *byte != (i as u64 + index.0) as u8 {
                    return Err(BlockError::WriteError);
                }
            }
        }
        Ok(())
    }

    fn count(&mut self) -> BlockResult<BlockCount> {
        Ok(BlockCount(8))
    }

    fn flush(&mut self) -> BlockResult<()> {
        Ok(())
    }
}

/// A buffer of 4096 bytes.
///
/// To get a buffer that starts one byte further, just do `aligned[1..]`.
fn aligned_buf() -> Vec<u8> {
    let buf: Vec<u8> = vec![0x55; 4096];
    buf
}

#[test]
fn check_dbg_block_device_aligned() {
    let mut storage_dev = StorageBlockDevice::new(DbgBlockDevice);
    let mut aligned = aligned_buf();
    let aligned_buf = &mut aligned[0..];

    {
        StorageDevice::read(&mut storage_dev, 0, aligned_buf).expect("reading failed");

        for (index, byte) in aligned_buf.iter().enumerate() {
            assert_eq!(*byte, index as u8, "failed checking block content. Index: {:02x}, Your buffer:\n{:02x?}", index, &aligned_buf);
        }

        // writing back should also work
        StorageDevice::write(&mut storage_dev, 0, aligned_buf).expect("writing failed");
    }

    let mut storage_dev = StorageBlockDevice::new(DbgIdxBlockDevice);
    {
        StorageDevice::read(&mut storage_dev, 0, aligned_buf).expect("reading failed");

        // writing back to check
        StorageDevice::write(&mut storage_dev, 0, aligned_buf).expect("writing failed");
    }
}

#[test]
fn check_dbg_block_device_misaligned() {
    let mut storage_dev = StorageBlockDevice::new(DbgBlockDevice);
    let mut aligned_buf = aligned_buf();
    let misaligned_buf = &mut aligned_buf[1..];

    {
        StorageDevice::read(&mut storage_dev, 0, misaligned_buf).expect("reading failed");

        for (index, byte) in misaligned_buf.iter().enumerate() {
            assert_eq!(*byte, index as u8, "failed checking block content. Index: {:02x}, Your buffer:\n{:02x?}", index, &misaligned_buf);
        }

        // writing back should also work
        StorageDevice::write(&mut storage_dev, 0, misaligned_buf).expect("writing failed");
    }
    let mut storage_dev = StorageBlockDevice::new(DbgIdxBlockDevice);
    {
        StorageDevice::read(&mut storage_dev, 0, misaligned_buf).expect("reading failed");

        // writing back to check
        StorageDevice::write(&mut storage_dev, 0, misaligned_buf).expect("writing failed");
    }
}

#[test]
fn check_dbg_block_device_aligned_offset_8() {
    let mut storage_dev = StorageBlockDevice::new(DbgBlockDevice);
    let mut aligned = aligned_buf();
    let aligned_buf = &mut aligned[0..];

    {
        StorageDevice::read(&mut storage_dev, 8, aligned_buf).expect("reading failed");

        for (index, byte) in aligned_buf.iter().enumerate() {
            assert_eq!(*byte, (index + 8) as u8, "failed checking block content. Index: {:02x}, Your buffer:\n{:02x?}", index, &aligned_buf);
        }

        // writing back should also work
        StorageDevice::write(&mut storage_dev, 8, aligned_buf).expect("writing failed");
    }
    let mut storage_dev = StorageBlockDevice::new(DbgIdxBlockDevice);
    {
        StorageDevice::read(&mut storage_dev, 8, aligned_buf).expect("reading failed");

        // writing back to check
        StorageDevice::write(&mut storage_dev, 8, aligned_buf).expect("writing failed");
    }
}

#[test]
fn check_dbg_block_device_misaligned_offset_8() {
    let mut storage_dev = StorageBlockDevice::new(DbgBlockDevice);
    let mut aligned_buf = aligned_buf();
    let misaligned_buf = &mut aligned_buf[1..];

    {
        StorageDevice::read(&mut storage_dev, 8, misaligned_buf).expect("reading failed");

        for (index, byte) in misaligned_buf.iter().enumerate() {
            assert_eq!(*byte, (index + 8) as u8, "failed checking block content. Index: {:02x}, Your buffer:\n{:02x?}", index, &misaligned_buf);
        }

        // writing back should also work
        StorageDevice::write(&mut storage_dev, 8, misaligned_buf).expect("writing failed");
    }
    let mut storage_dev = StorageBlockDevice::new(DbgIdxBlockDevice);
    {
        StorageDevice::read(&mut storage_dev, 8, misaligned_buf).expect("reading failed");

        // writing back to check
        StorageDevice::write(&mut storage_dev, 8, misaligned_buf).expect("writing failed");
    }
}

#[test]
fn check_dbg_block_device_aligned_offset_7() {
    let mut storage_dev = StorageBlockDevice::new(DbgBlockDevice);
    let mut aligned = aligned_buf();
    let aligned_buf = &mut aligned[0..];

    {
        StorageDevice::read(&mut storage_dev, 7, aligned_buf).expect("reading failed");

        for (index, byte) in aligned_buf.iter().enumerate() {
            assert_eq!(*byte, (index + 7) as u8, "failed checking block content. Index: {:02x}, Your buffer:\n{:02x?}", index, &aligned_buf);
        }

        // writing back should also work
        StorageDevice::write(&mut storage_dev, 7, aligned_buf).expect("writing failed");
    }
    let mut storage_dev = StorageBlockDevice::new(DbgIdxBlockDevice);
    {
        StorageDevice::read(&mut storage_dev, 7, aligned_buf).expect("reading failed");

        // writing back to check
        StorageDevice::write(&mut storage_dev, 7, aligned_buf).expect("writing failed");
    }
}

#[test]
fn check_dbg_block_device_misaligned_offset_7() {
    let mut storage_dev = StorageBlockDevice::new(DbgBlockDevice);
    let mut aligned_buf = aligned_buf();
    let misaligned_buf = &mut aligned_buf[1..];

    {
        StorageDevice::read(&mut storage_dev, 7, misaligned_buf).expect("reading failed");

        for (index, byte) in misaligned_buf.iter().enumerate() {
            assert_eq!(*byte, (index + 7) as u8, "failed checking block content. Index: {:02x}, Your buffer:\n{:02x?}", index, &misaligned_buf);
        }

        // writing back should also work
        StorageDevice::write(&mut storage_dev, 7, misaligned_buf).expect("writing failed");
    }
    let mut storage_dev = StorageBlockDevice::new(DbgIdxBlockDevice);
    {
        StorageDevice::read(&mut storage_dev, 7, misaligned_buf).expect("reading failed");

        // writing back to check
        StorageDevice::write(&mut storage_dev, 7, misaligned_buf).expect("writing failed");
    }
}

#[test]
fn check_small_read_write() {
    let mut storage_dev = StorageBlockDevice::new(DbgBlockDevice);
    let mut buf = [0x55; 0x80];

    {
        StorageDevice::read(&mut storage_dev, 0x400, &mut buf).expect("reading failed");

        // writing back should also work
        StorageDevice::write(&mut storage_dev, 0x400, &mut buf).expect("writing failed");
    }
}
