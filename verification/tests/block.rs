use storage_device::block::{Block, BlockCount, BlockError, BlockIndex};
use storage_device::error::{BlockDeviceError, IoError, IoOperation};

#[test]
fn new_block_is_zeroed() {
    let block = Block::new();
    assert_eq!(block.contents, [0u8; 512]);
    assert_eq!(Block::default().contents, [0u8; 512]);
    assert_eq!(Block::LEN, 512);
    assert_eq!(Block::LEN_U64, 512);
}

#[test]
fn block_contents() {
    let mut block = Block::new();
    block.contents[3] = 7;
    let contents = block.as_contents();
    assert_eq!(contents[3], 7);
    assert_eq!(contents[4], 0);
}

#[test]
fn block_positions_in_bytes() {
    assert_eq!(BlockIndex(2).into_offset(), 1024);
    assert_eq!(BlockIndex(0).into_offset(), 0);
    assert_eq!(BlockCount(3).into_size(), 1536);
    assert_eq!(BlockCount(3).into_bytes_count(), 1536);
}

#[test]
fn block_index_order() {
    assert!(BlockIndex(1) < BlockIndex(2));
    assert_eq!(BlockIndex(5), BlockIndex(5));
}

#[test]
fn error_values() {
    let e = BlockDeviceError { operation: IoOperation::Read, start_index: BlockIndex(4), block_count: BlockCount(2) };
    let io = IoError { operation: IoOperation::Write, offset: 2048, len: 10, block_device_error: Some(e) };
    assert_eq!(io.block_device_error.map(|e| e.start_index), Some(BlockIndex(4)));
    assert_eq!(io.operation, IoOperation::Write);
    assert_ne!(BlockError::ReadError, BlockError::WriteError);
    assert_ne!(BlockError::Unknown, BlockError::WriteError);
}

#[test]
fn block_derefs_to_its_bytes() {
    let mut block = Block::new();
    block.contents[3] = 7;
    let bytes: &[u8] = &block;
    assert_eq!(bytes.len(), 512);
    assert_eq!(bytes[3], 7);
    assert_eq!(bytes.iter().filter(|b| **b != 0).count(), 1);
}
