//! A storage device representation to help filesystem development.
//! Designed to be used in filesystem drivers.
//!
//! Every device is described by an abstract view: a block device by the map from block
//! positions to the blocks it holds, a storage device by the map from byte offsets to the
//! bytes it holds. The contracts of the device traits are stated over those views.

pub mod block;
pub mod cached_block_device;
pub mod error;
mod lru_cache;
pub mod storage_device;

pub use crate::block::BlockDevice;
pub use crate::storage_device::StorageDevice;
