//! Discovery and model of the block devices of a machine, and the rules by
//! which encrypted devices are locked and unlocked.

pub mod backend;
pub mod block_types;
pub mod disk_manager;
pub mod encryption;
pub mod frontend;
pub mod graph;
pub mod name_index;
pub mod os_probe;
pub mod requests;
pub mod text;
pub mod udev;

pub use crate::block_types::BlockDevice;
pub use crate::block_types::Device;
pub use crate::block_types::DeviceMap;
pub use crate::block_types::DeviceMapHandle;
pub use crate::block_types::Disk;
pub use crate::block_types::DiskHandle;
pub use crate::block_types::FileSystem;
pub use crate::block_types::PartitionEntry;
pub use crate::block_types::PartitionHandle;
pub use crate::block_types::PartitionTable;
pub use crate::disk_manager::DiskManager;
pub use crate::encryption::EncryptionError;
pub use crate::udev::parents;
pub use crate::udev::UDev;
pub use crate::udev::UDevice;
