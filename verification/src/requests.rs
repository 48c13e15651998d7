//! What the service is asked for, and what it answers with.

use vstd::prelude::*;

verus! {

/// A device, by the path of its node.
#[derive(Debug)]
pub struct Device {
    pub path: String,
}

/// A LUKS device that is locked, with the UUID of its container.
#[derive(Debug)]
pub struct EncryptedDevice {
    pub device: Device,
    pub uuid: String,
}

/// An operating system that was found on a device.
#[derive(Debug)]
pub struct OsInfo {
    pub device: Device,
    /// The kind of the operating system.
    pub identifier: String,
    pub name: String,
    pub version: String,
}

/// The five things that the service can be asked to do.
#[derive(Debug)]
pub enum Request {
    Decrypt { device: String, key: String },
    DiskRescan,
    EncryptedDevices,
    OsEntries,
    OsSearch,
}

} // verus!
