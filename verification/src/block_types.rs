//! The block devices of a machine: disks, their partitions, and the
//! device maps that stand on either.
//!
//! Nodes live in the arenas of a [`crate::disk_manager::DiskManager`]; what
//! refers to a node (the name index, a parent's child list, the result of a
//! query) holds a handle, which is the node's place in its arena. A handle
//! is good for the snapshot it was taken from and for no later one.

use vstd::prelude::*;

verus! {

/// The place of a disk in the arena of disks.
#[derive(Clone, Copy, Debug, PartialEq, Eq, Structural)]
pub struct DiskHandle {
    pub index: usize,
}

/// The place of a partition in the arena of partitions.
#[derive(Clone, Copy, Debug, PartialEq, Eq, Structural)]
pub struct PartitionHandle {
    pub index: usize,
}

/// The place of a device map in the arena of device maps.
#[derive(Clone, Copy, Debug, PartialEq, Eq, Structural)]
pub struct DeviceMapHandle {
    pub index: usize,
}

/// A handle to a node of any kind: what the name index holds.
#[derive(Clone, Copy, Debug, PartialEq, Eq, Structural)]
pub enum BlockDevice {
    Partition(PartitionHandle),
    Disk(DiskHandle),
    DeviceMap(DeviceMapHandle),
}

/// The partition table of a disk.
#[derive(Clone, Copy, Debug, PartialEq, Eq, Structural)]
pub enum PartitionTable {
    Mbr,
    Gpt,
}

/// The file system found on a device.
#[derive(Debug)]
pub struct FileSystem {
    pub type_: String,
    pub uuid: String,
}

pub struct FileSystemView {
    pub type_: Seq<char>,
    pub uuid: Seq<char>,
}

impl View for FileSystem {
    type V = FileSystemView;

    open spec fn view(&self) -> FileSystemView {
        FileSystemView { type_: self.type_@, uuid: self.uuid@ }
    }
}

impl Clone for FileSystem {
    fn clone(&self) -> (r: Self)
        ensures
            r@ == self@,
    {
        FileSystem { type_: self.type_.clone(), uuid: self.uuid.clone() }
    }
}

/// The view of an optional string.
pub open spec fn text_view(s: Option<String>) -> Option<Seq<char>> {
    match s {
        Some(s) => Some(s@),
        None => None,
    }
}

/// The view of an optional file system.
pub open spec fn fs_view(fs: Option<FileSystem>) -> Option<FileSystemView> {
    match fs {
        Some(fs) => Some(fs@),
        None => None,
    }
}

/// What every block device has.
pub struct Device {
    /// A device name could be `/dev/sda1`.
    pub name: String,
    /// Number of sectors.
    pub size: u64,
    pub fs: Option<FileSystem>,
    /// The device maps that stand on this device.
    pub children: Vec<DeviceMapHandle>,
}

pub struct DeviceView {
    pub name: Seq<char>,
    pub size: u64,
    pub fs: Option<FileSystemView>,
    pub children: Seq<DeviceMapHandle>,
}

impl View for Device {
    type V = DeviceView;

    open spec fn view(&self) -> DeviceView {
        DeviceView {
            name: self.name@,
            size: self.size,
            fs: fs_view(self.fs),
            children: self.children@,
        }
    }
}

/// A copy of a list of plain values.
pub(crate) fn copied<T: Copy>(list: &Vec<T>) -> (r: Vec<T>)
    ensures
        r@ == list@,
{
    let mut r: Vec<T> = Vec::new();
    let mut i: usize = 0;
    while i < list.len()
        invariant
            i <= list.len(),
            r@ == list@.take(i as int),
        decreases list.len() - i,
    {
        r.push(list[i]);
        assert(list@.take(i + 1) =~= list@.take(i as int).push(list@[i as int]));
        i += 1;
    }
    assert(list@.take(i as int) =~= list@);
    r
}

impl Clone for Device {
    fn clone(&self) -> (r: Self)
        ensures
            r@ == self@,
    {
        Device {
            name: self.name.clone(),
            size: self.size,
            fs: match &self.fs {
                Some(fs) => Some(fs.clone()),
                None => None,
            },
            children: copied(&self.children),
        }
    }
}

pub struct Disk {
    pub device: Device,
    pub sector_size: u64,
    pub model: String,
    pub serial: String,
    pub table: Option<PartitionTable>,
    /// The partitions of this disk.
    pub children: Vec<PartitionHandle>,
}

pub struct DiskView {
    pub device: DeviceView,
    pub sector_size: u64,
    pub model: Seq<char>,
    pub serial: Seq<char>,
    pub table: Option<PartitionTable>,
    pub children: Seq<PartitionHandle>,
}

impl View for Disk {
    type V = DiskView;

    open spec fn view(&self) -> DiskView {
        DiskView {
            device: self.device@,
            sector_size: self.sector_size,
            model: self.model@,
            serial: self.serial@,
            table: self.table,
            children: self.children@,
        }
    }
}

impl Clone for Disk {
    fn clone(&self) -> (r: Self)
        ensures
            r@ == self@,
    {
        Disk {
            device: self.device.clone(),
            sector_size: self.sector_size,
            model: self.model.clone(),
            serial: self.serial.clone(),
            table: self.table,
            children: copied(&self.children),
        }
    }
}

pub struct PartitionEntry {
    pub device: Device,
    /// Sectors from the start of the disk.
    pub offset: u64,
    pub uuid: String,
}

pub struct PartitionView {
    pub device: DeviceView,
    pub offset: u64,
    pub uuid: Seq<char>,
}

impl View for PartitionEntry {
    type V = PartitionView;

    open spec fn view(&self) -> PartitionView {
        PartitionView { device: self.device@, offset: self.offset, uuid: self.uuid@ }
    }
}

pub struct DeviceMap {
    pub device: Device,
    pub lv_name: Option<String>,
    /// The name under which the device mapper knows this map.
    pub name: String,
    pub vg_name: Option<String>,
}

pub struct DeviceMapView {
    pub device: DeviceView,
    pub lv_name: Option<Seq<char>>,
    pub name: Seq<char>,
    pub vg_name: Option<Seq<char>>,
}

impl View for DeviceMap {
    type V = DeviceMapView;

    open spec fn view(&self) -> DeviceMapView {
        DeviceMapView {
            device: self.device@,
            lv_name: text_view(self.lv_name),
            name: self.name@,
            vg_name: text_view(self.vg_name),
        }
    }
}

} // verus!
