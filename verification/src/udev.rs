//! The topology builder: from the flat list of device records that a scan
//! of the block subsystem yields to the nodes of a snapshot and the edges
//! between them.
//!
//! A record holds as plain values what the device database and the device
//! tree say of one device. Each record is judged by itself: one that lacks
//! what its kind needs, or whose ancestor is not in the snapshot when its
//! turn comes, adds nothing, and the pass goes on.

use crate::block_types::fs_view;
use crate::block_types::text_view;
use crate::block_types::Device;
use crate::block_types::DeviceMap;
use crate::block_types::DeviceMapView;
use crate::block_types::DeviceView;
use crate::block_types::Disk;
use crate::block_types::DiskView;
use crate::block_types::FileSystem;
use crate::block_types::FileSystemView;
use crate::block_types::PartitionEntry;
use crate::block_types::PartitionTable;
use crate::block_types::PartitionView;
use crate::disk_manager::DiskManager;
use crate::graph::lemma_grew_transitive;
use crate::graph::lemma_insert_disk_linked;
use crate::graph::lemma_insert_disk_wf;
use crate::graph::lemma_insert_grew;
use crate::graph::lemma_insert_map_linked;
use crate::graph::lemma_insert_map_wf;
use crate::graph::lemma_insert_partition_linked;
use crate::graph::lemma_insert_partition_wf;
use crate::graph::Graph;
use crate::text::contains;
use crate::text::decimal_u64;
use crate::text::is_infix;
use crate::text::parse_u64;
use crate::text::contains_segment;
use crate::text::has_segment;
use crate::text::str_eq;
use crate::text::texts_view;
use vstd::prelude::*;

verus! {

/// A list of keys with their values, as the contracts see it.
pub type Entries = Seq<(Seq<char>, Seq<char>)>;

/// The value of the first entry with the key `key`.
pub open spec fn lookup(entries: Entries, key: Seq<char>) -> Option<Seq<char>>
    decreases entries.len(),
{
    if entries.len() == 0 {
        None
    } else if entries[0].0 == key {
        Some(entries[0].1)
    } else {
        lookup(entries.drop_first(), key)
    }
}

/// The view of a list of keys with their values.
pub open spec fn entries_view(entries: Seq<(String, String)>) -> Entries {
    Seq::new(entries.len(), |i: int| (entries[i].0@, entries[i].1@))
}

/// What a scan says of one device. A value that is no text is left out.
pub struct UDevice {
    /// The kind of the device: `disk`, `partition`, or something else.
    pub devtype: Option<String>,
    /// Where the device stands in the device tree.
    pub syspath: Option<String>,
    /// The properties that the device database holds for it.
    pub properties: Vec<(String, String)>,
    /// The attributes that the device tree holds for it, by their paths
    /// below `syspath`.
    pub attributes: Vec<(String, String)>,
    /// The devices that this one is built from: where each entry of
    /// `slaves` below `syspath` leads, in the order of the directory.
    pub slaves: Vec<String>,
    /// Whether the directory above `syspath` holds a request queue.
    pub parent_has_queue: bool,
}

pub struct UDeviceView {
    pub devtype: Option<Seq<char>>,
    pub syspath: Option<Seq<char>>,
    pub properties: Entries,
    pub attributes: Entries,
    pub slaves: Seq<Seq<char>>,
    pub parent_has_queue: bool,
}

impl View for UDevice {
    type V = UDeviceView;

    open spec fn view(&self) -> UDeviceView {
        UDeviceView {
            devtype: text_view(self.devtype),
            syspath: text_view(self.syspath),
            properties: entries_view(self.properties@),
            attributes: entries_view(self.attributes@),
            slaves: texts_view(self.slaves@),
            parent_has_queue: self.parent_has_queue,
        }
    }
}

/// What a scan of the block subsystem yielded.
pub struct UDev {
    /// The records in the order in which they came; `None` where the scan
    /// failed.
    pub scan: Option<Vec<UDevice>>,
}

pub struct UDevView {
    pub scan: Option<Seq<UDeviceView>>,
}

/// The view of a list of records.
pub open spec fn records_view(records: Seq<UDevice>) -> Seq<UDeviceView> {
    Seq::new(records.len(), |i: int| records[i]@)
}

impl View for UDev {
    type V = UDevView;

    open spec fn view(&self) -> UDevView {
        UDevView {
            scan: match self.scan {
                Some(records) => Some(records_view(records@)),
                None => None,
            },
        }
    }
}

/// What a record is taken for.
pub enum Kind {
    Disk,
    Partition,
    /// A device map, with the name under which the device mapper knows it.
    DeviceMap(Seq<char>),
    Other,
}

impl UDeviceView {
    /// The value of the property `key`.
    pub open spec fn property(self, key: Seq<char>) -> Option<Seq<char>> {
        lookup(self.properties, key)
    }

    /// The value of the attribute `key`.
    pub open spec fn attribute(self, key: Seq<char>) -> Option<Seq<char>> {
        lookup(self.attributes, key)
    }

    /// A record of type `disk` is a device map where it has a mapper name
    /// and a disk where it has none; one of type `partition` is a
    /// partition.
    pub open spec fn kind(self) -> Kind {
        if self.devtype == Some("disk"@) {
            match self.property("DM_NAME"@) {
                Some(name) => Kind::DeviceMap(name),
                None => Kind::Disk,
            }
        } else if self.devtype == Some("partition"@) {
            Kind::Partition
        } else {
            Kind::Other
        }
    }

    /// The file system of the device: it has one where the record holds
    /// both its type and its UUID.
    pub open spec fn filesystem(self) -> Option<FileSystemView> {
        match (self.property("ID_FS_TYPE"@), self.property("ID_FS_UUID"@)) {
            (Some(type_), Some(uuid)) => Some(FileSystemView { type_, uuid }),
            _ => None,
        }
    }

    /// What every kind of node holds of the device: the record must give a
    /// name and a size that reads as a number.
    pub open spec fn device(self) -> Option<DeviceView> {
        match (self.property("DEVNAME"@), self.attribute("size"@)) {
            (Some(name), Some(size)) => match decimal_u64(size) {
                Some(size) => Some(
                    DeviceView { name, size, fs: self.filesystem(), children: Seq::empty() },
                ),
                None => None,
            },
            _ => None,
        }
    }

    /// The sector size: the logical block size of the request queue, where
    /// the record has one that reads as a number.
    pub open spec fn sector_size(self) -> Option<u64> {
        match self.attribute("queue/logical_block_size"@) {
            Some(size) => decimal_u64(size),
            None => None,
        }
    }

    /// The partition table, where the record names one of the two kinds.
    pub open spec fn table(self) -> Option<PartitionTable> {
        let kind = self.property("ID_PART_TABLE_TYPE"@);
        if kind == Some("gpt"@) {
            Some(PartitionTable::Gpt)
        } else if kind == Some("mbr"@) {
            Some(PartitionTable::Mbr)
        } else {
            None
        }
    }

    /// The disk that the record describes. There is none where the record
    /// lacks a name or a size, where the name is that of a loopback device,
    /// or where no sector size can be had.
    pub open spec fn disk(self) -> Option<DiskView> {
        match (self.device(), self.sector_size()) {
            (Some(device), Some(sector_size)) => if is_loopback(device.name) {
                None
            } else {
                Some(
                    DiskView {
                        device,
                        sector_size,
                        model: text_or_empty(self.property("ID_MODEL"@)),
                        serial: text_or_empty(self.property("ID_SERIAL"@)),
                        table: self.table(),
                        children: Seq::empty(),
                    },
                )
            },
            _ => None,
        }
    }

    /// The ancestors of the device in the device tree, in the order in
    /// which they are tried. A record that does not say where it stands
    /// has none.
    pub open spec fn ancestors(self) -> Seq<Seq<char>> {
        match self.syspath {
            Some(path) => parents_of(self.slaves, self.parent_has_queue, path_parent(path)),
            None => Seq::empty(),
        }
    }
}

/// The text, or the empty text where there is none.
pub open spec fn text_or_empty(text: Option<Seq<char>>) -> Seq<char> {
    match text {
        Some(text) => text,
        None => Seq::empty(),
    }
}

/// The name is that of a loopback device.
pub open spec fn is_loopback(name: Seq<char>) -> bool {
    is_infix(name, "loop"@)
}

/// The path leads through the directory of block devices.
pub open spec fn through_block(path: Seq<char>) -> bool {
    has_segment(path, "block"@)
}

/// What `std::path::Path::parent` gives for a path.
pub uninterp spec fn path_parent(path: Seq<char>) -> Option<Seq<char>>;

/// The ancestors of a device: first those that its `slaves` lead to, each
/// of them a path through the directory of block devices, in their order;
/// then the directory above the device, where that holds a request queue.
pub open spec fn parents_of(
    slaves: Seq<Seq<char>>,
    parent_has_queue: bool,
    parent: Option<Seq<char>>,
) -> Seq<Seq<char>> {
    slaves.filter(|path: Seq<char>| through_block(path)) + match parent {
        Some(parent) => if parent_has_queue {
            seq![parent]
        } else {
            Seq::empty()
        },
        None => Seq::empty(),
    }
}

impl UDevView {
    /// The first record of the scan that stands at `path` in the device
    /// tree.
    pub open spec fn from_syspath(self, path: Seq<char>) -> Option<UDeviceView> {
        match self.scan {
            Some(records) => first_at(records, path),
            None => None,
        }
    }

    /// The name of the device that stands at `path`: the scan holds a
    /// record that stands there, and the first such record gives a name.
    pub open spec fn name_at(self, path: Seq<char>) -> Option<Seq<char>> {
        match self.from_syspath(path) {
            Some(record) => record.property("DEVNAME"@),
            None => None,
        }
    }

    /// The name of the first of the places `paths` at which a device with
    /// a name stands.
    pub open spec fn first_named(self, paths: Seq<Seq<char>>) -> Option<Seq<char>>
        decreases paths.len(),
    {
        if paths.len() == 0 {
            None
        } else {
            match self.name_at(paths[0]) {
                Some(name) => Some(name),
                None => self.first_named(paths.drop_first()),
            }
        }
    }

    /// The name of the ancestor of a device: that of the first of its
    /// ancestors, in their order, for which the scan gives a name.
    pub open spec fn parent_name(self, record: UDeviceView) -> Option<Seq<char>> {
        self.first_named(record.ancestors())
    }

    /// The partition that the record describes, and the name of its
    /// ancestor. An offset that does not read as a number counts as 0.
    pub open spec fn partition(self, record: UDeviceView) -> Option<(PartitionView, Seq<char>)> {
        match (
            record.device(),
            record.property("ID_PART_ENTRY_OFFSET"@),
            record.property("ID_PART_ENTRY_UUID"@),
            self.parent_name(record),
        ) {
            (Some(device), Some(offset), Some(uuid), Some(parent)) => Some(
                (
                    PartitionView {
                        device,
                        offset: match decimal_u64(offset) {
                            Some(offset) => offset,
                            None => 0,
                        },
                        uuid,
                    },
                    parent,
                ),
            ),
            _ => None,
        }
    }

    /// The device map that the record describes, and the name of its
    /// ancestor.
    pub open spec fn device_map(self, record: UDeviceView, name: Seq<char>) -> Option<
        (DeviceMapView, Seq<char>),
    > {
        match (record.device(), self.parent_name(record)) {
            (Some(device), Some(parent)) => Some(
                (
                    DeviceMapView {
                        device,
                        lv_name: record.property("DM_LV_NAME"@),
                        name,
                        vg_name: record.property("DM_VG_NAME"@),
                    },
                    parent,
                ),
            ),
            _ => None,
        }
    }

    /// The snapshot after one record was taken in.
    pub open spec fn grow(self, g: Graph, record: UDeviceView) -> Graph {
        match record.kind() {
            Kind::Disk => match record.disk() {
                Some(disk) => g.insert_disk(disk),
                None => g,
            },
            Kind::Partition => match self.partition(record) {
                Some((part, parent)) => g.insert_partition(part, parent),
                None => g,
            },
            Kind::DeviceMap(name) => match self.device_map(record, name) {
                Some((map, parent)) => g.insert_map(map, parent),
                None => g,
            },
            Kind::Other => g,
        }
    }

    /// The snapshot after the first `n` records of `records` were taken
    /// in, one after the other, starting from none.
    pub open spec fn grown(self, records: Seq<UDeviceView>, n: nat) -> Graph
        decreases n,
    {
        if n == 0 {
            Graph::empty()
        } else {
            self.grow(self.grown(records, (n - 1) as nat), records[n - 1])
        }
    }

    /// The snapshot that the scan gives: that of all its records, and the
    /// one without devices where the scan failed.
    pub open spec fn build(self) -> Graph {
        match self.scan {
            Some(records) => self.grown(records, records.len()),
            None => Graph::empty(),
        }
    }
}

impl UDevView {
    /// The name of the node that a record describes, where it describes
    /// one. The node comes in where its ancestor is in the snapshot.
    pub open spec fn added_name(self, record: UDeviceView) -> Option<Seq<char>> {
        match record.kind() {
            Kind::Disk => match record.disk() {
                Some(disk) => Some(disk.device.name),
                None => None,
            },
            Kind::Partition => match self.partition(record) {
                Some((part, _)) => Some(part.device.name),
                None => None,
            },
            Kind::DeviceMap(name) => match self.device_map(record, name) {
                Some((map, _)) => Some(map.device.name),
                None => None,
            },
            Kind::Other => None,
        }
    }

    /// No two of the records describe nodes of one name.
    pub open spec fn distinct_names(self, records: Seq<UDeviceView>) -> bool {
        forall|i: int, j: int|
            0 <= i < j < records.len() && self.added_name(records[i]) is Some ==> self.added_name(
                records[i],
            ) != self.added_name(records[j])
    }

    /// The disk node stems from a record: one that is taken for a disk and
    /// describes a disk of this name and sector size.
    pub open spec fn disk_stems_from(self, disk: DiskView, record: UDeviceView) -> bool {
        &&& record.kind() is Disk
        &&& record.disk() matches Some(found)
        &&& found.device.name == disk.device.name
        &&& found.sector_size == disk.sector_size
    }
}

/// Taking a record in leaves a snapshot well formed, adds at most one node
/// to an arena, and adds no name to the index but the name of the node that
/// the record describes.
pub proof fn lemma_grow(udev: UDevView, g: Graph, record: UDeviceView)
    requires
        g.wf(),
        g.disks.len() < usize::MAX,
        g.partitions.len() < usize::MAX,
        g.maps.len() < usize::MAX,
    ensures
        udev.grow(g, record).wf(),
        g.disks.len() <= udev.grow(g, record).disks.len() <= g.disks.len() + 1,
        g.partitions.len() <= udev.grow(g, record).partitions.len() <= g.partitions.len() + 1,
        g.maps.len() <= udev.grow(g, record).maps.len() <= g.maps.len() + 1,
        forall|name: Seq<char>| #[trigger]
            udev.grow(g, record).blocks.contains_key(name) ==> g.blocks.contains_key(name)
                || udev.added_name(record) == Some(name),
        (g.linked() && (udev.added_name(record) matches Some(name) ==> !g.blocks.contains_key(
            name,
        ))) ==> udev.grow(g, record).linked(),
        udev.grow(g, record).grew_from(g),
{
    assert(g.grew_from(g));
    match record.kind() {
        Kind::Disk => match record.disk() {
            Some(disk) => {
                lemma_insert_grew(g, disk, arbitrary(), arbitrary(), Seq::empty());
                lemma_insert_disk_wf(g, disk);
                if g.linked() && !g.blocks.contains_key(disk.device.name) {
                    lemma_insert_disk_linked(g, disk);
                }
            },
            None => {},
        },
        Kind::Partition => match udev.partition(record) {
            Some((part, parent)) => {
                lemma_insert_grew(g, arbitrary(), part, arbitrary(), parent);
                lemma_insert_partition_wf(g, part, parent);
                if g.linked() && !g.blocks.contains_key(part.device.name) {
                    lemma_insert_partition_linked(g, part, parent);
                }
            },
            None => {},
        },
        Kind::DeviceMap(name) => match udev.device_map(record, name) {
            Some((map, parent)) => {
                lemma_insert_grew(g, arbitrary(), arbitrary(), map, parent);
                lemma_insert_map_wf(g, map, parent);
                if g.linked() && !g.blocks.contains_key(map.device.name) {
                    lemma_insert_map_linked(g, map, parent);
                }
            },
            None => {},
        },
        Kind::Other => {},
    }
}

/// What holds of the snapshot of the first `n` records: it is well formed;
/// every name of its index is that of a node which one of these records
/// describes; where no two of them describe nodes of one name it is linked;
/// and each of its disks stems from one of them.
pub proof fn lemma_grown(udev: UDevView, records: Seq<UDeviceView>, n: nat)
    requires
        n <= records.len() <= usize::MAX,
    ensures
        udev.grown(records, n).wf(),
        udev.grown(records, n).disks.len() <= n,
        udev.grown(records, n).partitions.len() <= n,
        udev.grown(records, n).maps.len() <= n,
        forall|name: Seq<char>| #[trigger]
            udev.grown(records, n).blocks.contains_key(name) ==> exists|i: int|
                0 <= i < n && udev.added_name(#[trigger] records[i]) == Some(name),
        udev.distinct_names(records) ==> udev.grown(records, n).linked(),
        forall|d: int|
            0 <= d < udev.grown(records, n).disks.len() ==> exists|i: int|
                0 <= i < n && udev.disk_stems_from(
                    #[trigger] udev.grown(records, n).disks[d],
                    #[trigger] records[i],
                ),
    decreases n,
{
    if n == 0 {
        assert(Graph::empty().blocks.dom() =~= Set::<Seq<char>>::empty());
    } else {
        let before = udev.grown(records, (n - 1) as nat);
        let record = records[n - 1];
        let after = udev.grow(before, record);
        lemma_grown(udev, records, (n - 1) as nat);
        lemma_grow(udev, before, record);
        assert forall|name: Seq<char>| #[trigger] after.blocks.contains_key(name) implies exists|
            i: int,
        |
            0 <= i < n && udev.added_name(#[trigger] records[i]) == Some(name) by {
            if before.blocks.contains_key(name) {
                let i = choose|i: int|
                    0 <= i < n - 1 && udev.added_name(#[trigger] records[i]) == Some(name);
                assert(0 <= i < n && udev.added_name(records[i]) == Some(name));
            } else {
                assert(udev.added_name(records[n - 1]) == Some(name));
            }
        }
        if udev.distinct_names(records) {
            match udev.added_name(record) {
                Some(name) => {
                    if before.blocks.contains_key(name) {
                        let i = choose|i: int|
                            0 <= i < n - 1 && udev.added_name(#[trigger] records[i]) == Some(name);
                        assert(udev.added_name(records[i]) != udev.added_name(records[n - 1]));
                    }
                },
                None => {},
            }
        }
        assert forall|d: int| 0 <= d < after.disks.len() implies exists|i: int|
            0 <= i < n && udev.disk_stems_from(
                #[trigger] after.disks[d],
                #[trigger] records[i],
            ) by {
            if d < before.disks.len() {
                let i = choose|i: int|
                    0 <= i < n - 1 && udev.disk_stems_from(
                        #[trigger] before.disks[d],
                        #[trigger] records[i],
                    );
                assert(after.disks[d].device.grew_from(before.disks[d].device));
                assert(udev.disk_stems_from(after.disks[d], records[i]));
            } else {
                lemma_grow_new_disk(udev, before, record);
                assert(udev.disk_stems_from(after.disks[d], records[n - 1]));
            }
        }
    }
}

/// A disk that comes in with a record is the one that the record
/// describes.
proof fn lemma_grow_new_disk(udev: UDevView, g: Graph, record: UDeviceView)
    requires
        g.wf(),
        udev.grow(g, record).disks.len() == g.disks.len() + 1,
    ensures
        udev.disk_stems_from(udev.grow(g, record).disks[g.disks.len() as int], record),
{
    match record.kind() {
        Kind::Partition => match udev.partition(record) {
            Some((part, parent)) => {
                let n = g.insert_partition(part, parent);
                assert(n.disks.len() == g.disks.len());
            },
            None => {},
        },
        Kind::DeviceMap(name) => match udev.device_map(record, name) {
            Some((map, parent)) => {
                let n = g.insert_map(map, parent);
                if parent != map.device.name && g.blocks.contains_key(parent) {
                    assert(g.holds(g.blocks[parent]));
                }
                assert(n.disks.len() == g.disks.len());
            },
            None => {},
        },
        _ => {},
    }
}

/// Nodes are made when the snapshot is built and changed only by taking
/// children: the snapshot of more records grew from that of fewer.
pub proof fn lemma_grown_grew(udev: UDevView, records: Seq<UDeviceView>, m: nat, n: nat)
    requires
        m <= n <= records.len() <= usize::MAX,
    ensures
        udev.grown(records, n).grew_from(udev.grown(records, m)),
    decreases n - m,
{
    let early = udev.grown(records, m);
    if m == n {
        assert(early.grew_from(early));
    } else {
        let before = udev.grown(records, (n - 1) as nat);
        lemma_grown_grew(udev, records, m, (n - 1) as nat);
        lemma_grown(udev, records, (n - 1) as nat);
        lemma_grow(udev, before, records[n - 1]);
        lemma_grew_transitive(early, before, udev.grown(records, n));
    }
}

/// Graph consistency. The snapshot that a scan gives is well formed: every
/// child is a node of it whose name the index holds, every partition has
/// one disk above it and every device map one node. And where no two
/// records of the scan describe nodes of one name, every node of it, and so
/// every child in it, is what the index holds under its name.
pub proof fn lemma_build_consistent(udev: UDevView)
    requires
        udev.scan matches Some(records) ==> records.len() <= usize::MAX,
    ensures
        udev.build().wf(),
        (udev.scan matches Some(records) ==> udev.distinct_names(records))
            ==> udev.build().linked(),
{
    match udev.scan {
        Some(records) => {
            lemma_grown(udev, records, records.len());
        },
        None => {
            assert(Graph::empty().blocks.dom() =~= Set::<Seq<char>>::empty());
        },
    }
}

/// Reloading is idempotent: what a reload leaves goes by the scan alone, so
/// two scans that say the same give the same names, the same nodes and the
/// same edges, whatever the manager held before.
pub proof fn lemma_reload_idempotent(first: UDevView, second: UDevView)
    requires
        first.scan == second.scan,
    ensures
        first.build().blocks.dom() == second.build().blocks.dom(),
        first.build() == second.build(),
{
}

/// A disk needs a sector size and a name that is not a loopback name: a
/// record without them describes no disk, and every disk of the snapshot
/// that a scan gives stems from a record with both.
pub proof fn lemma_disks_qualify(udev: UDevView, d: int)
    requires
        udev.scan matches Some(records) ==> records.len() <= usize::MAX,
        0 <= d < udev.build().disks.len(),
    ensures
        !is_loopback(udev.build().disks[d].device.name),
        exists|i: int|
            0 <= i < udev.scan->0.len() && udev.disk_stems_from(
                udev.build().disks[d],
                #[trigger] udev.scan->0[i],
            ) && udev.scan->0[i].sector_size() == Some(udev.build().disks[d].sector_size),
        forall|record: UDeviceView|
            (record.sector_size() is None || (record.device() matches Some(device) && is_loopback(
                device.name,
            ))) ==> (#[trigger] record.disk()) is None,
{
    match udev.scan {
        Some(records) => {
            lemma_grown(udev, records, records.len());
            let g = udev.build();
            let i = choose|i: int|
                0 <= i < records.len() && udev.disk_stems_from(
                    #[trigger] g.disks[d],
                    #[trigger] records[i],
                );
            assert(udev.disk_stems_from(g.disks[d], records[i]));
        },
        None => {},
    }
}

/// Two scans that give the same names for the places `paths` give the
/// same first name among them.
pub proof fn lemma_first_named_agrees(first: UDevView, second: UDevView, paths: Seq<Seq<char>>)
    requires
        forall|i: int|
            0 <= i < paths.len() ==> first.name_at(#[trigger] paths[i]) == second.name_at(
                paths[i],
            ),
    ensures
        first.first_named(paths) == second.first_named(paths),
    decreases paths.len(),
{
    if paths.len() > 0 {
        assert(first.name_at(paths[0]) == second.name_at(paths[0]));
        let rest = paths.drop_first();
        assert forall|i: int| 0 <= i < rest.len() implies first.name_at(#[trigger] rest[i])
            == second.name_at(rest[i]) by {
            assert(rest[i] == paths[i + 1]);
        }
        lemma_first_named_agrees(first, second, rest);
    }
}

/// The ancestor of a device is stable: it goes by where the record stands,
/// what its `slaves` lead to, whether the directory above holds a request
/// queue, and the names that the scan gives for the places of its
/// ancestors. Two scans that agree in these give the same ancestor.
pub proof fn lemma_parent_name_stable(
    first: UDevView,
    second: UDevView,
    a: UDeviceView,
    b: UDeviceView,
)
    requires
        a.syspath == b.syspath,
        a.slaves == b.slaves,
        a.parent_has_queue == b.parent_has_queue,
        forall|i: int|
            0 <= i < a.ancestors().len() ==> first.name_at(#[trigger] a.ancestors()[i])
                == second.name_at(a.ancestors()[i]),
    ensures
        a.ancestors() == b.ancestors(),
        first.parent_name(a) == second.parent_name(b),
{
    lemma_first_named_agrees(first, second, a.ancestors());
}

/// The first of `records` that stands at `path`.
pub open spec fn first_at(records: Seq<UDeviceView>, path: Seq<char>) -> Option<UDeviceView>
    decreases records.len(),
{
    if records.len() == 0 {
        None
    } else if records[0].syspath == Some(path) {
        Some(records[0])
    } else {
        first_at(records.drop_first(), path)
    }
}

/// The value of the first of `entries` with the key `key`.
pub fn find_value<'a>(entries: &'a Vec<(String, String)>, key: &str) -> (r: Option<&'a str>)
    ensures
        match r {
            Some(value) => lookup(entries_view(entries@), key@) == Some(value@),
            None => lookup(entries_view(entries@), key@) is None,
        },
{
    let ghost all = entries_view(entries@);
    assert(all.skip(0) =~= all);
    let mut i: usize = 0;
    while i < entries.len()
        invariant
            i <= entries.len(),
            all == entries_view(entries@),
            lookup(all, key@) == lookup(all.skip(i as int), key@),
        decreases entries.len() - i,
    {
        let ghost rest = all.skip(i as int);
        assert(rest[0] == all[i as int]);
        assert(rest.drop_first() =~= all.skip(i + 1));
        if str_eq(entries[i].0.as_str(), key) {
            return Some(entries[i].1.as_str());
        }
        i += 1;
    }
    assert(all.skip(i as int).len() == 0);
    None
}

/// Looks a property of the device up.
pub fn property<'a>(device: &'a UDevice, key: &str) -> (r: Option<&'a str>)
    ensures
        match r {
            Some(value) => device@.property(key@) == Some(value@),
            None => device@.property(key@) is None,
        },
{
    find_value(&device.properties, key)
}

/// Looks an attribute of the device up.
pub fn attribute<'a>(device: &'a UDevice, key: &str) -> (r: Option<&'a str>)
    ensures
        match r {
            Some(value) => device@.attribute(key@) == Some(value@),
            None => device@.attribute(key@) is None,
        },
{
    find_value(&device.attributes, key)
}

/// Get filesystem-specific information from a record.
pub fn disk_manager_filesystem(device: &UDevice) -> (r: Option<FileSystem>)
    ensures
        fs_view(r) == device@.filesystem(),
{
    match property(device, "ID_FS_TYPE") {
        Some(type_) => match property(device, "ID_FS_UUID") {
            Some(uuid) => Some(FileSystem { type_: type_.to_owned(), uuid: uuid.to_owned() }),
            None => None,
        },
        None => None,
    }
}

/// The view of an optional device.
pub open spec fn device_view(device: Option<Device>) -> Option<DeviceView> {
    match device {
        Some(device) => Some(device@),
        None => None,
    }
}

/// Get device-specific information from a record.
pub fn disk_manager_device(device: &UDevice) -> (r: Option<Device>)
    ensures
        device_view(r) == device@.device(),
{
    let name = match property(device, "DEVNAME") {
        Some(name) => name,
        None => return None,
    };
    let size = match attribute(device, "size") {
        Some(size) => size,
        None => return None,
    };
    let size = match parse_u64(size) {
        Some(size) => size,
        None => return None,
    };
    let fs = disk_manager_filesystem(device);
    Some(Device { name: name.to_owned(), size, fs, children: Vec::new() })
}

/// `std::path::Path::parent`, on a path that is text: the path without its
/// last component, where it has one. What comes back is the outside
/// function's answer for this path, whatever that is.
#[verifier::external_body]
fn parent_directory(path: &str) -> (r: Option<String>)
    ensures
        text_view(r) == path_parent(path@),
{
    std::path::Path::new(path).parent().and_then(std::path::Path::to_str).map(str::to_owned)
}

/// Whether the path leads through the directory of block devices.
fn goes_through_block(path: &str) -> (r: bool)
    ensures
        r == through_block(path@),
{
    contains_segment(path, "block")
}

/// The ancestors of a device, from what the device tree says: see
/// [`parents_of`].
pub fn parents_from(slaves: &Vec<String>, parent_has_queue: bool, parent: Option<String>) -> (r:
    Vec<String>)
    ensures
        texts_view(r@) == parents_of(texts_view(slaves@), parent_has_queue, text_view(parent)),
{
    let ghost all = texts_view(slaves@);
    let ghost through = |path: Seq<char>| through_block(path);
    let mut found: Vec<String> = Vec::new();
    let mut i: usize = 0;
    while i < slaves.len()
        invariant
            i <= slaves.len(),
            all == texts_view(slaves@),
            through == |path: Seq<char>| through_block(path),
            texts_view(found@) == all.take(i as int).filter(through),
        decreases slaves.len() - i,
    {
        proof {
            reveal(Seq::filter);
            assert(all.take(i + 1).drop_last() =~= all.take(i as int));
            assert(all.take(i + 1).last() == slaves@[i as int]@);
        }
        if goes_through_block(slaves[i].as_str()) {
            let ghost before = texts_view(found@);
            found.push(slaves[i].clone());
            assert(texts_view(found@) =~= before.push(slaves@[i as int]@));
        }
        i += 1;
    }
    assert(all.take(i as int) =~= all);
    let ghost front = texts_view(found@);
    match parent {
        Some(parent) => {
            if parent_has_queue {
                let ghost view = parent@;
                found.push(parent);
                assert(texts_view(found@) =~= front + seq![view]);
            } else {
                assert(front + Seq::<Seq<char>>::empty() =~= front);
            }
        },
        None => {
            assert(front + Seq::<Seq<char>>::empty() =~= front);
        },
    }
    found
}

/// Locate the parents of the given device.
///
/// Some devices define their parents under `{DEV}/slaves`, while others
/// can be determined by checking if the parent directory contains a
/// `queue` sub-directory.
pub fn parents(device_path: &str, slaves: &Vec<String>, parent_has_queue: bool) -> (r: Vec<String>)
    ensures
        texts_view(r@) == parents_of(
            texts_view(slaves@),
            parent_has_queue,
            path_parent(device_path@),
        ),
{
    parents_from(slaves, parent_has_queue, parent_directory(device_path))
}

impl UDev {
    /// The first record of the scan that stands at `path`.
    pub fn from_syspath(&self, path: &str) -> (r: Option<&UDevice>)
        ensures
            match r {
                Some(record) => self@.from_syspath(path@) == Some(record@),
                None => self@.from_syspath(path@) is None,
            },
    {
        let records = match &self.scan {
            Some(records) => records,
            None => return None,
        };
        let ghost all = records_view(records@);
        assert(all.skip(0) =~= all);
        let mut i: usize = 0;
        while i < records.len()
            invariant
                i <= records.len(),
                all == records_view(records@),
                self@.from_syspath(path@) == first_at(all, path@),
                first_at(all, path@) == first_at(all.skip(i as int), path@),
            decreases records.len() - i,
        {
            let ghost rest = all.skip(i as int);
            assert(rest[0] == all[i as int]);
            assert(rest.drop_first() =~= all.skip(i + 1));
            let here = match &records[i].syspath {
                Some(syspath) => str_eq(syspath.as_str(), path),
                None => false,
            };
            if here {
                assert(rest[0] == records@[i as int]@);
                assert(first_at(rest, path@) == Some(rest[0]));
                return Some(&records[i]);
            }
            i += 1;
        }
        assert(all.skip(i as int).len() == 0);
        None
    }

    /// The name of the ancestor of a device: that of the first of its
    /// ancestors, in their order, for which the scan gives a name.
    fn parent_name(&self, device: &UDevice) -> (r: Option<String>)
        ensures
            text_view(r) == self@.parent_name(device@),
    {
        let syspath = match &device.syspath {
            Some(syspath) => syspath,
            None => return None,
        };
        let all = parents(syspath.as_str(), &device.slaves, device.parent_has_queue);
        let ghost paths = texts_view(all@);
        assert(paths.skip(0) =~= paths);
        let mut i: usize = 0;
        while i < all.len()
            invariant
                i <= all.len(),
                paths == texts_view(all@),
                self@.parent_name(device@) == self@.first_named(paths.skip(i as int)),
            decreases all.len() - i,
        {
            let ghost rest = paths.skip(i as int);
            assert(rest[0] == all@[i as int]@);
            assert(rest.drop_first() =~= paths.skip(i + 1));
            match self.from_syspath(all[i].as_str()) {
                Some(parent) => match property(parent, "DEVNAME") {
                    Some(name) => return Some(name.to_owned()),
                    None => {},
                },
                None => {},
            }
            i += 1;
        }
        assert(paths.skip(i as int).len() == 0);
        None
    }

    /// Appends relevant information about this device to the disk manager.
    pub fn append(&self, dm: &mut DiskManager, device: &UDevice)
        requires
            old(dm).wf(),
        ensures
            final(dm).wf(),
            final(dm)@ == self@.grow(old(dm)@, device@),
    {
        let is_disk = match &device.devtype {
            Some(kind) => str_eq(kind.as_str(), "disk"),
            None => false,
        };
        let is_partition = match &device.devtype {
            Some(kind) => str_eq(kind.as_str(), "partition"),
            None => false,
        };
        if is_disk {
            match property(device, "DM_NAME") {
                Some(dm_name) => self.append_dm(dm, device, dm_name.to_owned()),
                None => self.append_disk(dm, device),
            }
        } else if is_partition {
            self.append_partition(dm, device);
        }
    }

    /// Append a device which we have determined to be a physical disk.
    fn append_disk(&self, dm: &mut DiskManager, device: &UDevice)
        requires
            old(dm).wf(),
        ensures
            final(dm).wf(),
            final(dm)@ == (match device@.disk() {
                Some(disk) => old(dm)@.insert_disk(disk),
                None => old(dm)@,
            }),
    {
        let dev = match disk_manager_device(device) {
            Some(dev) => dev,
            None => return ,
        };
        if contains(dev.name.as_str(), "loop") {
            return ;
        }
        let table = match property(device, "ID_PART_TABLE_TYPE") {
            Some(kind) => if str_eq(kind, "gpt") {
                Some(PartitionTable::Gpt)
            } else if str_eq(kind, "mbr") {
                Some(PartitionTable::Mbr)
            } else {
                None
            },
            None => None,
        };
        let sector_size = match attribute(device, "queue/logical_block_size") {
            Some(size) => match parse_u64(size) {
                Some(size) => size,
                None => return ,
            },
            None => return ,
        };
        let model = match property(device, "ID_MODEL") {
            Some(model) => model.to_owned(),
            None => String::new(),
        };
        let serial = match property(device, "ID_SERIAL") {
            Some(serial) => serial.to_owned(),
            None => String::new(),
        };
        dm.insert_disk(
            Disk { device: dev, table, sector_size, model, serial, children: Vec::new() },
        );
    }

    /// Append a device which we have determined to be a physical partition.
    fn append_partition(&self, dm: &mut DiskManager, dev: &UDevice)
        requires
            old(dm).wf(),
        ensures
            final(dm).wf(),
            final(dm)@ == (match self@.partition(dev@) {
                Some((part, parent)) => old(dm)@.insert_partition(part, parent),
                None => old(dm)@,
            }),
    {
        let device = match disk_manager_device(dev) {
            Some(device) => device,
            None => return ,
        };
        let offset = match property(dev, "ID_PART_ENTRY_OFFSET") {
            Some(offset) => offset,
            None => return ,
        };
        let uuid = match property(dev, "ID_PART_ENTRY_UUID") {
            Some(uuid) => uuid,
            None => return ,
        };
        let parent = match self.parent_name(dev) {
            Some(parent) => parent,
            None => return ,
        };
        let offset = match parse_u64(offset) {
            Some(offset) => offset,
            None => 0,
        };
        dm.insert_partition(
            PartitionEntry { offset, uuid: uuid.to_owned(), device },
            parent.as_str(),
        );
    }

    /// Append a device which we have determined to be a device map.
    fn append_dm(&self, dm: &mut DiskManager, dev: &UDevice, dm_name: String)
        requires
            old(dm).wf(),
        ensures
            final(dm).wf(),
            final(dm)@ == (match self@.device_map(dev@, dm_name@) {
                Some((map, parent)) => old(dm)@.insert_map(map, parent),
                None => old(dm)@,
            }),
    {
        let device = match disk_manager_device(dev) {
            Some(device) => device,
            None => return ,
        };
        let parent = match self.parent_name(dev) {
            Some(parent) => parent,
            None => return ,
        };
        let lv_name = match property(dev, "DM_LV_NAME") {
            Some(name) => Some(name.to_owned()),
            None => None,
        };
        let vg_name = match property(dev, "DM_VG_NAME") {
            Some(name) => Some(name.to_owned()),
            None => None,
        };
        dm.insert_map(DeviceMap { device, lv_name, name: dm_name, vg_name }, parent.as_str());
    }
}

} // verus!
