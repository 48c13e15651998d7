//! The mathematical model of a snapshot: three arenas of nodes and the map
//! from device names to handles, with what holds of every snapshot and how
//! a snapshot grows by one node.

use crate::block_types::BlockDevice;
use crate::block_types::DeviceMapHandle;
use crate::block_types::DeviceMapView;
use crate::block_types::DeviceView;
use crate::block_types::DiskHandle;
use crate::block_types::DiskView;
use crate::block_types::PartitionHandle;
use crate::block_types::PartitionView;
use crate::name_index::rising;
use crate::text::lemma_name_lt_total;
use crate::text::name_lt;
use vstd::prelude::*;

verus! {

impl DeviceView {
    /// This device with one more device map standing on it.
    pub open spec fn with_child(self, child: DeviceMapHandle) -> DeviceView {
        DeviceView { children: self.children.push(child), ..self }
    }

    /// This is the device `earlier` with, maybe, more device maps standing
    /// on it.
    pub open spec fn grew_from(self, earlier: DeviceView) -> bool {
        &&& self.name == earlier.name
        &&& self.size == earlier.size
        &&& self.fs == earlier.fs
        &&& earlier.children.is_prefix_of(self.children)
    }
}

/// The device holds a LUKS container.
pub open spec fn is_luks(device: DeviceView) -> bool {
    device.fs matches Some(fs) && fs.type_ == "crypto_LUKS"@
}

/// What a search goes by.
#[derive(Clone, Copy, Debug, PartialEq, Eq, Structural)]
pub enum Field {
    /// The UUID of a partition.
    PartitionUuid,
    /// The UUID of the file system on a device of any kind.
    FilesystemUuid,
    /// The name under which the device mapper knows a device map.
    MapperName,
    /// The name of the logical volume behind a device map.
    LogicalVolume,
    /// The type of the file system on a disk or a partition.
    VolumeFilesystem,
}

/// A snapshot of the block devices.
pub struct Graph {
    /// The node that each device name stands for.
    pub blocks: Map<Seq<char>, BlockDevice>,
    pub disks: Seq<DiskView>,
    pub partitions: Seq<PartitionView>,
    pub maps: Seq<DeviceMapView>,
}

impl Graph {
    /// The snapshot without devices.
    pub open spec fn empty() -> Graph {
        Graph {
            blocks: Map::empty(),
            disks: Seq::empty(),
            partitions: Seq::empty(),
            maps: Seq::empty(),
        }
    }

    /// The handle refers to a node of this snapshot.
    pub open spec fn holds(self, dev: BlockDevice) -> bool {
        match dev {
            BlockDevice::Disk(h) => h.index < self.disks.len(),
            BlockDevice::Partition(h) => h.index < self.partitions.len(),
            BlockDevice::DeviceMap(h) => h.index < self.maps.len(),
        }
    }

    /// What the node has as a device, of whatever kind it is.
    pub open spec fn device(self, dev: BlockDevice) -> DeviceView {
        match dev {
            BlockDevice::Disk(h) => self.disks[h.index as int].device,
            BlockDevice::Partition(h) => self.partitions[h.index as int].device,
            BlockDevice::DeviceMap(h) => self.maps[h.index as int].device,
        }
    }

    /// The node `dev` has `text` as its `field`.
    pub open spec fn answers(self, field: Field, text: Seq<char>, dev: BlockDevice) -> bool {
        match field {
            Field::PartitionUuid => dev matches BlockDevice::Partition(h)
                && self.partitions[h.index as int].uuid == text,
            Field::FilesystemUuid => self.device(dev).fs matches Some(fs) && fs.uuid == text,
            Field::MapperName => dev matches BlockDevice::DeviceMap(h)
                && self.maps[h.index as int].name == text,
            Field::LogicalVolume => dev matches BlockDevice::DeviceMap(h)
                && self.maps[h.index as int].lv_name == Some(text),
            Field::VolumeFilesystem => !(dev is DeviceMap) && (self.device(dev).fs matches Some(
                fs,
            ) && fs.type_ == text),
        }
    }

    /// `name` stands for a node that has `text` as its `field`.
    pub open spec fn hit(self, field: Field, text: Seq<char>, name: Seq<char>) -> bool {
        self.blocks.contains_key(name) && self.answers(field, text, self.blocks[name])
    }

    /// `name` is the first name, in the order of names, that stands for a
    /// node with `text` as its `field`.
    pub open spec fn first_hit(self, field: Field, text: Seq<char>, name: Seq<char>) -> bool {
        &&& self.hit(field, text, name)
        &&& forall|other: Seq<char>| #[trigger]
            self.hit(field, text, other) ==> !name_lt(other, name)
    }

    /// No name stands for a node with `text` as its `field`.
    pub open spec fn no_hit(self, field: Field, text: Seq<char>) -> bool {
        forall|name: Seq<char>| !#[trigger] self.hit(field, text, name)
    }

    /// The device map at place `h` stands, directly or through other device
    /// maps, on what has `roots` as its children: it is one of `roots`, or
    /// a child of a device map before it that does.
    pub open spec fn reached(self, roots: Seq<DeviceMapHandle>, h: int) -> bool
        decreases h,
    {
        &&& 0 <= h < self.maps.len()
        &&& (roots.contains(DeviceMapHandle { index: h as usize }) || exists|p: int|
            0 <= p < h && self.reached(roots, p) && (
            #[trigger] self.maps[p]).device.children.contains(
                DeviceMapHandle { index: h as usize },
            ))
    }

    /// The device map at place `h` is one of `roots`, or a child of a
    /// device map before place `upto` that stands on `roots`.
    pub open spec fn seen(self, roots: Seq<DeviceMapHandle>, upto: int, h: int) -> bool {
        ||| roots.contains(DeviceMapHandle { index: h as usize })
        ||| exists|p: int|
            0 <= p < upto && self.reached(roots, p) && (
            #[trigger] self.maps[p]).device.children.contains(
                DeviceMapHandle { index: h as usize },
            )
    }

    /// The names of the first `n` device maps that stand on `roots` and
    /// hold a LUKS container, in the order of their places.
    pub open spec fn luks_below(self, roots: Seq<DeviceMapHandle>, n: nat) -> Seq<Seq<char>>
        decreases n,
    {
        if n == 0 {
            Seq::empty()
        } else {
            let rest = self.luks_below(roots, (n - 1) as nat);
            let device = self.maps[n - 1].device;
            if self.reached(roots, n - 1) && is_luks(device) {
                rest.push(device.name)
            } else {
                rest
            }
        }
    }

    /// One of the first `n` device maps stands on `roots` and belongs to
    /// the volume group `vg`.
    pub open spec fn group_below(self, roots: Seq<DeviceMapHandle>, n: int, vg: Seq<char>) -> bool {
        exists|h: int|
            0 <= h < n && self.reached(roots, h) && (#[trigger] self.maps[h]).vg_name == Some(vg)
    }

    /// What there is to do to lock the device of the name `device`, a name
    /// of the index: `vgs` are the volume groups of the device maps that
    /// stand on the device, each once, in the order of names; `luks` are
    /// the device itself and then the device maps on it that hold a LUKS
    /// container, in the order of their places.
    pub open spec fn lock_plan(
        self,
        device: Seq<char>,
        vgs: Seq<Seq<char>>,
        luks: Seq<Seq<char>>,
    ) -> bool {
        let roots = self.device(self.blocks[device]).children;
        &&& rising(vgs)
        &&& forall|vg: Seq<char>|
            vgs.contains(vg) <==> self.group_below(roots, self.maps.len() as int, vg)
        &&& luks == seq![device] + self.luks_below(roots, self.maps.len())
    }

    /// Every name of the index stands for a node that bears this name.
    pub open spec fn named(self) -> bool {
        forall|name: Seq<char>| #[trigger]
            self.blocks.contains_key(name) ==> self.holds(self.blocks[name]) && self.device(
                self.blocks[name],
            ).name == name
    }

    /// The name of every node is a name of the index.
    pub open spec fn indexed(self) -> bool {
        &&& forall|i: int|
            0 <= i < self.disks.len() ==> self.blocks.contains_key(
                (#[trigger] self.disks[i]).device.name,
            )
        &&& forall|i: int|
            0 <= i < self.partitions.len() ==> self.blocks.contains_key(
                (#[trigger] self.partitions[i]).device.name,
            )
        &&& forall|i: int|
            0 <= i < self.maps.len() ==> self.blocks.contains_key(
                (#[trigger] self.maps[i]).device.name,
            )
    }

    /// Every handle in a child list refers to a node of this snapshot, and a
    /// device map stands only on what came before it.
    pub open spec fn rooted(self) -> bool {
        &&& forall|i: int, k: int|
            0 <= i < self.disks.len() && 0 <= k < self.disks[i].children.len() ==> (
            #[trigger] self.disks[i].children[k]).index < self.partitions.len()
        &&& forall|i: int, k: int|
            0 <= i < self.disks.len() && 0 <= k < self.disks[i].device.children.len() ==> (
            #[trigger] self.disks[i].device.children[k]).index < self.maps.len()
        &&& forall|i: int, k: int|
            0 <= i < self.partitions.len() && 0 <= k < self.partitions[i].device.children.len()
                ==> (#[trigger] self.partitions[i].device.children[k]).index < self.maps.len()
        &&& forall|i: int, k: int|
            0 <= i < self.maps.len() && 0 <= k < self.maps[i].device.children.len() ==> i < (
            #[trigger] self.maps[i].device.children[k]).index < self.maps.len()
    }

    /// The disk at place `d` has the partition at place `p` as its child
    /// number `k`.
    pub open spec fn partition_child(self, d: int, k: int, p: int) -> bool {
        &&& 0 <= d < self.disks.len()
        &&& 0 <= k < self.disks[d].children.len()
        &&& self.disks[d].children[k].index == p
    }

    /// The node `on` has the device map at place `m` as its child number
    /// `k`.
    pub open spec fn map_child(self, on: BlockDevice, k: int, m: int) -> bool {
        &&& self.holds(on)
        &&& 0 <= k < self.device(on).children.len()
        &&& self.device(on).children[k].index == m
    }

    /// The partition at place `p` is the child of a disk.
    pub open spec fn partition_has_parent(self, p: int) -> bool {
        exists|d: int, k: int| #[trigger] self.partition_child(d, k, p)
    }

    /// The device map at place `m` is the child of a node.
    pub open spec fn map_has_parent(self, m: int) -> bool {
        exists|on: BlockDevice, k: int| #[trigger] self.map_child(on, k, m)
    }

    /// Every partition is the child of one disk, and every device map the
    /// child of one node, each at one place of one child list.
    pub open spec fn parented(self) -> bool {
        &&& forall|p: int|
            0 <= p < self.partitions.len() ==> #[trigger] self.partition_has_parent(p)
        &&& forall|d1: int, k1: int, d2: int, k2: int, p: int|
            #![trigger self.partition_child(d1, k1, p), self.partition_child(d2, k2, p)]
            self.partition_child(d1, k1, p) && self.partition_child(d2, k2, p) ==> d1 == d2
                && k1 == k2
        &&& forall|m: int| 0 <= m < self.maps.len() ==> #[trigger] self.map_has_parent(m)
        &&& forall|a: BlockDevice, i: int, b: BlockDevice, j: int, m: int|
            #![trigger self.map_child(a, i, m), self.map_child(b, j, m)]
            self.map_child(a, i, m) && self.map_child(b, j, m) ==> a == b && i == j
    }

    /// What holds of every snapshot.
    pub open spec fn wf(self) -> bool {
        &&& self.blocks.dom().finite()
        &&& self.disks.len() <= usize::MAX
        &&& self.partitions.len() <= usize::MAX
        &&& self.maps.len() <= usize::MAX
        &&& self.named()
        &&& self.indexed()
        &&& self.rooted()
        &&& self.parented()
    }

    /// Every node is the one that the index holds under its name: no name
    /// was given to two nodes.
    pub open spec fn linked(self) -> bool {
        &&& forall|i: int|
            0 <= i < self.disks.len() ==> self.blocks[(#[trigger] self.disks[i]).device.name]
                == BlockDevice::Disk(DiskHandle { index: i as usize })
        &&& forall|i: int|
            0 <= i < self.partitions.len() ==> self.blocks[(
            #[trigger] self.partitions[i]).device.name] == BlockDevice::Partition(
                PartitionHandle { index: i as usize },
            )
        &&& forall|i: int|
            0 <= i < self.maps.len() ==> self.blocks[(#[trigger] self.maps[i]).device.name]
                == BlockDevice::DeviceMap(DeviceMapHandle { index: i as usize })
    }

    /// This snapshot grew from `earlier`: every node of `earlier` is still
    /// there, at its place, with what it had, but for the children that it
    /// has got since.
    pub open spec fn grew_from(self, earlier: Graph) -> bool {
        &&& earlier.disks.len() <= self.disks.len()
        &&& earlier.partitions.len() <= self.partitions.len()
        &&& earlier.maps.len() <= self.maps.len()
        &&& forall|i: int|
            0 <= i < earlier.disks.len() ==> {
                let now = #[trigger] self.disks[i];
                let then = earlier.disks[i];
                &&& now.device.grew_from(then.device)
                &&& now.sector_size == then.sector_size
                &&& now.model == then.model
                &&& now.serial == then.serial
                &&& now.table == then.table
                &&& then.children.is_prefix_of(now.children)
            }
        &&& forall|i: int|
            0 <= i < earlier.partitions.len() ==> {
                let now = #[trigger] self.partitions[i];
                let then = earlier.partitions[i];
                &&& now.device.grew_from(then.device)
                &&& now.offset == then.offset
                &&& now.uuid == then.uuid
            }
        &&& forall|i: int|
            0 <= i < earlier.maps.len() ==> {
                let now = #[trigger] self.maps[i];
                let then = earlier.maps[i];
                &&& now.device.grew_from(then.device)
                &&& now.name == then.name
                &&& now.lv_name == then.lv_name
                &&& now.vg_name == then.vg_name
            }
    }

    /// The snapshot with one more device map on the node `parent`.
    pub open spec fn with_map_child(self, parent: BlockDevice, child: DeviceMapHandle) -> Graph {
        match parent {
            BlockDevice::Disk(h) => {
                let disk = self.disks[h.index as int];
                Graph {
                    disks: self.disks.update(
                        h.index as int,
                        DiskView { device: disk.device.with_child(child), ..disk },
                    ),
                    ..self
                }
            },
            BlockDevice::Partition(h) => {
                let part = self.partitions[h.index as int];
                Graph {
                    partitions: self.partitions.update(
                        h.index as int,
                        PartitionView { device: part.device.with_child(child), ..part },
                    ),
                    ..self
                }
            },
            BlockDevice::DeviceMap(h) => {
                let map = self.maps[h.index as int];
                Graph {
                    maps: self.maps.update(
                        h.index as int,
                        DeviceMapView { device: map.device.with_child(child), ..map },
                    ),
                    ..self
                }
            },
        }
    }

    /// The snapshot with one more partition on the disk `parent`.
    pub open spec fn with_partition_child(
        self,
        parent: DiskHandle,
        child: PartitionHandle,
    ) -> Graph {
        let disk = self.disks[parent.index as int];
        Graph {
            disks: self.disks.update(
                parent.index as int,
                DiskView { children: disk.children.push(child), ..disk },
            ),
            ..self
        }
    }

    /// The snapshot after a disk came in: it takes the next place in its
    /// arena, and its name stands for it from now on.
    pub open spec fn insert_disk(self, disk: DiskView) -> Graph {
        let h = DiskHandle { index: self.disks.len() as usize };
        Graph {
            blocks: self.blocks.insert(disk.device.name, BlockDevice::Disk(h)),
            disks: self.disks.push(disk),
            ..self
        }
    }

    /// The snapshot after a partition came in whose ancestor bears the name
    /// `parent`. Where that name stands for a disk, the partition takes the
    /// next place in its arena, its name stands for it from now on, and the
    /// disk has it as its last child. Where the name stands for no disk,
    /// the partition is dropped.
    pub open spec fn insert_partition(self, part: PartitionView, parent: Seq<char>) -> Graph {
        if self.blocks.contains_key(parent) {
            match self.blocks[parent] {
                BlockDevice::Disk(d) => {
                    let h = PartitionHandle { index: self.partitions.len() as usize };
                    Graph {
                        blocks: self.blocks.insert(part.device.name, BlockDevice::Partition(h)),
                        partitions: self.partitions.push(part),
                        ..self
                    }.with_partition_child(d, h)
                },
                _ => self,
            }
        } else {
            self
        }
    }

    /// The snapshot after a device map came in whose ancestor bears the name
    /// `parent`. Where that name stands for a node, the device map takes
    /// the next place in its arena, its name stands for it from now on, and
    /// the node has it as its last child. Where the name stands for no
    /// node, the device map is dropped.
    pub open spec fn insert_map(self, map: DeviceMapView, parent: Seq<char>) -> Graph {
        if self.blocks.contains_key(parent) {
            let h = DeviceMapHandle { index: self.maps.len() as usize };
            Graph {
                blocks: self.blocks.insert(map.device.name, BlockDevice::DeviceMap(h)),
                maps: self.maps.push(map),
                ..self
            }.with_map_child(self.blocks[parent], h)
        } else {
            self
        }
    }
}

/// What a disk that comes in changes of the children: nothing.
proof fn lemma_insert_disk_children(g: Graph, disk: DiskView)
    requires
        disk.children.len() == 0,
        disk.device.children.len() == 0,
    ensures
        forall|d: int, k: int, p: int| #[trigger]
            g.insert_disk(disk).partition_child(d, k, p) <==> g.partition_child(d, k, p),
        forall|on: BlockDevice, k: int, m: int| #[trigger]
            g.insert_disk(disk).map_child(on, k, m) <==> g.map_child(on, k, m),
{
    let n = g.insert_disk(disk);
    assert forall|d: int, k: int, p: int| #[trigger]
        n.partition_child(d, k, p) <==> g.partition_child(d, k, p) by {
        if 0 <= d < g.disks.len() {
            assert(n.disks[d] == g.disks[d]);
        }
    }
    assert forall|on: BlockDevice, k: int, m: int| #[trigger]
        n.map_child(on, k, m) <==> g.map_child(on, k, m) by {
        match on {
            BlockDevice::Disk(h) => {
                if h.index < g.disks.len() {
                    assert(n.disks[h.index as int] == g.disks[h.index as int]);
                }
            },
            _ => {},
        }
    }
}

/// What a partition that comes in changes of the children: the disk that
/// takes it has it as its last child.
proof fn lemma_insert_partition_children(g: Graph, part: PartitionView, parent: Seq<char>)
    requires
        g.wf(),
        part.device.children.len() == 0,
        g.blocks.contains_key(parent),
        g.blocks[parent] is Disk,
    ensures
        forall|d: int, k: int, p: int| #[trigger]
            g.insert_partition(part, parent).partition_child(d, k, p) <==> g.partition_child(
                d,
                k,
                p,
            ) || (d == g.blocks[parent]->Disk_0.index && k
                == g.disks[g.blocks[parent]->Disk_0.index as int].children.len() && p
                == g.partitions.len()),
        forall|on: BlockDevice, k: int, m: int| #[trigger]
            g.insert_partition(part, parent).map_child(on, k, m) <==> g.map_child(on, k, m),
{
    let n = g.insert_partition(part, parent);
    let d0 = g.blocks[parent]->Disk_0.index as int;
    assert(g.holds(g.blocks[parent]));
    assert(n.partitions == g.partitions.push(part));
    assert(n.maps == g.maps);
    assert forall|d: int, k: int, p: int| #[trigger]
        n.partition_child(d, k, p) <==> g.partition_child(d, k, p) || (d == d0 && k
            == g.disks[d0].children.len() && p == g.partitions.len()) by {
        if 0 <= d < g.disks.len() {
            if d != d0 {
                assert(n.disks[d] == g.disks[d]);
            } else {
                assert(n.disks[d].children == g.disks[d].children.push(
                    PartitionHandle { index: g.partitions.len() as usize },
                ));
            }
        }
    }
    assert forall|on: BlockDevice, k: int, m: int| #[trigger]
        n.map_child(on, k, m) <==> g.map_child(on, k, m) by {
        match on {
            BlockDevice::Disk(h) => {
                if h.index < g.disks.len() {
                    assert(n.disks[h.index as int].device == g.disks[h.index as int].device);
                }
            },
            BlockDevice::Partition(h) => {
                if h.index < g.partitions.len() {
                    assert(n.partitions[h.index as int] == g.partitions[h.index as int]);
                }
            },
            BlockDevice::DeviceMap(h) => {},
        }
    }
}

/// What a device map that comes in changes of the children: the node that
/// takes it has it as its last child.
proof fn lemma_insert_map_children(g: Graph, map: DeviceMapView, parent: Seq<char>)
    requires
        g.wf(),
        map.device.children.len() == 0,
        g.blocks.contains_key(parent),
    ensures
        forall|d: int, k: int, p: int| #[trigger]
            g.insert_map(map, parent).partition_child(d, k, p) <==> g.partition_child(d, k, p),
        forall|on: BlockDevice, k: int, m: int| #[trigger]
            g.insert_map(map, parent).map_child(on, k, m) <==> g.map_child(on, k, m) || (on
                == g.blocks[parent] && k == g.device(g.blocks[parent]).children.len() && m
                == g.maps.len()),
{
    let n = g.insert_map(map, parent);
    let top = g.blocks[parent];
    let h = DeviceMapHandle { index: g.maps.len() as usize };
    assert(g.holds(top));
    assert(n.disks.len() == g.disks.len());
    assert(n.partitions.len() == g.partitions.len());
    assert(n.maps.len() == g.maps.len() + 1);
    assert forall|d: int, k: int, p: int| #[trigger]
        n.partition_child(d, k, p) <==> g.partition_child(d, k, p) by {
        if 0 <= d < g.disks.len() {
            assert(n.disks[d].children == g.disks[d].children);
        }
    }
    assert forall|on: BlockDevice, k: int, m: int| #[trigger]
        n.map_child(on, k, m) <==> g.map_child(on, k, m) || (on == top && k == g.device(
            top,
        ).children.len() && m == g.maps.len()) by {
        if n.holds(on) {
            if on == top {
                assert(n.device(on).children == g.device(on).children.push(h));
            } else if g.holds(on) {
                assert(n.device(on).children == g.device(on).children);
            } else {
                assert(on == BlockDevice::DeviceMap(h));
                assert(n.device(on).children == map.device.children);
            }
        }
    }
}

/// In a well-formed snapshot every child is a node of it.
proof fn lemma_children_held(g: Graph)
    requires
        g.wf(),
    ensures
        forall|d: int, k: int, p: int| #[trigger]
            g.partition_child(d, k, p) ==> 0 <= p < g.partitions.len(),
        forall|on: BlockDevice, k: int, m: int| #[trigger]
            g.map_child(on, k, m) ==> 0 <= m < g.maps.len(),
{
    assert forall|d: int, k: int, p: int| #[trigger] g.partition_child(d, k, p) implies 0 <= p
        < g.partitions.len() by {
        assert(g.disks[d].children[k].index < g.partitions.len());
    }
    assert forall|on: BlockDevice, k: int, m: int| #[trigger] g.map_child(on, k, m) implies 0
        <= m < g.maps.len() by {
        lemma_roots_in_range(g, on);
    }
}

/// A snapshot stays well formed when a disk without children comes in.
pub proof fn lemma_insert_disk_wf(g: Graph, disk: DiskView)
    requires
        g.wf(),
        g.disks.len() < usize::MAX,
        disk.children.len() == 0,
        disk.device.children.len() == 0,
    ensures
        g.insert_disk(disk).wf(),
{
    let n = g.insert_disk(disk);
    assert forall|name: Seq<char>| #[trigger] n.blocks.contains_key(name) implies n.holds(
        n.blocks[name],
    ) && n.device(n.blocks[name]).name == name by {
        if name != disk.device.name {
            assert(g.blocks.contains_key(name));
        }
    }
    assert forall|i: int| 0 <= i < n.disks.len() implies n.blocks.contains_key(
        (#[trigger] n.disks[i]).device.name,
    ) by {
        if i < g.disks.len() {
            assert(g.blocks.contains_key(g.disks[i].device.name));
        }
    }
    assert forall|i: int| 0 <= i < n.partitions.len() implies n.blocks.contains_key(
        (#[trigger] n.partitions[i]).device.name,
    ) by {
        assert(g.blocks.contains_key(g.partitions[i].device.name));
    }
    assert forall|i: int| 0 <= i < n.maps.len() implies n.blocks.contains_key(
        (#[trigger] n.maps[i]).device.name,
    ) by {
        assert(g.blocks.contains_key(g.maps[i].device.name));
    }
    assert forall|i: int, k: int|
        0 <= i < n.disks.len() && 0 <= k < n.disks[i].children.len() implies (
    #[trigger] n.disks[i].children[k]).index < n.partitions.len() by {
        assert(n.disks[i].children[k] == g.disks[i].children[k]);
    }
    assert forall|i: int, k: int|
        0 <= i < n.disks.len() && 0 <= k < n.disks[i].device.children.len() implies (
    #[trigger] n.disks[i].device.children[k]).index < n.maps.len() by {
        assert(n.disks[i].device.children[k] == g.disks[i].device.children[k]);
    }
    lemma_insert_disk_children(g, disk);
    assert forall|p: int| 0 <= p < n.partitions.len() implies #[trigger] n.partition_has_parent(
        p,
    ) by {
        assert(g.partition_has_parent(p));
        let (d, k) = choose|d: int, k: int| #[trigger] g.partition_child(d, k, p);
        assert(n.partition_child(d, k, p));
    }
    assert forall|m: int| 0 <= m < n.maps.len() implies #[trigger] n.map_has_parent(m) by {
        assert(g.map_has_parent(m));
        let (on, k) = choose|on: BlockDevice, k: int| #[trigger] g.map_child(on, k, m);
        assert(n.map_child(on, k, m));
    }
}

/// A snapshot stays well formed when a partition without children comes in.
pub proof fn lemma_insert_partition_wf(g: Graph, part: PartitionView, parent: Seq<char>)
    requires
        g.wf(),
        g.partitions.len() < usize::MAX,
        part.device.children.len() == 0,
    ensures
        g.insert_partition(part, parent).wf(),
{
    let n = g.insert_partition(part, parent);
    if n != g {
        let h = PartitionHandle { index: g.partitions.len() as usize };
        assert(g.holds(g.blocks[parent]));
        assert(n.blocks == g.blocks.insert(part.device.name, BlockDevice::Partition(h)));
        assert(n.partitions == g.partitions.push(part));
        assert(n.maps == g.maps);
        assert(n.disks.len() == g.disks.len());
        assert forall|i: int| 0 <= i < n.disks.len() implies (#[trigger] n.disks[i]).device
            == g.disks[i].device by {}
        assert forall|name: Seq<char>| #[trigger] n.blocks.contains_key(name) implies n.holds(
            n.blocks[name],
        ) && n.device(n.blocks[name]).name == name by {
            if name != part.device.name {
                assert(g.blocks.contains_key(name));
                match g.blocks[name] {
                    BlockDevice::Disk(d) => {
                        assert(n.disks[d.index as int].device == g.disks[d.index as int].device);
                    },
                    _ => {},
                }
            }
        }
        assert forall|i: int| 0 <= i < n.disks.len() implies n.blocks.contains_key(
            (#[trigger] n.disks[i]).device.name,
        ) by {
            assert(g.blocks.contains_key(g.disks[i].device.name));
        }
        assert forall|i: int| 0 <= i < n.partitions.len() implies n.blocks.contains_key(
            (#[trigger] n.partitions[i]).device.name,
        ) by {
            if i < g.partitions.len() {
                assert(g.blocks.contains_key(g.partitions[i].device.name));
            }
        }
        assert forall|i: int| 0 <= i < n.maps.len() implies n.blocks.contains_key(
            (#[trigger] n.maps[i]).device.name,
        ) by {
            assert(g.blocks.contains_key(g.maps[i].device.name));
        }
        assert forall|i: int, k: int|
            0 <= i < n.disks.len() && 0 <= k < n.disks[i].children.len() implies (
        #[trigger] n.disks[i].children[k]).index < n.partitions.len() by {
            if k < g.disks[i].children.len() {
                assert(n.disks[i].children[k] == g.disks[i].children[k]);
            }
        }
        assert forall|i: int, k: int|
            0 <= i < n.disks.len() && 0 <= k < n.disks[i].device.children.len() implies (
        #[trigger] n.disks[i].device.children[k]).index < n.maps.len() by {
            assert(n.disks[i].device.children[k] == g.disks[i].device.children[k]);
        }
        assert forall|i: int, k: int|
            0 <= i < n.partitions.len() && 0 <= k < n.partitions[i].device.children.len() implies (
        #[trigger] n.partitions[i].device.children[k]).index < n.maps.len() by {
            assert(n.partitions[i].device.children[k] == g.partitions[i].device.children[k]);
        }
        lemma_insert_partition_children(g, part, parent);
        lemma_children_held(g);
        let d0 = g.blocks[parent]->Disk_0.index as int;
        let k0 = g.disks[d0].children.len() as int;
        assert forall|p: int| 0 <= p < n.partitions.len() implies #[trigger]
            n.partition_has_parent(p) by {
            if p < g.partitions.len() {
                assert(g.partition_has_parent(p));
                let (d, k) = choose|d: int, k: int| #[trigger] g.partition_child(d, k, p);
                assert(n.partition_child(d, k, p));
            } else {
                assert(n.partition_child(d0, k0, p));
            }
        }
        assert forall|m: int| 0 <= m < n.maps.len() implies #[trigger] n.map_has_parent(m) by {
            assert(g.map_has_parent(m));
            let (on, k) = choose|on: BlockDevice, k: int| #[trigger] g.map_child(on, k, m);
            assert(n.map_child(on, k, m));
        }
    }
}

/// A snapshot stays well formed when a device map without children comes
/// in.
pub proof fn lemma_insert_map_wf(g: Graph, map: DeviceMapView, parent: Seq<char>)
    requires
        g.wf(),
        g.maps.len() < usize::MAX,
        map.device.children.len() == 0,
    ensures
        g.insert_map(map, parent).wf(),
{
    let n = g.insert_map(map, parent);
    if g.blocks.contains_key(parent) {
        let h = DeviceMapHandle { index: g.maps.len() as usize };
        let m = Graph {
            blocks: g.blocks.insert(map.device.name, BlockDevice::DeviceMap(h)),
            maps: g.maps.push(map),
            ..g
        };
        assert(g.holds(g.blocks[parent]));
        assert(n.blocks == m.blocks);
        assert(n.disks.len() == m.disks.len());
        assert(n.partitions.len() == m.partitions.len());
        assert(n.maps.len() == m.maps.len());
        assert forall|i: int| 0 <= i < n.disks.len() implies (#[trigger] n.disks[i]).device.name
            == m.disks[i].device.name && n.disks[i].children == m.disks[i].children by {}
        assert forall|i: int| 0 <= i < n.partitions.len() implies (
        #[trigger] n.partitions[i]).device.name == m.partitions[i].device.name by {}
        assert forall|i: int| 0 <= i < n.maps.len() implies (#[trigger] n.maps[i]).device.name
            == m.maps[i].device.name by {}
        assert forall|name: Seq<char>| #[trigger] n.blocks.contains_key(name) implies n.holds(
            n.blocks[name],
        ) && n.device(n.blocks[name]).name == name by {
            if name != map.device.name {
                assert(g.blocks.contains_key(name));
                match g.blocks[name] {
                    BlockDevice::Disk(d) => {
                        assert(n.disks[d.index as int].device.name
                            == m.disks[d.index as int].device.name);
                    },
                    BlockDevice::Partition(p) => {
                        assert(n.partitions[p.index as int].device.name
                            == m.partitions[p.index as int].device.name);
                    },
                    BlockDevice::DeviceMap(d) => {
                        assert(n.maps[d.index as int].device.name
                            == m.maps[d.index as int].device.name);
                    },
                }
            } else {
                assert(n.maps[h.index as int].device.name == m.maps[h.index as int].device.name);
            }
        }
        assert forall|i: int| 0 <= i < n.disks.len() implies n.blocks.contains_key(
            (#[trigger] n.disks[i]).device.name,
        ) by {
            assert(g.blocks.contains_key(g.disks[i].device.name));
        }
        assert forall|i: int| 0 <= i < n.partitions.len() implies n.blocks.contains_key(
            (#[trigger] n.partitions[i]).device.name,
        ) by {
            assert(g.blocks.contains_key(g.partitions[i].device.name));
        }
        assert forall|i: int| 0 <= i < n.maps.len() implies n.blocks.contains_key(
            (#[trigger] n.maps[i]).device.name,
        ) by {
            if i < g.maps.len() {
                assert(g.blocks.contains_key(g.maps[i].device.name));
            }
        }
        assert forall|i: int, k: int|
            0 <= i < n.disks.len() && 0 <= k < n.disks[i].children.len() implies (
        #[trigger] n.disks[i].children[k]).index < n.partitions.len() by {
            assert(n.disks[i].children[k] == g.disks[i].children[k]);
        }
        assert forall|i: int, k: int|
            0 <= i < n.disks.len() && 0 <= k < n.disks[i].device.children.len() implies (
        #[trigger] n.disks[i].device.children[k]).index < n.maps.len() by {
            if k < g.disks[i].device.children.len() {
                assert(n.disks[i].device.children[k] == g.disks[i].device.children[k]);
            }
        }
        assert forall|i: int, k: int|
            0 <= i < n.partitions.len() && 0 <= k < n.partitions[i].device.children.len() implies (
        #[trigger] n.partitions[i].device.children[k]).index < n.maps.len() by {
            if k < g.partitions[i].device.children.len() {
                assert(n.partitions[i].device.children[k] == g.partitions[i].device.children[k]);
            }
        }
        assert forall|i: int, k: int|
            0 <= i < n.maps.len() && 0 <= k < n.maps[i].device.children.len() implies i < (
        #[trigger] n.maps[i].device.children[k]).index < n.maps.len() by {
            if i < g.maps.len() && k < g.maps[i].device.children.len() {
                assert(n.maps[i].device.children[k] == g.maps[i].device.children[k]);
            }
        }
        lemma_insert_map_children(g, map, parent);
        lemma_children_held(g);
        let top = g.blocks[parent];
        let k0 = g.device(top).children.len() as int;
        assert forall|p: int| 0 <= p < n.partitions.len() implies #[trigger]
            n.partition_has_parent(p) by {
            assert(g.partition_has_parent(p));
            let (d, k) = choose|d: int, k: int| #[trigger] g.partition_child(d, k, p);
            assert(n.partition_child(d, k, p));
        }
        assert forall|m: int| 0 <= m < n.maps.len() implies #[trigger] n.map_has_parent(m) by {
            if m < g.maps.len() {
                assert(g.map_has_parent(m));
                let (on, k) = choose|on: BlockDevice, k: int| #[trigger] g.map_child(on, k, m);
                assert(n.map_child(on, k, m));
            } else {
                assert(n.map_child(top, k0, m));
            }
        }
    }
}

/// Nodes only come in, and a node that is there only gets children: the
/// snapshot after a node came in, or was dropped, grew from the one before.
pub proof fn lemma_insert_grew(
    g: Graph,
    disk: DiskView,
    part: PartitionView,
    map: DeviceMapView,
    parent: Seq<char>,
)
    requires
        g.wf(),
    ensures
        g.insert_disk(disk).grew_from(g),
        g.insert_partition(part, parent).grew_from(g),
        g.insert_map(map, parent).grew_from(g),
{
    assert(g.grew_from(g));
    let a = g.insert_disk(disk);
    assert(a.grew_from(g));
    let b = g.insert_partition(part, parent);
    if b != g {
        assert(g.holds(g.blocks[parent]));
        assert forall|i: int| 0 <= i < g.disks.len() implies {
            let now = #[trigger] b.disks[i];
            let then = g.disks[i];
            &&& now.device.grew_from(then.device)
            &&& now.sector_size == then.sector_size
            &&& now.model == then.model
            &&& now.serial == then.serial
            &&& now.table == then.table
            &&& then.children.is_prefix_of(now.children)
        } by {}
        assert(b.grew_from(g));
    }
    let c = g.insert_map(map, parent);
    if g.blocks.contains_key(parent) {
        assert(g.holds(g.blocks[parent]));
        assert forall|i: int| 0 <= i < g.disks.len() implies {
            let now = #[trigger] c.disks[i];
            let then = g.disks[i];
            &&& now.device.grew_from(then.device)
            &&& now.sector_size == then.sector_size
            &&& now.model == then.model
            &&& now.serial == then.serial
            &&& now.table == then.table
            &&& then.children.is_prefix_of(now.children)
        } by {}
        assert forall|i: int| 0 <= i < g.partitions.len() implies {
            let now = #[trigger] c.partitions[i];
            let then = g.partitions[i];
            &&& now.device.grew_from(then.device)
            &&& now.offset == then.offset
            &&& now.uuid == then.uuid
        } by {}
        assert forall|i: int| 0 <= i < g.maps.len() implies {
            let now = #[trigger] c.maps[i];
            let then = g.maps[i];
            &&& now.device.grew_from(then.device)
            &&& now.name == then.name
            &&& now.lv_name == then.lv_name
            &&& now.vg_name == then.vg_name
        } by {}
        assert(c.grew_from(g));
    }
}

/// Growing goes on: what grew from a snapshot that grew from another grew
/// from that other.
pub proof fn lemma_grew_transitive(a: Graph, b: Graph, c: Graph)
    requires
        b.grew_from(a),
        c.grew_from(b),
    ensures
        c.grew_from(a),
{
    assert forall|i: int| 0 <= i < a.disks.len() implies {
        let now = #[trigger] c.disks[i];
        let then = a.disks[i];
        &&& now.device.grew_from(then.device)
        &&& now.sector_size == then.sector_size
        &&& now.model == then.model
        &&& now.serial == then.serial
        &&& now.table == then.table
        &&& then.children.is_prefix_of(now.children)
    } by {
        let mid = b.disks[i];
    }
    assert forall|i: int| 0 <= i < a.partitions.len() implies {
        let now = #[trigger] c.partitions[i];
        let then = a.partitions[i];
        &&& now.device.grew_from(then.device)
        &&& now.offset == then.offset
        &&& now.uuid == then.uuid
    } by {
        let mid = b.partitions[i];
    }
    assert forall|i: int| 0 <= i < a.maps.len() implies {
        let now = #[trigger] c.maps[i];
        let then = a.maps[i];
        &&& now.device.grew_from(then.device)
        &&& now.name == then.name
        &&& now.lv_name == then.lv_name
        &&& now.vg_name == then.vg_name
    } by {
        let mid = b.maps[i];
    }
}

/// A linked snapshot stays linked when a disk comes in under a new name.
pub proof fn lemma_insert_disk_linked(g: Graph, disk: DiskView)
    requires
        g.wf(),
        g.linked(),
        g.disks.len() < usize::MAX,
        !g.blocks.contains_key(disk.device.name),
    ensures
        g.insert_disk(disk).linked(),
{
    let n = g.insert_disk(disk);
    assert forall|i: int| 0 <= i < n.disks.len() implies n.blocks[(
    #[trigger] n.disks[i]).device.name] == BlockDevice::Disk(DiskHandle { index: i as usize }) by {
        if i < g.disks.len() {
            assert(g.blocks.contains_key(g.disks[i].device.name));
        }
    }
    assert forall|i: int| 0 <= i < n.partitions.len() implies n.blocks[(
    #[trigger] n.partitions[i]).device.name] == BlockDevice::Partition(
        PartitionHandle { index: i as usize },
    ) by {
        assert(g.blocks.contains_key(g.partitions[i].device.name));
    }
    assert forall|i: int| 0 <= i < n.maps.len() implies n.blocks[(
    #[trigger] n.maps[i]).device.name] == BlockDevice::DeviceMap(
        DeviceMapHandle { index: i as usize },
    ) by {
        assert(g.blocks.contains_key(g.maps[i].device.name));
    }
}

/// A linked snapshot stays linked when a partition comes in under a new
/// name.
pub proof fn lemma_insert_partition_linked(g: Graph, part: PartitionView, parent: Seq<char>)
    requires
        g.wf(),
        g.linked(),
        g.partitions.len() < usize::MAX,
        !g.blocks.contains_key(part.device.name),
    ensures
        g.insert_partition(part, parent).linked(),
{
    let n = g.insert_partition(part, parent);
    if n != g {
        assert(g.holds(g.blocks[parent]));
        assert(n.blocks == g.blocks.insert(
            part.device.name,
            BlockDevice::Partition(PartitionHandle { index: g.partitions.len() as usize }),
        ));
        assert(n.partitions == g.partitions.push(part));
        assert(n.maps == g.maps);
        assert(n.disks.len() == g.disks.len());
        assert forall|i: int| 0 <= i < n.disks.len() implies n.blocks[(
        #[trigger] n.disks[i]).device.name] == BlockDevice::Disk(
            DiskHandle { index: i as usize },
        ) by {
            assert(g.blocks.contains_key(g.disks[i].device.name));
            assert(n.disks[i].device == g.disks[i].device);
        }
        assert forall|i: int| 0 <= i < n.partitions.len() implies n.blocks[(
        #[trigger] n.partitions[i]).device.name] == BlockDevice::Partition(
            PartitionHandle { index: i as usize },
        ) by {
            if i < g.partitions.len() {
                assert(g.blocks.contains_key(g.partitions[i].device.name));
            }
        }
        assert forall|i: int| 0 <= i < n.maps.len() implies n.blocks[(
        #[trigger] n.maps[i]).device.name] == BlockDevice::DeviceMap(
            DeviceMapHandle { index: i as usize },
        ) by {
            assert(g.blocks.contains_key(g.maps[i].device.name));
        }
    }
}

/// A linked snapshot stays linked when a device map comes in under a new
/// name.
pub proof fn lemma_insert_map_linked(g: Graph, map: DeviceMapView, parent: Seq<char>)
    requires
        g.wf(),
        g.linked(),
        g.maps.len() < usize::MAX,
        !g.blocks.contains_key(map.device.name),
    ensures
        g.insert_map(map, parent).linked(),
{
    let n = g.insert_map(map, parent);
    if g.blocks.contains_key(parent) {
        let h = DeviceMapHandle { index: g.maps.len() as usize };
        let m = Graph {
            blocks: g.blocks.insert(map.device.name, BlockDevice::DeviceMap(h)),
            maps: g.maps.push(map),
            ..g
        };
        assert(g.holds(g.blocks[parent]));
        assert(n.blocks == m.blocks);
        assert(n.disks.len() == m.disks.len());
        assert(n.partitions.len() == m.partitions.len());
        assert(n.maps.len() == m.maps.len());
        assert forall|i: int| 0 <= i < n.disks.len() implies n.blocks[(
        #[trigger] n.disks[i]).device.name] == BlockDevice::Disk(
            DiskHandle { index: i as usize },
        ) by {
            assert(g.blocks.contains_key(g.disks[i].device.name));
            assert(n.disks[i].device.name == m.disks[i].device.name);
        }
        assert forall|i: int| 0 <= i < n.partitions.len() implies n.blocks[(
        #[trigger] n.partitions[i]).device.name] == BlockDevice::Partition(
            PartitionHandle { index: i as usize },
        ) by {
            assert(g.blocks.contains_key(g.partitions[i].device.name));
            assert(n.partitions[i].device.name == m.partitions[i].device.name);
        }
        assert forall|i: int| 0 <= i < n.maps.len() implies n.blocks[(
        #[trigger] n.maps[i]).device.name] == BlockDevice::DeviceMap(
            DeviceMapHandle { index: i as usize },
        ) by {
            assert(n.maps[i].device.name == m.maps[i].device.name);
            if i < g.maps.len() {
                assert(g.blocks.contains_key(g.maps[i].device.name));
            }
        }
    }
}

/// Graph consistency. In a well-formed snapshot every handle in a child
/// list refers to a node whose name the index holds; where the snapshot is
/// linked, the index holds under that name this very handle.
pub proof fn lemma_children_indexed(g: Graph)
    requires
        g.wf(),
    ensures
        forall|i: int, k: int|
            0 <= i < g.disks.len() && 0 <= k < g.disks[i].children.len() ==> {
                let child = BlockDevice::Partition(#[trigger] g.disks[i].children[k]);
                g.holds(child) && g.blocks.contains_key(g.device(child).name) && (g.linked()
                    ==> g.blocks[g.device(child).name] == child)
            },
        forall|i: int, k: int|
            0 <= i < g.disks.len() && 0 <= k < g.disks[i].device.children.len() ==> {
                let child = BlockDevice::DeviceMap(#[trigger] g.disks[i].device.children[k]);
                g.holds(child) && g.blocks.contains_key(g.device(child).name) && (g.linked()
                    ==> g.blocks[g.device(child).name] == child)
            },
        forall|i: int, k: int|
            0 <= i < g.partitions.len() && 0 <= k < g.partitions[i].device.children.len() ==> {
                let child = BlockDevice::DeviceMap(#[trigger] g.partitions[i].device.children[k]);
                g.holds(child) && g.blocks.contains_key(g.device(child).name) && (g.linked()
                    ==> g.blocks[g.device(child).name] == child)
            },
        forall|i: int, k: int|
            0 <= i < g.maps.len() && 0 <= k < g.maps[i].device.children.len() ==> {
                let child = BlockDevice::DeviceMap(#[trigger] g.maps[i].device.children[k]);
                g.holds(child) && g.blocks.contains_key(g.device(child).name) && (g.linked()
                    ==> g.blocks[g.device(child).name] == child)
            },
{
    assert forall|i: int, k: int|
        0 <= i < g.disks.len() && 0 <= k < g.disks[i].children.len() implies {
        let child = BlockDevice::Partition(#[trigger] g.disks[i].children[k]);
        g.holds(child) && g.blocks.contains_key(g.device(child).name) && (g.linked()
            ==> g.blocks[g.device(child).name] == child)
    } by {
        let h = g.disks[i].children[k];
        assert(g.blocks.contains_key(g.partitions[h.index as int].device.name));
    }
    assert forall|i: int, k: int|
        0 <= i < g.disks.len() && 0 <= k < g.disks[i].device.children.len() implies {
        let child = BlockDevice::DeviceMap(#[trigger] g.disks[i].device.children[k]);
        g.holds(child) && g.blocks.contains_key(g.device(child).name) && (g.linked()
            ==> g.blocks[g.device(child).name] == child)
    } by {
        let h = g.disks[i].device.children[k];
        assert(g.blocks.contains_key(g.maps[h.index as int].device.name));
    }
    assert forall|i: int, k: int|
        0 <= i < g.partitions.len() && 0 <= k < g.partitions[i].device.children.len() implies {
        let child = BlockDevice::DeviceMap(#[trigger] g.partitions[i].device.children[k]);
        g.holds(child) && g.blocks.contains_key(g.device(child).name) && (g.linked()
            ==> g.blocks[g.device(child).name] == child)
    } by {
        let h = g.partitions[i].device.children[k];
        assert(g.blocks.contains_key(g.maps[h.index as int].device.name));
    }
    assert forall|i: int, k: int|
        0 <= i < g.maps.len() && 0 <= k < g.maps[i].device.children.len() implies {
        let child = BlockDevice::DeviceMap(#[trigger] g.maps[i].device.children[k]);
        g.holds(child) && g.blocks.contains_key(g.device(child).name) && (g.linked()
            ==> g.blocks[g.device(child).name] == child)
    } by {
        let h = g.maps[i].device.children[k];
        assert(g.blocks.contains_key(g.maps[h.index as int].device.name));
    }
}

/// The device maps that stand on a node of a well-formed snapshot are
/// nodes of it.
pub proof fn lemma_roots_in_range(g: Graph, dev: BlockDevice)
    requires
        g.wf(),
        g.holds(dev),
    ensures
        forall|k: int|
            0 <= k < g.device(dev).children.len() ==> (#[trigger] g.device(dev).children[k]).index
                < g.maps.len(),
{
    assert forall|k: int| 0 <= k < g.device(dev).children.len() implies (#[trigger] g.device(
        dev,
    ).children[k]).index < g.maps.len() by {
        match dev {
            BlockDevice::Disk(h) => {
                assert(g.disks[h.index as int].device.children[k].index < g.maps.len());
            },
            BlockDevice::Partition(h) => {
                assert(g.partitions[h.index as int].device.children[k].index < g.maps.len());
            },
            BlockDevice::DeviceMap(h) => {
                assert(g.maps[h.index as int].device.children[k].index < g.maps.len());
            },
        }
    }
}

/// A handle is in a list where the list holds its place.
pub proof fn lemma_contains_place(list: Seq<DeviceMapHandle>, j: int)
    requires
        0 <= j <= usize::MAX,
    ensures
        list.contains(DeviceMapHandle { index: j as usize }) <==> exists|i: int|
            0 <= i < list.len() && (#[trigger] list[i]).index == j,
{
    let h = DeviceMapHandle { index: j as usize };
    if list.contains(h) {
        let i = choose|i: int| 0 <= i < list.len() && list[i] == h;
        assert(list[i].index == j);
    }
    if exists|i: int| 0 <= i < list.len() && (#[trigger] list[i]).index == j {
        let i = choose|i: int| 0 <= i < list.len() && (#[trigger] list[i]).index == j;
        assert(list[i] == h);
    }
}

/// What one more place adds to what is seen: the children of the device
/// map at that place, where it stands on `roots`. And a device map stands
/// on `roots` where it is seen by the time its place is come to.
pub proof fn lemma_seen_step(g: Graph, roots: Seq<DeviceMapHandle>, h: int, j: int)
    requires
        0 <= h,
    ensures
        g.seen(roots, h + 1, j) == (g.seen(roots, h, j) || (g.reached(roots, h)
            && g.maps[h].device.children.contains(DeviceMapHandle { index: j as usize }))),
        0 <= j < g.maps.len() ==> g.reached(roots, j) == g.seen(roots, j, j),
{
    let hj = DeviceMapHandle { index: j as usize };
    if g.seen(roots, h + 1, j) && !roots.contains(hj) {
        let p = choose|p: int|
            0 <= p < h + 1 && g.reached(roots, p) && (
            #[trigger] g.maps[p]).device.children.contains(hj);
        if p < h {
            assert(g.seen(roots, h, j));
        }
    }
    if g.seen(roots, h, j) && !roots.contains(hj) {
        let p = choose|p: int|
            0 <= p < h && g.reached(roots, p) && (#[trigger] g.maps[p]).device.children.contains(
                hj,
            );
        assert(0 <= p < h + 1 && g.reached(roots, p) && g.maps[p].device.children.contains(hj));
    }
    if g.reached(roots, h) && g.maps[h].device.children.contains(hj) {
        assert(0 <= h < h + 1 && g.reached(roots, h) && g.maps[h].device.children.contains(hj));
    }
}

/// What stands on `roots` is closed under children: each of `roots` is
/// reached, and so is every child of a device map that is reached.
pub proof fn lemma_reached_children(g: Graph, roots: Seq<DeviceMapHandle>, p: int, k: int)
    requires
        g.wf(),
        forall|r: int| 0 <= r < roots.len() ==> (#[trigger] roots[r]).index < g.maps.len(),
    ensures
        0 <= k < roots.len() ==> g.reached(roots, roots[k].index as int),
        g.reached(roots, p) && 0 <= k < g.maps[p].device.children.len() ==> g.reached(
            roots,
            g.maps[p].device.children[k].index as int,
        ),
{
    if 0 <= k < roots.len() {
        let h = roots[k].index as int;
        assert(roots[k] == DeviceMapHandle { index: h as usize });
    }
    if g.reached(roots, p) && 0 <= k < g.maps[p].device.children.len() {
        let child = g.maps[p].device.children[k];
        let h = child.index as int;
        assert(p < child.index < g.maps.len());
        assert(child == DeviceMapHandle { index: h as usize });
        assert(0 <= p < h && g.reached(roots, p) && g.maps[p].device.children.contains(child));
    }
}

/// Nothing else stands on `roots`: a device map that is reached is one of
/// `roots` or a child of one that is reached.
pub proof fn lemma_reached_parent(g: Graph, roots: Seq<DeviceMapHandle>, h: int)
    requires
        g.reached(roots, h),
    ensures
        roots.contains(DeviceMapHandle { index: h as usize }) || exists|p: int|
            g.reached(roots, p) && (#[trigger] g.maps[p]).device.children.contains(
                DeviceMapHandle { index: h as usize },
            ),
{
    let hh = DeviceMapHandle { index: h as usize };
    if !roots.contains(hh) {
        let p = choose|p: int|
            0 <= p < h && g.reached(roots, p) && (#[trigger] g.maps[p]).device.children.contains(
                hh,
            );
        assert(g.reached(roots, p) && g.maps[p].device.children.contains(hh));
    }
}

/// The cascade is complete: the list of LUKS devices below holds the name
/// of a device map exactly where that one stands on `roots` and holds a
/// LUKS container.
pub proof fn lemma_luks_below(g: Graph, roots: Seq<DeviceMapHandle>, n: nat, name: Seq<char>)
    ensures
        g.luks_below(roots, n).contains(name) <==> exists|h: int|
            0 <= h < n && g.reached(roots, h) && is_luks((#[trigger] g.maps[h]).device)
                && g.maps[h].device.name == name,
    decreases n,
{
    if n > 0 {
        let rest = g.luks_below(roots, (n - 1) as nat);
        let all = g.luks_below(roots, n);
        let device = g.maps[n - 1].device;
        lemma_luks_below(g, roots, (n - 1) as nat, name);
        if all.contains(name) {
            let i = choose|i: int| 0 <= i < all.len() && all[i] == name;
            if i < rest.len() {
                assert(rest[i] == name);
                let h = choose|h: int|
                    0 <= h < n - 1 && g.reached(roots, h) && is_luks((#[trigger] g.maps[h]).device)
                        && g.maps[h].device.name == name;
                assert(0 <= h < n && g.reached(roots, h) && is_luks(g.maps[h].device)
                    && g.maps[h].device.name == name);
            } else {
                assert(0 <= n - 1 < n && g.reached(roots, n - 1) && is_luks(g.maps[n - 1].device)
                    && g.maps[n - 1].device.name == name);
            }
        }
        if exists|h: int|
            0 <= h < n && g.reached(roots, h) && is_luks((#[trigger] g.maps[h]).device)
                && g.maps[h].device.name == name {
            let h = choose|h: int|
                0 <= h < n && g.reached(roots, h) && is_luks((#[trigger] g.maps[h]).device)
                    && g.maps[h].device.name == name;
            if h < n - 1 {
                assert(rest.contains(name));
                let i = choose|i: int| 0 <= i < rest.len() && rest[i] == name;
                assert(all[i] == name);
            } else {
                assert(all[all.len() - 1] == name);
            }
        }
    }
}

/// The cascade is complete. What there is to do to lock a device names the
/// device itself first among the LUKS devices, then every device map that
/// stands on it and holds a LUKS container, and among the volume groups the
/// group of every device map that stands on it.
pub proof fn lemma_lock_plan_complete(
    g: Graph,
    device: Seq<char>,
    vgs: Seq<Seq<char>>,
    luks: Seq<Seq<char>>,
    h: int,
)
    requires
        g.lock_plan(device, vgs, luks),
        g.reached(g.device(g.blocks[device]).children, h),
    ensures
        luks.len() > 0 && luks[0] == device,
        is_luks(g.maps[h].device) ==> luks.contains(g.maps[h].device.name),
        g.maps[h].vg_name matches Some(vg) ==> vgs.contains(vg),
{
    let roots = g.device(g.blocks[device]).children;
    let below = g.luks_below(roots, g.maps.len());
    if is_luks(g.maps[h].device) {
        let name = g.maps[h].device.name;
        lemma_luks_below(g, roots, g.maps.len(), name);
        assert(0 <= h < g.maps.len() && g.reached(roots, h) && is_luks(g.maps[h].device)
            && g.maps[h].device.name == name);
        assert(below.contains(name));
        let i = choose|i: int| 0 <= i < below.len() && below[i] == name;
        assert(luks[i + 1] == name);
    }
    match g.maps[h].vg_name {
        Some(vg) => {
            assert(0 <= h < g.maps.len() && g.reached(roots, h) && g.maps[h].vg_name == Some(vg));
            assert(g.group_below(roots, g.maps.len() as int, vg));
        },
        None => {},
    }
}

/// A search has one answer: two names that are both the first to stand for
/// a node with `text` as its `field` are one name.
pub proof fn lemma_first_hit_unique(
    g: Graph,
    field: Field,
    text: Seq<char>,
    a: Seq<char>,
    b: Seq<char>,
)
    requires
        g.first_hit(field, text, a),
        g.first_hit(field, text, b),
    ensures
        a == b,
{
    assert(g.hit(field, text, a));
    assert(g.hit(field, text, b));
    lemma_name_lt_total(a, b);
}

/// Where one node alone has `text` as its `field`, a search for it finds
/// the name of that node, and where none has, it finds nothing.
pub proof fn lemma_sole_hit(g: Graph, field: Field, text: Seq<char>, name: Seq<char>)
    requires
        g.hit(field, text, name),
        forall|other: Seq<char>| #[trigger] g.hit(field, text, other) ==> other == name,
    ensures
        g.first_hit(field, text, name),
        !g.no_hit(field, text),
        forall|other: Seq<char>| #[trigger] g.first_hit(field, text, other) ==> other == name,
{
    crate::text::lemma_name_lt_irreflexive(name);
}

} // verus!
