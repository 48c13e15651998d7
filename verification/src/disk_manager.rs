//! The disk manager: the one owner of a snapshot, through which every read
//! and every change of the device graph goes.
//!
//! A shared borrow of the manager reads; a change needs the exclusive
//! borrow, so no two changes and no change and a read can overlap.

use crate::block_types::BlockDevice;
use crate::block_types::Device;
use crate::block_types::DeviceMap;
use crate::block_types::DeviceMapHandle;
use crate::block_types::Disk;
use crate::block_types::DiskHandle;
use crate::block_types::PartitionEntry;
use crate::block_types::PartitionHandle;
use crate::encryption::EncryptionError;
use crate::encryption::LuksLock;
use crate::encryption::LuksUnlock;
use crate::encryption::LuksUnlockView;
use crate::encryption::UnlockStage;
use crate::graph::is_luks;
use crate::graph::lemma_contains_place;
use crate::graph::lemma_insert_disk_wf;
use crate::graph::lemma_insert_map_wf;
use crate::graph::lemma_insert_partition_wf;
use crate::graph::lemma_roots_in_range;
use crate::graph::lemma_seen_step;
use crate::graph::Field;
use crate::graph::Graph;
use crate::name_index::lemma_map_of_entry;
use crate::name_index::lemma_map_of_len;
use crate::name_index::lemma_map_of_key;
use crate::name_index::rising;
use crate::name_index::NameIndex;
use crate::text::lemma_name_lt_total;
use crate::text::str_eq;
use crate::text::texts_view;
use crate::udev::records_view;
use crate::udev::UDev;
use vstd::prelude::*;

verus! {

pub struct DiskManager {
    blocks: NameIndex<BlockDevice>,
    disks: Vec<Disk>,
    partitions: Vec<PartitionEntry>,
    maps: Vec<DeviceMap>,
}

impl View for DiskManager {
    type V = Graph;

    closed spec fn view(&self) -> Graph {
        Graph {
            blocks: self.blocks@,
            disks: Seq::new(self.disks@.len(), |i: int| self.disks@[i]@),
            partitions: Seq::new(self.partitions@.len(), |i: int| self.partitions@[i]@),
            maps: Seq::new(self.maps@.len(), |i: int| self.maps@[i]@),
        }
    }
}

/// One of the first `k` handles of the list has the place `j`.
spec fn among(list: Seq<DeviceMapHandle>, k: int, j: int) -> bool {
    exists|i: int| 0 <= i < k && (#[trigger] list[i]).index == j
}

proof fn lemma_among_step(list: Seq<DeviceMapHandle>, k: int, j: int)
    requires
        0 <= k < list.len(),
    ensures
        among(list, k + 1, j) == (among(list, k, j) || list[k].index == j),
{
    if among(list, k, j) {
        let i = choose|i: int| 0 <= i < k && (#[trigger] list[i]).index == j;
        assert(0 <= i < k + 1 && list[i].index == j);
    }
    if list[k].index == j {
        assert(0 <= k < k + 1 && list[k].index == j);
    }
}

/// Marks the place of every handle of the list.
fn mark_all(marks: &mut Vec<bool>, list: &Vec<DeviceMapHandle>)
    requires
        forall|k: int| 0 <= k < list@.len() ==> (#[trigger] list@[k]).index < old(marks)@.len(),
    ensures
        final(marks)@.len() == old(marks)@.len(),
        forall|j: int|
            0 <= j < old(marks)@.len() ==> final(marks)@[j] == (old(marks)@[j] || list@.contains(
                DeviceMapHandle { index: j as usize },
            )),
{
    let ghost start = marks@;
    let n = marks.len();
    let mut k: usize = 0;
    while k < list.len()
        invariant
            k <= list.len(),
            n == start.len(),
            marks@.len() == n,
            forall|k: int| 0 <= k < list@.len() ==> (#[trigger] list@[k]).index < n,
            forall|j: int|
                0 <= j < n ==> (#[trigger] marks@[j]) == (start[j] || among(list@, k as int, j)),
        decreases list.len() - k,
    {
        let c = list[k].index;
        marks[c] = true;
        proof {
            assert forall|j: int| 0 <= j < n implies (#[trigger] marks@[j]) == (start[j] || among(
                list@,
                k + 1,
                j,
            )) by {
                lemma_among_step(list@, k as int, j);
            }
        }
        k += 1;
    }
    proof {
        assert forall|j: int| 0 <= j < n implies marks@[j] == (start[j] || list@.contains(
            DeviceMapHandle { index: j as usize },
        )) by {
            lemma_contains_place(list@, j);
        }
    }
}

impl DiskManager {
    /// The snapshot is well formed, and the index sorted.
    pub closed spec fn wf(&self) -> bool {
        self.blocks.wf() && self@.wf()
    }

    /// What `wf` says of the snapshot.
    pub proof fn lemma_wf(&self)
        requires
            self.wf(),
        ensures
            self@.wf(),
    {
    }

    /// A manager without devices.
    pub fn new() -> (r: Self)
        ensures
            r.wf(),
            r@ == Graph::empty(),
    {
        let r = DiskManager {
            blocks: NameIndex::new(),
            disks: Vec::new(),
            partitions: Vec::new(),
            maps: Vec::new(),
        };
        assert(r@.disks =~= Seq::empty());
        assert(r@.partitions =~= Seq::empty());
        assert(r@.maps =~= Seq::empty());
        r
    }

    /// Forgets every device.
    pub fn clear(&mut self)
        ensures
            final(self).wf(),
            final(self)@ == Graph::empty(),
    {
        self.blocks.clear();
        self.disks.clear();
        self.partitions.clear();
        self.maps.clear();
        assert(self@.disks =~= Seq::empty());
        assert(self@.partitions =~= Seq::empty());
        assert(self@.maps =~= Seq::empty());
    }

    /// The number of names in the index.
    pub fn len(&self) -> (n: usize)
        requires
            self.wf(),
        ensures
            n == self@.blocks.dom().len(),
            n == self.names().len(),
    {
        proof {
            lemma_map_of_len(self.blocks.pairs());
            self.blocks.lemma_names();
        }
        self.blocks.len()
    }

    /// The names of the index, in their order.
    pub closed spec fn names(&self) -> Seq<Seq<char>> {
        self.blocks.names()
    }

    /// The names of the index rise strictly, and they are the names for
    /// which the snapshot holds a node.
    pub proof fn lemma_names(&self)
        requires
            self.wf(),
        ensures
            rising(self.names()),
            forall|i: int|
                0 <= i < self.names().len() ==> self@.blocks.contains_key(
                    #[trigger] self.names()[i],
                ),
            forall|name: Seq<char>|
                self@.blocks.contains_key(name) ==> self.names().contains(name),
            self.names().len() == self@.blocks.dom().len(),
    {
        self.blocks.lemma_names();
        lemma_map_of_len(self.blocks.pairs());
    }

    /// The name at place `i` of the index, with the handle of its node.
    pub fn entry(&self, i: usize) -> (r: (&str, BlockDevice))
        requires
            self.wf(),
            i < self.names().len(),
        ensures
            r.0@ == self.names()[i as int],
            self@.blocks.contains_key(r.0@),
            r.1 == self@.blocks[r.0@],
            self@.holds(r.1),
    {
        proof {
            self.blocks.lemma_names();
        }
        (self.blocks.name_at(i).as_str(), self.blocks.block_at(i))
    }

    /// The disk behind a handle.
    pub fn disk(&self, h: DiskHandle) -> (r: &Disk)
        requires
            h.index < self@.disks.len(),
        ensures
            r@ == self@.disks[h.index as int],
    {
        &self.disks[h.index]
    }

    /// The partition behind a handle.
    pub fn partition(&self, h: PartitionHandle) -> (r: &PartitionEntry)
        requires
            h.index < self@.partitions.len(),
        ensures
            r@ == self@.partitions[h.index as int],
    {
        &self.partitions[h.index]
    }

    /// The device map behind a handle.
    pub fn device_map(&self, h: DeviceMapHandle) -> (r: &DeviceMap)
        requires
            h.index < self@.maps.len(),
        ensures
            r@ == self@.maps[h.index as int],
    {
        &self.maps[h.index]
    }

    /// Whether the handle refers to a node of this snapshot.
    pub fn holds(&self, dev: &BlockDevice) -> (r: bool)
        ensures
            r == self@.holds(*dev),
    {
        match dev {
            BlockDevice::Disk(h) => h.index < self.disks.len(),
            BlockDevice::Partition(h) => h.index < self.partitions.len(),
            BlockDevice::DeviceMap(h) => h.index < self.maps.len(),
        }
    }

    /// Every block device has a `device` field.
    pub fn device_from_block(&self, dev: &BlockDevice) -> (r: &Device)
        requires
            self@.holds(*dev),
        ensures
            r@ == self@.device(*dev),
    {
        match dev {
            BlockDevice::Disk(h) => &self.disks[h.index].device,
            BlockDevice::Partition(h) => &self.partitions[h.index].device,
            BlockDevice::DeviceMap(h) => &self.maps[h.index].device,
        }
    }

    /// Locate a block by its `DEVNAME`.
    pub fn block_by_devname(&self, name: &str) -> (r: Option<BlockDevice>)
        requires
            self.wf(),
        ensures
            r is Some <==> self@.blocks.contains_key(name@),
            r matches Some(dev) ==> dev == self@.blocks[name@] && self@.holds(dev)
                && self@.device(dev).name == name@,
    {
        self.blocks.get(name)
    }

    /// Reload block device information from what a scan yielded: the
    /// snapshot is emptied and then built from the records of the scan, one
    /// after the other. A scan that failed leaves it empty.
    pub fn reload(&mut self, udev: &UDev)
        ensures
            final(self).wf(),
            final(self)@ == udev@.build(),
    {
        self.clear();
        let records = match &udev.scan {
            Some(records) => records,
            None => return ,
        };
        let ghost all = records_view(records@);
        let mut i: usize = 0;
        while i < records.len()
            invariant
                i <= records.len(),
                all == records_view(records@),
                udev@.scan == Some(all),
                self.wf(),
                self@ == udev@.grown(all, i as nat),
            decreases records.len() - i,
        {
            udev.append(self, &records[i]);
            i += 1;
        }
    }

    /// Whether the node `dev` has `text` as its `field`.
    fn answers(&self, field: Field, text: &str, dev: BlockDevice) -> (r: bool)
        requires
            self@.holds(dev),
        ensures
            r == self@.answers(field, text@, dev),
    {
        match field {
            Field::PartitionUuid => match dev {
                BlockDevice::Partition(h) => str_eq(self.partitions[h.index].uuid.as_str(), text),
                _ => false,
            },
            Field::FilesystemUuid => match &self.device_from_block(&dev).fs {
                Some(fs) => str_eq(fs.uuid.as_str(), text),
                None => false,
            },
            Field::MapperName => match dev {
                BlockDevice::DeviceMap(h) => str_eq(self.maps[h.index].name.as_str(), text),
                _ => false,
            },
            Field::LogicalVolume => match dev {
                BlockDevice::DeviceMap(h) => match &self.maps[h.index].lv_name {
                    Some(lv) => str_eq(lv.as_str(), text),
                    None => false,
                },
                _ => false,
            },
            Field::VolumeFilesystem => match dev {
                BlockDevice::DeviceMap(_) => false,
                _ => match &self.device_from_block(&dev).fs {
                    Some(fs) => str_eq(fs.type_.as_str(), text),
                    None => false,
                },
            },
        }
    }

    /// The place in the index of the first name whose node has `text` as
    /// its `field`.
    fn first_hit(&self, field: Field, text: &str) -> (r: Option<usize>)
        requires
            self.wf(),
        ensures
            match r {
                Some(i) => i < self.blocks.pairs().len() && self@.first_hit(
                    field,
                    text@,
                    self.blocks.pairs()[i as int].0,
                ) && self@.blocks[self.blocks.pairs()[i as int].0]
                    == self.blocks.pairs()[i as int].1,
                None => self@.no_hit(field, text@),
            },
    {
        let ghost pairs = self.blocks.pairs();
        let mut i: usize = 0;
        while i < self.blocks.len()
            invariant
                self.wf(),
                pairs == self.blocks.pairs(),
                i <= pairs.len(),
                forall|j: int| 0 <= j < i ==> !self@.answers(field, text@, pairs[j].1),
            decreases pairs.len() - i,
        {
            let dev = self.blocks.block_at(i);
            proof {
                lemma_map_of_entry(pairs, i as int);
            }
            if self.answers(field, text, dev) {
                proof {
                    let name = pairs[i as int].0;
                    assert forall|other: Seq<char>| #[trigger]
                        self@.hit(field, text@, other) implies !crate::text::name_lt(
                        other,
                        name,
                    ) by {
                        let j = lemma_map_of_key(pairs, other);
                        lemma_name_lt_total(other, name);
                    }
                }
                return Some(i);
            }
            i += 1;
        }
        proof {
            assert forall|name: Seq<char>| !#[trigger] self@.hit(field, text@, name) by {
                if self@.blocks.contains_key(name) {
                    let j = lemma_map_of_key(pairs, name);
                }
            }
        }
        None
    }

    /// The first name, in the order of names, whose node has `text` as its
    /// `field`, with the handle of that node.
    pub fn block_by(&self, field: Field, text: &str) -> (r: Option<(&str, BlockDevice)>)
        requires
            self.wf(),
        ensures
            match r {
                Some((name, dev)) => self@.first_hit(field, text@, name@) && dev
                    == self@.blocks[name@],
                None => self@.no_hit(field, text@),
            },
    {
        match self.first_hit(field, text) {
            Some(i) => Some((self.blocks.name_at(i).as_str(), self.blocks.block_at(i))),
            None => None,
        }
    }

    /// Locate a block device by PartUUID: the first partition, in the order
    /// of the device names, that has this UUID.
    pub fn block_by_part_uuid(&self, uuid: &str) -> (r: Option<(&str, BlockDevice)>)
        requires
            self.wf(),
        ensures
            match r {
                Some((name, dev)) => self@.first_hit(Field::PartitionUuid, uuid@, name@) && dev
                    == self@.blocks[name@],
                None => self@.no_hit(Field::PartitionUuid, uuid@),
            },
    {
        self.block_by(Field::PartitionUuid, uuid)
    }

    /// Locate a block device by FS UUID: the first device, in the order of
    /// the device names, whose file system has this UUID.
    pub fn block_by_uuid(&self, uuid: &str) -> (r: Option<(&str, BlockDevice)>)
        requires
            self.wf(),
        ensures
            match r {
                Some((name, dev)) => self@.first_hit(Field::FilesystemUuid, uuid@, name@) && dev
                    == self@.blocks[name@],
                None => self@.no_hit(Field::FilesystemUuid, uuid@),
            },
    {
        self.block_by(Field::FilesystemUuid, uuid)
    }

    /// Locate a device map by `DM_NAME`: the first, in the order of the
    /// device names, that the device mapper knows under this name.
    pub fn dm_by_dm_name(&self, dm_name: &str) -> (r: Option<DeviceMapHandle>)
        requires
            self.wf(),
        ensures
            match r {
                Some(h) => exists|name: Seq<char>|
                    self@.first_hit(Field::MapperName, dm_name@, name) && self@.blocks[name]
                        == BlockDevice::DeviceMap(h),
                None => self@.no_hit(Field::MapperName, dm_name@),
            },
    {
        match self.block_by(Field::MapperName, dm_name) {
            Some((name, BlockDevice::DeviceMap(h))) => {
                assert(self@.first_hit(Field::MapperName, dm_name@, name@));
                Some(h)
            },
            Some(_) => None,
            None => None,
        }
    }

    /// Locate a device map by its LV name: the first, in the order of the
    /// device names, that stands for this logical volume.
    pub fn dm_by_lv_name(&self, lv_name: &str) -> (r: Option<DeviceMapHandle>)
        requires
            self.wf(),
        ensures
            match r {
                Some(h) => exists|name: Seq<char>|
                    self@.first_hit(Field::LogicalVolume, lv_name@, name) && self@.blocks[name]
                        == BlockDevice::DeviceMap(h),
                None => self@.no_hit(Field::LogicalVolume, lv_name@),
            },
    {
        match self.block_by(Field::LogicalVolume, lv_name) {
            Some((name, BlockDevice::DeviceMap(h))) => {
                assert(self@.first_hit(Field::LogicalVolume, lv_name@, name@));
                Some(h)
            },
            Some(_) => None,
            None => None,
        }
    }

    /// Which device maps stand on what has `roots` as its children.
    fn mark_reached(&self, roots: &Vec<DeviceMapHandle>) -> (marks: Vec<bool>)
        requires
            self.wf(),
            forall|k: int|
                0 <= k < roots@.len() ==> (#[trigger] roots@[k]).index < self@.maps.len(),
        ensures
            marks@.len() == self@.maps.len(),
            forall|j: int| 0 <= j < marks@.len() ==> marks@[j] == self@.reached(roots@, j),
    {
        let n = self.maps.len();
        let mut marks: Vec<bool> = Vec::new();
        let mut j: usize = 0;
        while j < n
            invariant
                j <= n,
                marks@.len() == j,
                forall|i: int| 0 <= i < j ==> !marks@[i],
            decreases n - j,
        {
            marks.push(false);
            j += 1;
        }
        mark_all(&mut marks, roots);
        let ghost g = self@;
        let mut h: usize = 0;
        while h < n
            invariant
                h <= n,
                n == self.maps@.len(),
                n == g.maps.len(),
                g == self@,
                self.wf(),
                marks@.len() == n,
                forall|j: int| 0 <= j < h ==> marks@[j] == g.reached(roots@, j),
                forall|j: int| h <= j < n ==> marks@[j] == g.seen(roots@, h as int, j),
            decreases n - h,
        {
            let ghost start = marks@;
            let ghost kids = g.maps[h as int].device.children;
            proof {
                lemma_seen_step(g, roots@, h as int, h as int);
                assert forall|k: int| 0 <= k < kids.len() implies h < (#[trigger] kids[k]).index
                    < n by {
                    assert(h < g.maps[h as int].device.children[k].index < n);
                }
            }
            if marks[h] {
                mark_all(&mut marks, &self.maps[h].device.children);
            }
            proof {
                assert forall|j: int| 0 <= j < h + 1 implies marks@[j] == g.reached(
                    roots@,
                    j,
                ) by {
                    if kids.contains(DeviceMapHandle { index: j as usize }) {
                        let k = choose|k: int|
                            0 <= k < kids.len() && kids[k] == (DeviceMapHandle {
                                index: j as usize,
                            });
                        assert(h < kids[k].index);
                    }
                }
                assert forall|j: int| h + 1 <= j < n implies marks@[j] == g.seen(
                    roots@,
                    h + 1,
                    j,
                ) by {
                    lemma_seen_step(g, roots@, h as int, j);
                }
            }
            h += 1;
        }
        marks
    }

    /// Close a LUKS partition, deactivating its volumes: the job by which
    /// the caller does so. There is none for a device that the snapshot
    /// does not hold.
    pub fn luks_lock(&self, device: &str, name: &str) -> (r: Result<LuksLock, EncryptionError>)
        requires
            self.wf(),
        ensures
            r is Err <==> !self@.blocks.contains_key(device@),
            r matches Err(why) ==> why@ is DeviceNotFound,
            r matches Ok(job) ==> job.wf() && job@.fresh() && job@.name == name@
                && self@.lock_plan(device@, job@.vgs, job@.luks),
    {
        let dev = match self.blocks.get(device) {
            Some(dev) => dev,
            None => return Err(EncryptionError::DeviceNotFound),
        };
        let roots = &self.device_from_block(&dev).children;
        let ghost g = self@;
        proof {
            lemma_roots_in_range(g, dev);
            assert forall|k: int| 0 <= k < roots@.len() implies (#[trigger] roots@[k]).index
                < g.maps.len() by {
                assert(roots@[k] == g.device(dev).children[k]);
            }
        }
        let marks = self.mark_reached(roots);
        let mut groups: NameIndex<()> = NameIndex::new();
        let mut luks: Vec<String> = Vec::new();
        luks.push(device.to_owned());
        assert(texts_view(luks@) =~= seq![device@] + g.luks_below(roots@, 0));
        let n = self.maps.len();
        let mut h: usize = 0;
        while h < n
            invariant
                h <= n,
                n == self.maps@.len(),
                n == g.maps.len(),
                g == self@,
                marks@.len() == n,
                forall|j: int| 0 <= j < n ==> marks@[j] == g.reached(roots@, j),
                groups.wf(),
                forall|vg: Seq<char>|
                    groups@.contains_key(vg) <==> g.group_below(roots@, h as int, vg),
                texts_view(luks@) == seq![device@] + g.luks_below(roots@, h as nat),
            decreases n - h,
        {
            let ghost before = groups@;
            if marks[h] {
                let map = &self.maps[h];
                assert(map@ == g.maps[h as int]);
                match &map.vg_name {
                    Some(vg) => {
                        groups.insert(vg.clone(), ());
                    },
                    None => {},
                }
                let holds_luks = match &map.device.fs {
                    Some(fs) => str_eq(fs.type_.as_str(), "crypto_LUKS"),
                    None => false,
                };
                assert(holds_luks == is_luks(g.maps[h as int].device));
                if holds_luks {
                    let ghost front = texts_view(luks@);
                    luks.push(map.device.name.clone());
                    assert(texts_view(luks@) =~= front.push(g.maps[h as int].device.name));
                }
            }
            proof {
                assert(texts_view(luks@) =~= seq![device@] + g.luks_below(roots@, (h + 1) as nat));
                assert forall|vg: Seq<char>|
                    groups@.contains_key(vg) <==> g.group_below(roots@, h + 1, vg) by {
                    if g.group_below(roots@, h + 1, vg) {
                        let p = choose|p: int|
                            0 <= p < h + 1 && g.reached(roots@, p) && (
                            #[trigger] g.maps[p]).vg_name == Some(vg);
                        if p < h {
                            assert(g.group_below(roots@, h as int, vg));
                        }
                    }
                    if groups@.contains_key(vg) {
                        if before.contains_key(vg) {
                            let p = choose|p: int|
                                0 <= p < h && g.reached(roots@, p) && (
                                #[trigger] g.maps[p]).vg_name == Some(vg);
                            assert(0 <= p < h + 1 && g.reached(roots@, p) && g.maps[p].vg_name
                                == Some(vg));
                        } else {
                            assert(g.reached(roots@, h as int) && g.maps[h as int].vg_name
                                == Some(vg));
                        }
                    }
                }
            }
            h += 1;
        }
        let vgs = groups.to_names();
        Ok(LuksLock::new(name.to_owned(), vgs, luks))
    }

    /// Unlock a LUKS partition, and activate its volumes: the job by which
    /// the caller does so. There is none for a device that the snapshot
    /// does not hold.
    pub fn luks_unlock(&self, device: &str, dm_name: &str, key: &[u8]) -> (r: Result<
        LuksUnlock,
        EncryptionError,
    >)
        requires
            self.wf(),
        ensures
            r is Err <==> !self@.blocks.contains_key(device@),
            r matches Err(why) ==> why@ is DeviceNotFound,
            r matches Ok(job) ==> job@ == (LuksUnlockView {
                device: device@,
                dm_name: dm_name@,
                key: key@,
                stage: UnlockStage::Opening,
                failure: None,
                waits_left: None,
            }),
    {
        if self.blocks.get(device).is_none() {
            return Err(EncryptionError::DeviceNotFound);
        }
        Ok(LuksUnlock::new(device.to_owned(), dm_name.to_owned(), vstd::slice::slice_to_vec(key)))
    }

    /// Takes a disk in: see [`Graph::insert_disk`].
    pub(crate) fn insert_disk(&mut self, disk: Disk)
        requires
            old(self).wf(),
            disk@.children.len() == 0,
            disk@.device.children.len() == 0,
        ensures
            final(self).wf(),
            final(self)@ == old(self)@.insert_disk(disk@),
    {
        let h = DiskHandle { index: self.disks.len() };
        let name = disk.device.name.clone();
        let ghost view = disk@;
        self.disks.push(disk);
        let count = self.disks.len();
        self.blocks.insert(name, BlockDevice::Disk(h));
        proof {
            assert(old(self)@.disks.len() + 1 == count);
            lemma_insert_disk_wf(old(self)@, view);
            assert(self@.disks =~= old(self)@.disks.push(view));
            assert(self@.partitions =~= old(self)@.partitions);
            assert(self@.maps =~= old(self)@.maps);
        }
    }

    /// Takes a partition in whose ancestor bears the name `parent`, or
    /// drops it: see [`Graph::insert_partition`].
    pub(crate) fn insert_partition(&mut self, part: PartitionEntry, parent: &str)
        requires
            old(self).wf(),
            part@.device.children.len() == 0,
        ensures
            final(self).wf(),
            final(self)@ == old(self)@.insert_partition(part@, parent@),
    {
        let d = match self.blocks.get(parent) {
            Some(BlockDevice::Disk(d)) => d,
            _ => return ,
        };
        let h = PartitionHandle { index: self.partitions.len() };
        let name = part.device.name.clone();
        let ghost view = part@;
        self.partitions.push(part);
        let count = self.partitions.len();
        self.blocks.insert(name, BlockDevice::Partition(h));
        self.disks[d.index].children.push(h);
        proof {
            assert(old(self)@.partitions.len() + 1 == count);
            lemma_insert_partition_wf(old(self)@, view, parent@);
            let after = old(self)@.insert_partition(view, parent@);
            assert(self@.disks =~= after.disks);
            assert(self@.partitions =~= after.partitions);
            assert(self@.maps =~= after.maps);
        }
    }

    /// Takes a device map in whose ancestor bears the name `parent`, or
    /// drops it: see [`Graph::insert_map`].
    pub(crate) fn insert_map(&mut self, map: DeviceMap, parent: &str)
        requires
            old(self).wf(),
            map@.device.children.len() == 0,
        ensures
            final(self).wf(),
            final(self)@ == old(self)@.insert_map(map@, parent@),
    {
        let on = match self.blocks.get(parent) {
            Some(on) => on,
            None => return ,
        };
        let h = DeviceMapHandle { index: self.maps.len() };
        let name = map.device.name.clone();
        let ghost view = map@;
        self.maps.push(map);
        let count = self.maps.len();
        self.blocks.insert(name, BlockDevice::DeviceMap(h));
        match on {
            BlockDevice::Disk(d) => {
                self.disks[d.index].device.children.push(h);
            },
            BlockDevice::Partition(p) => {
                self.partitions[p.index].device.children.push(h);
            },
            BlockDevice::DeviceMap(m) => {
                self.maps[m.index].device.children.push(h);
            },
        }
        proof {
            assert(old(self)@.maps.len() + 1 == count);
            lemma_insert_map_wf(old(self)@, view, parent@);
            let after = old(self)@.insert_map(view, parent@);
            assert(self@.disks =~= after.disks);
            assert(self@.partitions =~= after.partitions);
            assert(self@.maps =~= after.maps);
        }
    }
}

} // verus!
