use pop_disk_manager::udev::attribute;
use pop_disk_manager::udev::disk_manager_device;
use pop_disk_manager::udev::disk_manager_filesystem;
use pop_disk_manager::udev::parents;
use pop_disk_manager::udev::parents_from;
use pop_disk_manager::udev::property;
use pop_disk_manager::BlockDevice;
use pop_disk_manager::DiskManager;
use pop_disk_manager::PartitionTable;
use pop_disk_manager::UDev;
use pop_disk_manager::UDevice;

fn pair(key: &str, value: &str) -> (String, String) {
    (key.to_owned(), value.to_owned())
}

fn disk_record(name: &str, syspath: &str, sectors: &str) -> UDevice {
    UDevice {
        devtype: Some("disk".to_owned()),
        syspath: Some(syspath.to_owned()),
        properties: vec![
            pair("DEVNAME", name),
            pair("ID_PART_TABLE_TYPE", "gpt"),
            pair("ID_MODEL", "Fast_Disk"),
            pair("ID_SERIAL", "Fast_Disk_0001"),
        ],
        attributes: vec![pair("size", sectors), pair("queue/logical_block_size", "512")],
        slaves: Vec::new(),
        parent_has_queue: false,
    }
}

fn partition_record(name: &str, syspath: &str, offset: &str, uuid: &str) -> UDevice {
    UDevice {
        devtype: Some("partition".to_owned()),
        syspath: Some(syspath.to_owned()),
        properties: vec![
            pair("DEVNAME", name),
            pair("ID_PART_ENTRY_OFFSET", offset),
            pair("ID_PART_ENTRY_UUID", uuid),
        ],
        attributes: vec![pair("size", "997952")],
        slaves: Vec::new(),
        parent_has_queue: true,
    }
}

fn map_record(name: &str, syspath: &str, dm_name: &str, slave: &str) -> UDevice {
    UDevice {
        devtype: Some("disk".to_owned()),
        syspath: Some(syspath.to_owned()),
        properties: vec![pair("DEVNAME", name), pair("DM_NAME", dm_name)],
        attributes: vec![pair("size", "900000")],
        slaves: vec![slave.to_owned()],
        parent_has_queue: false,
    }
}

fn with_fs(mut record: UDevice, kind: &str, uuid: &str) -> UDevice {
    record.properties.push(pair("ID_FS_TYPE", kind));
    record.properties.push(pair("ID_FS_UUID", uuid));
    record
}

fn with_property(mut record: UDevice, key: &str, value: &str) -> UDevice {
    record.properties.push(pair(key, value));
    record
}

const SDA: &str = "/sys/devices/pci0000:00/ata1/host0/block/sda";
const SDA1: &str = "/sys/devices/pci0000:00/ata1/host0/block/sda/sda1";
const DM0: &str = "/sys/devices/virtual/block/dm-0";

fn loaded(records: Vec<UDevice>) -> DiskManager {
    let udev = UDev { scan: Some(records) };
    let mut manager = DiskManager::new();
    manager.reload(&udev);
    manager
}

fn names(manager: &DiskManager) -> Vec<String> {
    (0..manager.len()).map(|i| manager.entry(i).0.to_owned()).collect()
}

#[test]
fn a_disk_alone_is_one_entry() {
    let manager = loaded(vec![disk_record("/dev/sda", SDA, "1000000")]);
    assert_eq!(manager.len(), 1);
    match manager.block_by_devname("/dev/sda") {
        Some(BlockDevice::Disk(h)) => {
            let disk = manager.disk(h);
            assert_eq!(disk.device.name, "/dev/sda");
            assert_eq!(disk.device.size, 1000000);
            assert_eq!(disk.sector_size, 512);
            assert_eq!(disk.model, "Fast_Disk");
            assert_eq!(disk.serial, "Fast_Disk_0001");
            assert_eq!(disk.table, Some(PartitionTable::Gpt));
            assert!(disk.children.is_empty());
            assert!(disk.device.fs.is_none());
        }
        _ => panic!("the disk is missing"),
    }
}

#[test]
fn a_disk_and_its_encrypted_partition() {
    let manager = loaded(vec![
        disk_record("sda", SDA, "1000000"),
        with_fs(partition_record("sda1", SDA1, "2048", "P1"), "crypto_LUKS", "F1"),
    ]);
    assert_eq!(manager.len(), 2);
    let disk = match manager.block_by_devname("sda") {
        Some(BlockDevice::Disk(h)) => manager.disk(h),
        _ => panic!("sda is no disk"),
    };
    assert_eq!(disk.device.size, 1000000);
    assert_eq!(disk.children.len(), 1);
    let child = manager.partition(disk.children[0]);
    assert_eq!(child.device.name, "sda1");
    assert_eq!(child.offset, 2048);
    assert_eq!(child.uuid, "P1");
    match manager.block_by_part_uuid("P1") {
        Some((name, BlockDevice::Partition(h))) => {
            assert_eq!(name, "sda1");
            assert_eq!(h, disk.children[0]);
        }
        _ => panic!("no partition has this UUID"),
    }
    match manager.block_by_uuid("F1") {
        Some((name, BlockDevice::Partition(h))) => {
            assert_eq!(name, "sda1");
            assert_eq!(h, disk.children[0]);
        }
        _ => panic!("no file system has this UUID"),
    }
}

#[test]
fn every_child_is_in_the_index_under_its_own_name() {
    let manager = loaded(vec![
        disk_record("/dev/sda", SDA, "1000000"),
        partition_record("/dev/sda1", SDA1, "2048", "part-b"),
        map_record("/dev/dm-0", DM0, "cryptdata", SDA1),
        map_record("/dev/dm-1", "/sys/devices/virtual/block/dm-1", "data-root", DM0),
    ]);
    assert_eq!(manager.len(), 4);
    for i in 0..manager.len() {
        let (name, block) = manager.entry(i);
        assert_eq!(manager.device_from_block(&block).name, name);
        assert_eq!(manager.block_by_devname(name), Some(block));
        for child in manager.device_from_block(&block).children.iter() {
            let child_name = &manager.device_map(*child).device.name;
            assert_eq!(manager.block_by_devname(child_name), Some(BlockDevice::DeviceMap(*child)));
        }
        if let BlockDevice::Disk(h) = block {
            for child in manager.disk(h).children.iter() {
                let child_name = &manager.partition(*child).device.name;
                assert_eq!(
                    manager.block_by_devname(child_name),
                    Some(BlockDevice::Partition(*child))
                );
            }
        }
    }
}

#[test]
fn lookup_by_name_gives_a_node_of_that_name() {
    let manager = loaded(vec![
        disk_record("/dev/sdb", "/sys/block/sdb", "10"),
        disk_record("/dev/sda", SDA, "20"),
    ]);
    assert_eq!(names(&manager), vec!["/dev/sda".to_owned(), "/dev/sdb".to_owned()]);
    for name in ["/dev/sda", "/dev/sdb"] {
        let block = manager.block_by_devname(name).expect("the name is in the index");
        assert!(manager.holds(&block));
        assert_eq!(manager.device_from_block(&block).name, name);
    }
    assert_eq!(manager.block_by_devname("/dev/sdc"), None);
}

#[test]
fn reloading_twice_gives_the_same_graph() {
    let records = || {
        vec![
            disk_record("/dev/sda", SDA, "1000000"),
            partition_record("/dev/sda1", SDA1, "2048", "part-b"),
            map_record("/dev/dm-0", DM0, "cryptdata", SDA1),
        ]
    };
    let mut manager = DiskManager::new();
    manager.reload(&UDev { scan: Some(records()) });
    let first_names = names(&manager);
    let first_blocks: Vec<BlockDevice> = (0..manager.len()).map(|i| manager.entry(i).1).collect();
    manager.reload(&UDev { scan: Some(records()) });
    assert_eq!(names(&manager), first_names);
    let second_blocks: Vec<BlockDevice> = (0..manager.len()).map(|i| manager.entry(i).1).collect();
    assert_eq!(second_blocks, first_blocks);
    match manager.block_by_devname("/dev/sda") {
        Some(BlockDevice::Disk(h)) => assert_eq!(manager.disk(h).children.len(), 1),
        _ => panic!("the disk is missing"),
    }
    match manager.block_by_devname("/dev/sda1") {
        Some(BlockDevice::Partition(h)) => {
            assert_eq!(manager.partition(h).device.children.len(), 1)
        }
        _ => panic!("the partition is missing"),
    }
}

#[test]
fn a_failed_scan_leaves_no_devices() {
    let mut manager = loaded(vec![disk_record("/dev/sda", SDA, "1000000")]);
    assert_eq!(manager.len(), 1);
    manager.reload(&UDev { scan: None });
    assert_eq!(manager.len(), 0);
    assert_eq!(manager.block_by_devname("/dev/sda"), None);
}

#[test]
fn a_loopback_device_is_no_disk() {
    let manager = loaded(vec![
        disk_record("/dev/loop0", "/sys/devices/virtual/block/loop0", "1000"),
        disk_record("/dev/sda", SDA, "1000000"),
    ]);
    assert_eq!(names(&manager), vec!["/dev/sda".to_owned()]);
}

#[test]
fn a_disk_without_a_sector_size_is_left_out() {
    let mut without = disk_record("/dev/sda", SDA, "1000000");
    without.attributes = vec![pair("size", "1000000")];
    let mut unreadable = disk_record("/dev/sdb", "/sys/block/sdb", "1000000");
    unreadable.attributes = vec![pair("size", "1000000"), pair("queue/logical_block_size", "4k")];
    let manager = loaded(vec![without, unreadable, disk_record("/dev/sdc", "/sys/block/sdc", "5")]);
    assert_eq!(names(&manager), vec!["/dev/sdc".to_owned()]);
}

#[test]
fn a_disk_without_a_name_or_a_size_is_left_out() {
    let mut nameless = disk_record("/dev/sda", SDA, "1000000");
    nameless.properties = Vec::new();
    let mut sizeless = disk_record("/dev/sdb", "/sys/block/sdb", "1000000");
    sizeless.attributes = vec![pair("queue/logical_block_size", "512")];
    let odd_size = disk_record("/dev/sdc", "/sys/block/sdc", "-5");
    let manager = loaded(vec![nameless, sizeless, odd_size]);
    assert_eq!(manager.len(), 0);
}

#[test]
fn the_partition_table_is_read_from_its_type() {
    let mut mbr = disk_record("/dev/sda", SDA, "10");
    mbr.properties = vec![pair("DEVNAME", "/dev/sda"), pair("ID_PART_TABLE_TYPE", "mbr")];
    let mut other = disk_record("/dev/sdb", "/sys/block/sdb", "10");
    other.properties = vec![pair("DEVNAME", "/dev/sdb"), pair("ID_PART_TABLE_TYPE", "dos")];
    let manager = loaded(vec![mbr, other]);
    match manager.block_by_devname("/dev/sda") {
        Some(BlockDevice::Disk(h)) => {
            assert_eq!(manager.disk(h).table, Some(PartitionTable::Mbr));
            assert_eq!(manager.disk(h).model, "");
            assert_eq!(manager.disk(h).serial, "");
        }
        _ => panic!("the disk is missing"),
    }
    match manager.block_by_devname("/dev/sdb") {
        Some(BlockDevice::Disk(h)) => assert_eq!(manager.disk(h).table, None),
        _ => panic!("the disk is missing"),
    }
}

#[test]
fn a_partition_needs_offset_uuid_and_ancestor() {
    let mut no_offset = partition_record("/dev/sda1", SDA1, "2048", "part-b");
    no_offset.properties = vec![pair("DEVNAME", "/dev/sda1"), pair("ID_PART_ENTRY_UUID", "part-b")];
    let mut no_uuid = partition_record("/dev/sda2", SDA1, "2048", "part-c");
    no_uuid.properties = vec![pair("DEVNAME", "/dev/sda2"), pair("ID_PART_ENTRY_OFFSET", "2048")];
    let mut no_syspath = partition_record("/dev/sda3", SDA1, "2048", "part-d");
    no_syspath.syspath = None;
    let mut no_parent = partition_record("/dev/sda4", SDA1, "2048", "part-e");
    no_parent.parent_has_queue = false;
    let unknown_parent = partition_record("/dev/sdz1", "/sys/block/sdz/sdz1", "2048", "part-f");
    let manager = loaded(vec![
        disk_record("/dev/sda", SDA, "1000000"),
        no_offset,
        no_uuid,
        no_syspath,
        no_parent,
        unknown_parent,
    ]);
    assert_eq!(names(&manager), vec!["/dev/sda".to_owned()]);
}

#[test]
fn a_partition_that_comes_before_its_disk_is_dropped() {
    let manager = loaded(vec![
        partition_record("/dev/sda1", SDA1, "2048", "part-b"),
        disk_record("/dev/sda", SDA, "1000000"),
    ]);
    assert_eq!(names(&manager), vec!["/dev/sda".to_owned()]);
    match manager.block_by_devname("/dev/sda") {
        Some(BlockDevice::Disk(h)) => assert!(manager.disk(h).children.is_empty()),
        _ => panic!("the disk is missing"),
    }
}

#[test]
fn an_offset_that_is_no_number_counts_as_zero() {
    let manager = loaded(vec![
        disk_record("/dev/sda", SDA, "1000000"),
        partition_record("/dev/sda1", SDA1, "far", "part-b"),
    ]);
    match manager.block_by_devname("/dev/sda1") {
        Some(BlockDevice::Partition(h)) => assert_eq!(manager.partition(h).offset, 0),
        _ => panic!("the partition is missing"),
    }
}

#[test]
fn a_partition_whose_ancestor_is_no_disk_is_dropped() {
    let manager = loaded(vec![
        disk_record("/dev/sda", SDA, "1000000"),
        partition_record("/dev/sda1", SDA1, "2048", "part-b"),
        partition_record(
            "/dev/sda1p1",
            "/sys/devices/pci0000:00/ata1/host0/block/sda/sda1/p1",
            "1",
            "part-c",
        ),
    ]);
    assert_eq!(names(&manager), vec!["/dev/sda".to_owned(), "/dev/sda1".to_owned()]);
    match manager.block_by_devname("/dev/sda1") {
        Some(BlockDevice::Partition(h)) => {
            assert!(manager.partition(h).device.children.is_empty())
        }
        _ => panic!("the partition is missing"),
    }
}

#[test]
fn device_maps_stand_on_disks_partitions_and_device_maps() {
    let on_disk = map_record("/dev/dm-5", "/sys/devices/virtual/block/dm-5", "whole", SDA);
    let on_partition = with_property(
        with_property(map_record("/dev/dm-0", DM0, "cryptdata", SDA1), "DM_VG_NAME", "data"),
        "DM_LV_NAME",
        "root",
    );
    let on_map = map_record("/dev/dm-1", "/sys/devices/virtual/block/dm-1", "inner", DM0);
    let manager = loaded(vec![
        disk_record("/dev/sda", SDA, "1000000"),
        partition_record("/dev/sda1", SDA1, "2048", "part-b"),
        on_disk,
        on_partition,
        on_map,
    ]);
    assert_eq!(manager.len(), 5);
    let whole = match manager.block_by_devname("/dev/dm-5") {
        Some(BlockDevice::DeviceMap(h)) => h,
        _ => panic!("dm-5 is missing"),
    };
    let outer = match manager.block_by_devname("/dev/dm-0") {
        Some(BlockDevice::DeviceMap(h)) => h,
        _ => panic!("dm-0 is missing"),
    };
    let inner = match manager.block_by_devname("/dev/dm-1") {
        Some(BlockDevice::DeviceMap(h)) => h,
        _ => panic!("dm-1 is missing"),
    };
    match manager.block_by_devname("/dev/sda") {
        Some(BlockDevice::Disk(h)) => assert_eq!(manager.disk(h).device.children, vec![whole]),
        _ => panic!("the disk is missing"),
    }
    match manager.block_by_devname("/dev/sda1") {
        Some(BlockDevice::Partition(h)) => {
            assert_eq!(manager.partition(h).device.children, vec![outer])
        }
        _ => panic!("the partition is missing"),
    }
    assert_eq!(manager.device_map(outer).device.children, vec![inner]);
    assert_eq!(manager.device_map(outer).name, "cryptdata");
    assert_eq!(manager.device_map(outer).vg_name, Some("data".to_owned()));
    assert_eq!(manager.device_map(outer).lv_name, Some("root".to_owned()));
    assert_eq!(manager.device_map(inner).vg_name, None);
    assert_eq!(manager.device_map(inner).lv_name, None);
    assert!(manager.device_map(inner).device.children.is_empty());
}

#[test]
fn a_device_map_without_known_ancestor_is_dropped() {
    let manager = loaded(vec![map_record("/dev/dm-0", DM0, "cryptdata", SDA1)]);
    assert_eq!(manager.len(), 0);
}

#[test]
fn a_device_map_that_comes_before_its_ancestor_is_dropped() {
    let manager = loaded(vec![
        disk_record("/dev/sda", SDA, "1000000"),
        map_record("/dev/dm-0", DM0, "cryptdata", SDA1),
        partition_record("/dev/sda1", SDA1, "2048", "part-b"),
    ]);
    assert_eq!(names(&manager), vec!["/dev/sda".to_owned(), "/dev/sda1".to_owned()]);
    match manager.block_by_devname("/dev/sda1") {
        Some(BlockDevice::Partition(h)) => {
            assert!(manager.partition(h).device.children.is_empty())
        }
        _ => panic!("the partition is missing"),
    }
}

#[test]
fn a_device_map_that_names_itself_as_ancestor_is_dropped() {
    let manager = loaded(vec![map_record("/dev/dm-0", DM0, "selfish", DM0)]);
    assert_eq!(manager.len(), 0);
}

#[test]
fn the_ancestor_is_the_first_that_has_a_name() {
    let mut nameless = disk_record("/dev/sdx", "/sys/devices/virtual/block/nameless", "10");
    nameless.properties = Vec::new();
    let mut map = map_record("/dev/dm-0", DM0, "cryptdata", "/sys/devices/virtual/block/gone");
    map.slaves.push("/sys/devices/virtual/block/nameless".to_owned());
    map.slaves.push(SDA1.to_owned());
    map.slaves.push(SDA.to_owned());
    let manager = loaded(vec![
        disk_record("/dev/sda", SDA, "1000000"),
        partition_record("/dev/sda1", SDA1, "2048", "part-b"),
        nameless,
        map,
    ]);
    assert_eq!(manager.len(), 3);
    let child = match manager.block_by_devname("/dev/dm-0") {
        Some(BlockDevice::DeviceMap(h)) => h,
        _ => panic!("dm-0 is missing"),
    };
    match manager.block_by_devname("/dev/sda1") {
        Some(BlockDevice::Partition(h)) => {
            assert_eq!(manager.partition(h).device.children, vec![child])
        }
        _ => panic!("the partition is missing"),
    }
    match manager.block_by_devname("/dev/sda") {
        Some(BlockDevice::Disk(h)) => assert!(manager.disk(h).device.children.is_empty()),
        _ => panic!("the disk is missing"),
    }
}

#[test]
fn records_of_other_kinds_add_nothing() {
    let mut other = disk_record("/dev/sr0", "/sys/block/sr0", "10");
    other.devtype = Some("cdrom".to_owned());
    let mut untyped = disk_record("/dev/sdq", "/sys/block/sdq", "10");
    untyped.devtype = None;
    let manager = loaded(vec![other, untyped]);
    assert_eq!(manager.len(), 0);
}

#[test]
fn the_later_of_two_records_of_one_name_is_what_the_name_stands_for() {
    let manager = loaded(vec![
        disk_record("/dev/sda", SDA, "100"),
        disk_record("/dev/sda", SDA, "200"),
    ]);
    assert_eq!(manager.len(), 1);
    match manager.block_by_devname("/dev/sda") {
        Some(BlockDevice::Disk(h)) => assert_eq!(manager.disk(h).device.size, 200),
        _ => panic!("the disk is missing"),
    }
}

#[test]
fn properties_and_attributes_are_looked_up_by_key() {
    let record = with_fs(disk_record("/dev/sda", SDA, "1000000"), "ext4", "F9");
    assert_eq!(property(&record, "DEVNAME"), Some("/dev/sda"));
    assert_eq!(property(&record, "ID_FS_UUID"), Some("F9"));
    assert_eq!(property(&record, "DEVNAM"), None);
    assert_eq!(attribute(&record, "size"), Some("1000000"));
    assert_eq!(attribute(&record, "DEVNAME"), None);
    let mut twice = disk_record("/dev/sda", SDA, "1");
    twice.properties.push(pair("DEVNAME", "/dev/other"));
    assert_eq!(property(&twice, "DEVNAME"), Some("/dev/sda"));
}

#[test]
fn the_device_of_a_record() {
    let record = with_fs(disk_record("/dev/sda", SDA, "+42"), "ext4", "F9");
    let device = disk_manager_device(&record).expect("the record gives a device");
    assert_eq!(device.name, "/dev/sda");
    assert_eq!(device.size, 42);
    assert!(device.children.is_empty());
    let fs = device.fs.expect("the record gives a file system");
    assert_eq!(fs.type_, "ext4");
    assert_eq!(fs.uuid, "F9");
    let mut typed_only = disk_record("/dev/sda", SDA, "42");
    typed_only.properties.push(pair("ID_FS_TYPE", "ext4"));
    assert!(disk_manager_filesystem(&typed_only).is_none());
    let mut uuid_only = disk_record("/dev/sda", SDA, "42");
    uuid_only.properties.push(pair("ID_FS_UUID", "F9"));
    assert!(disk_manager_filesystem(&uuid_only).is_none());
}

#[test]
fn the_parents_of_a_device() {
    let slaves = vec![
        "/sys/devices/pci0000:00/ata1/host0/block/sda/sda1".to_owned(),
        "/sys/devices/elsewhere/sdb1".to_owned(),
        "/sys/devices/virtual/block/dm-3".to_owned(),
        "/sys/devices/blocks/dm-4".to_owned(),
    ];
    assert_eq!(
        parents("/sys/devices/virtual/block/dm-0", &slaves, false),
        vec![
            "/sys/devices/pci0000:00/ata1/host0/block/sda/sda1".to_owned(),
            "/sys/devices/virtual/block/dm-3".to_owned(),
        ]
    );
    assert_eq!(
        parents(SDA1, &Vec::new(), true),
        vec!["/sys/devices/pci0000:00/ata1/host0/block/sda".to_owned()]
    );
    assert_eq!(parents(SDA1, &Vec::new(), false), Vec::<String>::new());
    assert_eq!(
        parents(SDA1, &slaves[2..3].to_vec(), true),
        vec![
            "/sys/devices/virtual/block/dm-3".to_owned(),
            "/sys/devices/pci0000:00/ata1/host0/block/sda".to_owned(),
        ]
    );
    assert_eq!(parents("/", &Vec::new(), true), Vec::<String>::new());
}

#[test]
fn the_parents_from_what_was_read() {
    let slaves = vec!["block".to_owned(), "a/b".to_owned(), "x/block/".to_owned()];
    assert_eq!(
        parents_from(&slaves, true, Some("/up".to_owned())),
        vec!["block".to_owned(), "x/block/".to_owned(), "/up".to_owned()]
    );
    assert_eq!(
        parents_from(&slaves, false, Some("/up".to_owned())),
        vec!["block".to_owned(), "x/block/".to_owned()]
    );
    assert_eq!(parents_from(&slaves, true, None), vec!["block".to_owned(), "x/block/".to_owned()]);
}

#[test]
fn the_ancestor_is_the_first_record_at_its_place() {
    let udev = UDev {
        scan: Some(vec![
            disk_record("/dev/sda", SDA, "1"),
            disk_record("/dev/other", SDA, "2"),
        ]),
    };
    let found = udev.from_syspath(SDA).expect("a record stands there");
    assert_eq!(property(found, "DEVNAME"), Some("/dev/sda"));
    assert!(udev.from_syspath("/sys/none").is_none());
    assert!(UDev { scan: None }.from_syspath(SDA).is_none());
}
