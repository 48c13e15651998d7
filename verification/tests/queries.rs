use pop_disk_manager::graph::Field;
use pop_disk_manager::BlockDevice;
use pop_disk_manager::DiskManager;
use pop_disk_manager::UDev;
use pop_disk_manager::UDevice;

fn pair(key: &str, value: &str) -> (String, String) {
    (key.to_owned(), value.to_owned())
}

fn record(kind: &str, name: &str, syspath: &str, more: &[(&str, &str)]) -> UDevice {
    let mut properties = vec![pair("DEVNAME", name)];
    for (key, value) in more {
        properties.push(pair(key, value));
    }
    UDevice {
        devtype: Some(kind.to_owned()),
        syspath: Some(syspath.to_owned()),
        properties,
        attributes: vec![pair("size", "1000"), pair("queue/logical_block_size", "512")],
        slaves: Vec::new(),
        parent_has_queue: kind == "partition",
    }
}

fn sample() -> DiskManager {
    let mut map = record(
        "disk",
        "/dev/dm-0",
        "/sys/devices/virtual/block/dm-0",
        &[
            ("DM_NAME", "data-root"),
            ("DM_LV_NAME", "root"),
            ("DM_VG_NAME", "data"),
            ("ID_FS_TYPE", "ext4"),
            ("ID_FS_UUID", "F-ROOT"),
        ],
    );
    map.slaves = vec!["/sys/block/sdb/sdb2".to_owned()];
    let udev = UDev {
        scan: Some(vec![
            record("disk", "/dev/sdb", "/sys/block/sdb", &[]),
            record(
                "partition",
                "/dev/sdb2",
                "/sys/block/sdb/sdb2",
                &[
                    ("ID_PART_ENTRY_OFFSET", "4096"),
                    ("ID_PART_ENTRY_UUID", "P-TWO"),
                    ("ID_FS_TYPE", "LVM2_member"),
                    ("ID_FS_UUID", "F-SAME"),
                ],
            ),
            record(
                "partition",
                "/dev/sdb1",
                "/sys/block/sdb/sdb1",
                &[
                    ("ID_PART_ENTRY_OFFSET", "2048"),
                    ("ID_PART_ENTRY_UUID", "P-ONE"),
                    ("ID_FS_TYPE", "vfat"),
                    ("ID_FS_UUID", "F-SAME"),
                ],
            ),
            map,
            record(
                "disk",
                "/dev/sda",
                "/sys/block/sda",
                &[("ID_FS_TYPE", "ext4"), ("ID_FS_UUID", "F-DISK")],
            ),
        ]),
    };
    let mut manager = DiskManager::new();
    manager.reload(&udev);
    manager
}

#[test]
fn a_partition_is_found_by_its_uuid() {
    let manager = sample();
    match manager.block_by_part_uuid("P-TWO") {
        Some((name, BlockDevice::Partition(h))) => {
            assert_eq!(name, "/dev/sdb2");
            assert_eq!(manager.partition(h).uuid, "P-TWO");
            assert_eq!(manager.partition(h).offset, 4096);
        }
        _ => panic!("P-TWO was not found"),
    }
    assert!(manager.block_by_part_uuid("P-NONE").is_none());
    assert!(manager.block_by_part_uuid("F-DISK").is_none());
}

#[test]
fn each_file_system_uuid_finds_its_own_node() {
    let manager = sample();
    match manager.block_by_uuid("F-DISK") {
        Some((name, BlockDevice::Disk(h))) => {
            assert_eq!(name, "/dev/sda");
            assert_eq!(manager.disk(h).device.name, "/dev/sda");
        }
        _ => panic!("F-DISK was not found"),
    }
    match manager.block_by_uuid("F-ROOT") {
        Some((name, BlockDevice::DeviceMap(h))) => {
            assert_eq!(name, "/dev/dm-0");
            assert_eq!(manager.device_map(h).name, "data-root");
        }
        _ => panic!("F-ROOT was not found"),
    }
    assert!(manager.block_by_uuid("F-NONE").is_none());
    assert!(manager.block_by_uuid("P-ONE").is_none());
}

#[test]
fn of_two_nodes_with_one_uuid_the_first_name_wins() {
    let manager = sample();
    match manager.block_by_uuid("F-SAME") {
        Some((name, BlockDevice::Partition(h))) => {
            assert_eq!(name, "/dev/sdb1");
            assert_eq!(manager.partition(h).uuid, "P-ONE");
        }
        _ => panic!("F-SAME was not found"),
    }
}

#[test]
fn a_device_map_is_found_by_its_names() {
    let manager = sample();
    let by_name = manager.dm_by_dm_name("data-root").expect("the mapper name is known");
    assert_eq!(manager.device_map(by_name).device.name, "/dev/dm-0");
    let by_volume = manager.dm_by_lv_name("root").expect("the volume is known");
    assert_eq!(by_volume, by_name);
    assert!(manager.dm_by_dm_name("root").is_none());
    assert!(manager.dm_by_lv_name("data-root").is_none());
    assert!(manager.dm_by_lv_name("data").is_none());
}

#[test]
fn a_search_by_any_field() {
    let manager = sample();
    match manager.block_by(Field::VolumeFilesystem, "ext4") {
        Some((name, BlockDevice::Disk(_))) => assert_eq!(name, "/dev/sda"),
        _ => panic!("no volume holds ext4"),
    }
    match manager.block_by(Field::MapperName, "data-root") {
        Some((name, BlockDevice::DeviceMap(_))) => assert_eq!(name, "/dev/dm-0"),
        _ => panic!("the mapper name is unknown"),
    }
    assert!(manager.block_by(Field::LogicalVolume, "swap").is_none());
}

#[test]
fn the_device_of_each_kind_of_node() {
    let manager = sample();
    for name in ["/dev/sda", "/dev/sdb1", "/dev/dm-0"] {
        let block = manager.block_by_devname(name).expect("the name is known");
        assert_eq!(manager.device_from_block(&block).name, name);
        assert_eq!(manager.device_from_block(&block).size, 1000);
    }
}

#[test]
fn a_handle_from_another_snapshot_is_told_apart() {
    let manager = sample();
    let block = manager.block_by_devname("/dev/sdb2").expect("the name is known");
    assert!(manager.holds(&block));
    let empty = DiskManager::new();
    assert!(!empty.holds(&block));
    assert_eq!(empty.len(), 0);
}
