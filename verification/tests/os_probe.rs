use pop_disk_manager::os_probe::boot_entries;
use pop_disk_manager::os_probe::boot_partition;
use pop_disk_manager::os_probe::locate_boot_entries;
use pop_disk_manager::os_probe::root_uuid;
use pop_disk_manager::DiskManager;
use pop_disk_manager::UDev;
use pop_disk_manager::UDevice;

fn volume(kind: &str, name: &str, syspath: &str, fs: Option<&str>) -> UDevice {
    let mut properties = vec![
        (String::from("DEVNAME"), name.to_owned()),
        (String::from("ID_PART_ENTRY_OFFSET"), String::from("2048")),
        (String::from("ID_PART_ENTRY_UUID"), String::from("P")),
    ];
    if let Some(fs) = fs {
        properties.push((String::from("ID_FS_TYPE"), fs.to_owned()));
        properties.push((String::from("ID_FS_UUID"), String::from("F")));
    }
    UDevice {
        devtype: Some(kind.to_owned()),
        syspath: Some(syspath.to_owned()),
        properties,
        attributes: vec![
            (String::from("size"), String::from("1000")),
            (String::from("queue/logical_block_size"), String::from("512")),
        ],
        slaves: Vec::new(),
        parent_has_queue: kind == "partition",
    }
}

fn loaded(records: Vec<UDevice>) -> DiskManager {
    let mut manager = DiskManager::new();
    manager.reload(&UDev { scan: Some(records) });
    manager
}

#[test]
fn the_root_of_a_loader_entry() {
    let entry = "title Pop!_OS\nlinux /EFI/Pop_OS/vmlinuz.efi\ninitrd /EFI/Pop_OS/initrd.img\noptions root=UUID=0a1b2c3d-1111 ro quiet splash\n";
    assert_eq!(root_uuid(entry), Some("0a1b2c3d-1111".to_owned()));
    assert_eq!(root_uuid("options quiet root=UUID=abc"), Some("abc".to_owned()));
    assert_eq!(root_uuid("options quiet root=UUID=abc\r\n"), Some("abc".to_owned()));
    assert_eq!(root_uuid("options\troot=UUID=abc"), None);
    assert_eq!(root_uuid("options root=UUID="), Some(String::new()));
    assert_eq!(root_uuid("options root=/dev/sda1 ro"), None);
    assert_eq!(root_uuid("options quiet\noptions root=UUID=late"), None);
    assert_eq!(root_uuid("title x\n options root=UUID=indented"), None);
    assert_eq!(root_uuid("title x"), None);
    assert_eq!(root_uuid(""), None);
    assert_eq!(root_uuid("options root=UUID=a root=UUID=b"), Some("a".to_owned()));
    assert_eq!(root_uuid("options xroot=UUID=a root=UUID=b"), Some("b".to_owned()));
}

#[test]
fn the_entries_of_a_volume() {
    let files = vec![
        "title A\noptions root=UUID=one\n".to_owned(),
        "title B\n".to_owned(),
        "options splash root=UUID=two\n".to_owned(),
    ];
    let entries = locate_boot_entries("/dev/sda1", &files);
    assert_eq!(entries.len(), 2);
    assert_eq!(entries[0].path, "/dev/sda1");
    assert_eq!(entries[0].uuid, "one");
    assert_eq!(entries[1].path, "/dev/sda1");
    assert_eq!(entries[1].uuid, "two");
    assert!(locate_boot_entries("/dev/sda1", &Vec::new()).is_empty());
}

#[test]
fn the_volume_of_the_boot_loader() {
    let manager = loaded(vec![
        volume("disk", "/dev/sdb", "/sys/block/sdb", None),
        volume("partition", "/dev/sdb2", "/sys/block/sdb/sdb2", Some("vfat")),
        volume("partition", "/dev/sdb1", "/sys/block/sdb/sdb1", Some("ext4")),
        volume("disk", "/dev/sdc", "/sys/block/sdc", Some("vfat")),
    ]);
    assert_eq!(boot_partition(&manager), Some("/dev/sdb2"));
    let none = loaded(vec![volume("disk", "/dev/sdb", "/sys/block/sdb", Some("ext4"))]);
    assert_eq!(boot_partition(&none), None);
}

#[test]
fn a_device_map_is_no_boot_volume() {
    let mut map = volume("disk", "/dev/dm-0", "/sys/devices/virtual/block/dm-0", Some("vfat"));
    map.properties.push((String::from("DM_NAME"), String::from("odd")));
    map.slaves = vec!["/sys/block/sdb".to_owned()];
    let manager = loaded(vec![volume("disk", "/dev/sdb", "/sys/block/sdb", None), map]);
    assert_eq!(manager.len(), 2);
    assert_eq!(boot_partition(&manager), None);
}

#[test]
fn the_entries_are_those_of_the_boot_volume() {
    let manager = loaded(vec![
        volume("disk", "/dev/sdb", "/sys/block/sdb", None),
        volume("partition", "/dev/sdb1", "/sys/block/sdb/sdb1", Some("vfat")),
    ]);
    let files = vec!["options root=UUID=abc".to_owned(), "options root=UUID=def ro".to_owned()];
    let entries = boot_entries(&manager, &files);
    assert_eq!(entries.len(), 2);
    assert_eq!(entries[0].path, "/dev/sdb1");
    assert_eq!(entries[0].uuid, "abc");
    assert_eq!(entries[1].path, "/dev/sdb1");
    assert_eq!(entries[1].uuid, "def");
    let none = loaded(vec![volume("disk", "/dev/sdb", "/sys/block/sdb", Some("ext4"))]);
    assert!(boot_entries(&none, &files).is_empty());
}

#[test]
fn the_root_is_read_as_lines_and_fields_are_split() {
    let entries = [
        "title Pop!_OS\nlinux /vmlinuz\noptions root=UUID=abc ro quiet\n",
        "options root=UUID=abc\r\n",
        "options\troot=UUID=abc",
        "options  \t root=UUID=abc\x0cro",
        "options quiet\noptions root=UUID=late",
        "options root=UUID=",
        "options root=UUID=a\u{b}b",
        " options root=UUID=abc",
        "options",
        "options ",
        "",
        "\n\noptions root=UUID=x\n\n",
        "title\roptions root=UUID=x",
        "options a root=UUID=é-1 b",
    ];
    for entry in entries {
        let expected = entry.lines().find_map(|line| line.strip_prefix("options ")).and_then(
            |line| {
                line.split_ascii_whitespace()
                    .find_map(|field| field.strip_prefix("root=UUID="))
                    .map(String::from)
            },
        );
        assert_eq!(root_uuid(entry), expected, "{:?}", entry);
    }
}
