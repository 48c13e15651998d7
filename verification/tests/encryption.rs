use pop_disk_manager::encryption::LockStep;
use pop_disk_manager::encryption::LuksLock;
use pop_disk_manager::encryption::LuksUnlock;
use pop_disk_manager::encryption::UnlockStep;
use pop_disk_manager::DiskManager;
use pop_disk_manager::EncryptionError;
use pop_disk_manager::UDev;
use pop_disk_manager::UDevice;

fn pair(key: &str, value: &str) -> (String, String) {
    (key.to_owned(), value.to_owned())
}

fn disk(name: &str, syspath: &str) -> UDevice {
    UDevice {
        devtype: Some("disk".to_owned()),
        syspath: Some(syspath.to_owned()),
        properties: vec![pair("DEVNAME", name)],
        attributes: vec![pair("size", "1000"), pair("queue/logical_block_size", "512")],
        slaves: Vec::new(),
        parent_has_queue: false,
    }
}

fn partition(name: &str, syspath: &str, fs: Option<&str>) -> UDevice {
    let mut properties = vec![
        pair("DEVNAME", name),
        pair("ID_PART_ENTRY_OFFSET", "2048"),
        pair("ID_PART_ENTRY_UUID", "P"),
    ];
    if let Some(kind) = fs {
        properties.push(pair("ID_FS_TYPE", kind));
        properties.push(pair("ID_FS_UUID", "F"));
    }
    UDevice {
        devtype: Some("partition".to_owned()),
        syspath: Some(syspath.to_owned()),
        properties,
        attributes: vec![pair("size", "900")],
        slaves: Vec::new(),
        parent_has_queue: true,
    }
}

fn map(number: u32, dm_name: &str, on: &str, vg: Option<&str>, fs: Option<&str>) -> UDevice {
    let mut properties =
        vec![pair("DEVNAME", &format!("/dev/dm-{}", number)), pair("DM_NAME", dm_name)];
    if let Some(vg) = vg {
        properties.push(pair("DM_VG_NAME", vg));
    }
    if let Some(kind) = fs {
        properties.push(pair("ID_FS_TYPE", kind));
        properties.push(pair("ID_FS_UUID", &format!("F{}", number)));
    }
    UDevice {
        devtype: Some("disk".to_owned()),
        syspath: Some(format!("/sys/devices/virtual/block/dm-{}", number)),
        properties,
        attributes: vec![pair("size", "800")],
        slaves: vec![on.to_owned()],
        parent_has_queue: false,
    }
}

const SDA: &str = "/sys/block/sda";
const SDA1: &str = "/sys/block/sda/sda1";
const SDA2: &str = "/sys/block/sda/sda2";

fn virtual_map(number: u32) -> String {
    format!("/sys/devices/virtual/block/dm-{}", number)
}

/// A LUKS partition with an opened container, two volume groups on it, a
/// LUKS container inside one of the volumes, and a partition beside it all.
fn machine() -> DiskManager {
    let udev = UDev {
        scan: Some(vec![
            disk("/dev/sda", SDA),
            partition("/dev/sda1", SDA1, Some("crypto_LUKS")),
            partition("/dev/sda2", SDA2, Some("ext4")),
            map(0, "cryptdata", SDA1, None, Some("LVM2_member")),
            map(1, "work-home", &virtual_map(0), Some("work"), Some("crypto_LUKS")),
            map(2, "data-root", &virtual_map(0), Some("data"), Some("ext4")),
            map(3, "data-swap", &virtual_map(0), Some("data"), Some("swap")),
            map(4, "home", &virtual_map(1), None, Some("ext4")),
            map(5, "beside", SDA2, Some("other"), Some("crypto_LUKS")),
        ]),
    };
    let mut manager = DiskManager::new();
    manager.reload(&udev);
    manager
}

fn steps_of(job: &mut LuksLock, failing: Option<&str>) -> Vec<String> {
    let mut steps = Vec::new();
    for _ in 0..32 {
        match job.next() {
            LockStep::DeactivateVolumeGroup { vg } => {
                steps.push(format!("vg {}", vg));
                job.record(Err("the group is busy".to_owned()));
            }
            LockStep::DeactivateLuks { device, name } => {
                steps.push(format!("luks {} {}", device, name));
                if Some(device.as_str()) == failing {
                    job.record(Err("the device is busy".to_owned()));
                } else {
                    job.record(Ok(()));
                }
            }
            LockStep::Reload => {
                steps.push("reload".to_owned());
                job.record(Ok(()));
            }
            LockStep::Finished(Ok(())) => {
                steps.push("done".to_owned());
                return steps;
            }
            LockStep::Finished(Err(EncryptionError::Cryptsetup(why))) => {
                steps.push(format!("failed: {}", why));
                return steps;
            }
            LockStep::Finished(Err(other)) => {
                steps.push(format!("failed otherwise: {}", other.message()));
                return steps;
            }
        }
    }
    panic!("the job does not end");
}

#[test]
fn locking_takes_the_groups_first_and_then_every_luks_device() {
    let manager = machine();
    let mut job = manager.luks_lock("/dev/sda1", "cryptdata").expect("the device is known");
    assert_eq!(
        steps_of(&mut job, None),
        vec![
            "vg data",
            "vg work",
            "luks /dev/sda1 cryptdata",
            "luks /dev/dm-1 cryptdata",
            "reload",
            "done",
        ]
    );
}

#[test]
fn the_groups_that_could_not_be_deactivated_are_noted() {
    let manager = machine();
    let mut job = manager.luks_lock("/dev/sda1", "cryptdata").expect("the device is known");
    assert!(job.unmoved().is_empty());
    assert!(matches!(job.next(), LockStep::DeactivateVolumeGroup { .. }));
    job.record(Ok(()));
    assert!(job.unmoved().is_empty());
    assert!(matches!(job.next(), LockStep::DeactivateVolumeGroup { .. }));
    job.record(Err("in use".to_owned()));
    assert_eq!(job.unmoved(), &vec!["work".to_owned()]);
    assert!(matches!(job.next(), LockStep::DeactivateLuks { .. }));
    job.record(Ok(()));
    job.record(Ok(()));
    assert!(matches!(job.next(), LockStep::Reload));
    job.record(Err("no scan".to_owned()));
    assert!(matches!(job.next(), LockStep::Finished(Ok(()))));
    assert_eq!(job.unmoved(), &vec!["work".to_owned()]);
}

#[test]
fn locking_a_disk_reaches_what_stands_on_its_device_maps_only() {
    let manager = machine();
    let mut job = manager.luks_lock("/dev/sda", "label").expect("the device is known");
    assert_eq!(steps_of(&mut job, None), vec!["luks /dev/sda label", "reload", "done"]);
    let mut job = manager.luks_lock("/dev/sda2", "label").expect("the device is known");
    assert_eq!(
        steps_of(&mut job, None),
        vec!["vg other", "luks /dev/sda2 label", "luks /dev/dm-5 label", "reload", "done"]
    );
    let mut job = manager.luks_lock("/dev/dm-1", "label").expect("the device is known");
    assert_eq!(steps_of(&mut job, None), vec!["luks /dev/dm-1 label", "reload", "done"]);
}

#[test]
fn the_first_luks_device_that_fails_ends_the_job() {
    let udev = UDev {
        scan: Some(vec![
            disk("/dev/sda", SDA),
            partition("/dev/sda1", SDA1, Some("crypto_LUKS")),
            map(0, "first", SDA1, Some("data"), Some("crypto_LUKS")),
            map(1, "second", &virtual_map(0), None, Some("crypto_LUKS")),
        ]),
    };
    let mut manager = DiskManager::new();
    manager.reload(&udev);
    let mut job = manager.luks_lock("/dev/sda1", "label").expect("the device is known");
    assert_eq!(
        steps_of(&mut job, Some("/dev/dm-0")),
        vec!["vg data", "luks /dev/sda1 label", "luks /dev/dm-0 label", "failed: the device is busy"]
    );
    job.record(Ok(()));
    match job.next() {
        LockStep::Finished(Err(EncryptionError::Cryptsetup(why))) => {
            assert_eq!(why, "the device is busy")
        }
        other => panic!("the job went on: {:?}", other),
    }
}

#[test]
fn a_job_that_has_ended_stays_ended() {
    let manager = machine();
    let mut job = manager.luks_lock("/dev/dm-4", "label").expect("the device is known");
    assert_eq!(steps_of(&mut job, None), vec!["luks /dev/dm-4 label", "reload", "done"]);
    job.record(Err("late".to_owned()));
    assert!(matches!(job.next(), LockStep::Finished(Ok(()))));
}

#[test]
fn a_lock_job_from_its_lists() {
    let mut job = LuksLock::new(
        "label".to_owned(),
        vec!["a".to_owned()],
        vec!["/dev/x".to_owned(), "/dev/y".to_owned(), "/dev/z".to_owned()],
    );
    assert_eq!(
        steps_of(&mut job, Some("/dev/y")),
        vec!["vg a", "luks /dev/x label", "luks /dev/y label", "failed: the device is busy"]
    );
    let mut empty = LuksLock::new("label".to_owned(), Vec::new(), Vec::new());
    assert_eq!(steps_of(&mut empty, None), vec!["reload", "done"]);
}

#[test]
fn locking_an_unknown_device_is_refused() {
    let manager = machine();
    match manager.luks_lock("/dev/sdz", "label") {
        Err(EncryptionError::DeviceNotFound) => {}
        _ => panic!("the device was found"),
    }
}

#[test]
fn unlocking_an_unknown_device_is_refused() {
    let manager = machine();
    match manager.luks_unlock("/dev/sdz", "cryptdata", b"secret") {
        Err(EncryptionError::DeviceNotFound) => {}
        _ => panic!("the device was found"),
    }
    let empty = DiskManager::new();
    assert!(matches!(
        empty.luks_unlock("/dev/sda1", "cryptdata", b"secret"),
        Err(EncryptionError::DeviceNotFound)
    ));
}

#[test]
fn unlocking_waits_until_the_device_map_shows() {
    let before = UDev {
        scan: Some(vec![disk("/dev/sda", SDA), partition("/dev/sda1", SDA1, Some("crypto_LUKS"))]),
    };
    let after = UDev {
        scan: Some(vec![
            disk("/dev/sda", SDA),
            partition("/dev/sda1", SDA1, Some("crypto_LUKS")),
            map(0, "cryptdata", SDA1, None, Some("ext4")),
        ]),
    };
    let mut manager = DiskManager::new();
    manager.reload(&before);
    let mut job = manager.luks_unlock("/dev/sda1", "cryptdata", b"secret").expect("known");
    match job.next() {
        UnlockStep::Activate { device, dm_name, key } => {
            assert_eq!(device, "/dev/sda1");
            assert_eq!(dm_name, "cryptdata");
            assert_eq!(key, b"secret".to_vec());
        }
        other => panic!("the job does not begin by opening: {:?}", other),
    }
    job.record(Ok(()), &manager);
    assert!(matches!(job.next(), UnlockStep::ActivateVolumeGroups));
    job.record(Err("no volume groups".to_owned()), &manager);
    assert!(matches!(job.next(), UnlockStep::Reload));
    manager.reload(&before);
    job.record(Ok(()), &manager);
    assert!(matches!(job.next(), UnlockStep::Sleep { seconds: 1 }));
    job.record(Ok(()), &manager);
    assert!(matches!(job.next(), UnlockStep::Reload));
    manager.reload(&before);
    job.record(Ok(()), &manager);
    assert!(matches!(job.next(), UnlockStep::Sleep { seconds: 1 }));
    job.record(Ok(()), &manager);
    assert!(matches!(job.next(), UnlockStep::Reload));
    manager.reload(&after);
    job.record(Ok(()), &manager);
    assert!(matches!(job.next(), UnlockStep::Finished(Ok(()))));
    job.record(Ok(()), &manager);
    assert!(matches!(job.next(), UnlockStep::Finished(Ok(()))));
}

#[test]
fn unlocking_gives_up_when_its_waits_are_spent() {
    let manager = machine();
    let mut job = manager
        .luks_unlock("/dev/sda2", "crypt-never", b"secret")
        .expect("the device is known")
        .within(2);
    assert!(matches!(job.next(), UnlockStep::Activate { .. }));
    job.record(Ok(()), &manager);
    assert!(matches!(job.next(), UnlockStep::ActivateVolumeGroups));
    job.record(Ok(()), &manager);
    for _ in 0..2 {
        assert!(matches!(job.next(), UnlockStep::Reload));
        job.record(Ok(()), &manager);
        assert!(matches!(job.next(), UnlockStep::Sleep { seconds: 1 }));
        job.record(Ok(()), &manager);
    }
    assert!(matches!(job.next(), UnlockStep::Reload));
    job.record(Ok(()), &manager);
    assert!(matches!(job.next(), UnlockStep::Finished(Err(EncryptionError::Timeout))));
    job.record(Ok(()), &manager);
    assert!(matches!(job.next(), UnlockStep::Finished(Err(EncryptionError::Timeout))));
}

#[test]
fn unlocking_without_waits_looks_once() {
    let manager = machine();
    let mut job = LuksUnlock::new("/dev/sda2".to_owned(), "crypt-never".to_owned(), Vec::new())
        .within(0);
    job.record(Ok(()), &manager);
    job.record(Ok(()), &manager);
    assert!(matches!(job.next(), UnlockStep::Reload));
    job.record(Ok(()), &manager);
    assert!(matches!(job.next(), UnlockStep::Finished(Err(EncryptionError::Timeout))));
    let mut shown = LuksUnlock::new("/dev/sda1".to_owned(), "cryptdata".to_owned(), Vec::new())
        .within(0);
    shown.record(Ok(()), &manager);
    shown.record(Ok(()), &manager);
    shown.record(Ok(()), &manager);
    assert!(matches!(shown.next(), UnlockStep::Finished(Ok(()))));
}

#[test]
fn a_device_that_cannot_be_opened_ends_the_unlocking() {
    let manager = machine();
    let mut job = LuksUnlock::new("/dev/sda1".to_owned(), "cryptdata".to_owned(), vec![1, 2, 3]);
    job.record(Err("wrong passphrase".to_owned()), &manager);
    match job.next() {
        UnlockStep::Finished(Err(EncryptionError::Cryptsetup(why))) => {
            assert_eq!(why, "wrong passphrase")
        }
        other => panic!("the job went on: {:?}", other),
    }
    job.record(Ok(()), &manager);
    assert!(matches!(job.next(), UnlockStep::Finished(Err(EncryptionError::Cryptsetup(_)))));
}

#[test]
fn the_errors_in_words() {
    assert_eq!(
        EncryptionError::DeviceNotFound.message(),
        "cannot unlock device which does not exist"
    );
    assert_eq!(EncryptionError::Cryptsetup("why".to_owned()).message(), "decryption failed");
    assert_eq!(EncryptionError::Timeout.message(), "the unlocked device did not show in time");
}
