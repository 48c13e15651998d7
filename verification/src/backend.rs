//! The backend of the service: what it answers from the snapshot, and how
//! it starts the unlocking of a device.

use crate::disk_manager::DiskManager;
use crate::encryption::EncryptionError;
use crate::encryption::LuksUnlock;
use crate::encryption::LuksUnlockView;
use crate::encryption::UnlockStage;
use crate::graph::is_luks;
use crate::graph::Field;
use crate::graph::Graph;
use crate::name_index::rising;
use crate::os_probe::boot_entries;
use crate::os_probe::entries_of;
use crate::os_probe::os_entries_view;
use crate::os_probe::LinuxOS;
use crate::os_probe::OsEntry;
use crate::requests::Device;
use crate::requests::EncryptedDevice;
use crate::requests::OsInfo;
use crate::text::push_char;
use crate::text::str_eq;
use crate::udev::UDev;
use vstd::prelude::*;
use vstd::string::StringSliceAdditionalSpecFns;

verus! {

/// Why a device could not be decrypted.
#[derive(Debug)]
pub enum DecryptError {
    /// No device of the snapshot has a file system with this UUID.
    UnknownUuid,
    /// The device could not be unlocked.
    Unlock(EncryptionError),
}

impl DecryptError {
    /// The error in words.
    pub fn message(&self) -> (r: String)
        ensures
            r@ == (match self {
                DecryptError::UnknownUuid => "could not find block device by UUID"@,
                DecryptError::Unlock(_) => "err to unlock device"@,
            }),
    {
        match self {
            DecryptError::UnknownUuid => "could not find block device by UUID".to_owned(),
            DecryptError::Unlock(_) => "err to unlock device".to_owned(),
        }
    }
}

/// The byte is an ASCII letter or digit.
pub open spec fn is_alphanumeric(b: u8) -> bool {
    ||| 0x30 <= b <= 0x39
    ||| 0x41 <= b <= 0x5a
    ||| 0x61 <= b <= 0x7a
}

/// The bytes as characters.
pub open spec fn as_chars(bytes: Seq<u8>) -> Seq<char> {
    Seq::new(bytes.len(), |i: int| bytes[i] as char)
}

/// `rand::Rng::sample` on `rand::thread_rng()` with the distribution
/// `rand::distributions::Alphanumeric`: whichever byte is drawn, it is one
/// of the 62 ASCII letters and digits.
#[verifier::external_body]
fn sample_alphanumeric() -> (b: u8)
    ensures
        is_alphanumeric(b),
{
    rand::Rng::sample(&mut rand::thread_rng(), rand::distributions::Alphanumeric)
}

/// The mapper name with the given ending: `crypt-`, then the ending.
pub fn mapper_name(ending: &Vec<u8>) -> (name: String)
    ensures
        name@ == "crypt-"@ + as_chars(ending@),
{
    let mut name = "crypt-".to_owned();
    let mut i: usize = 0;
    assert(name@ =~= "crypt-"@ + as_chars(ending@.take(0)));
    while i < ending.len()
        invariant
            i <= ending.len(),
            name@ == "crypt-"@ + as_chars(ending@.take(i as int)),
        decreases ending.len() - i,
    {
        push_char(&mut name, ending[i] as char);
        assert(name@ =~= "crypt-"@ + as_chars(ending@.take(i + 1)));
        i += 1;
    }
    assert(ending@.take(i as int) =~= ending@);
    name
}

/// A mapper name for a device that is about to be unlocked: `crypt-`, then
/// six letters and digits drawn at random.
pub fn random_mapper_name() -> (name: String)
    ensures
        exists|ending: Seq<u8>|
            ending.len() == 6 && (forall|i: int|
                0 <= i < 6 ==> is_alphanumeric(#[trigger] ending[i])) && name@ == "crypt-"@
                + as_chars(ending),
{
    let mut ending: Vec<u8> = Vec::new();
    let mut i: usize = 0;
    while i < 6
        invariant
            i <= 6,
            ending@.len() == i,
            forall|k: int| 0 <= k < i ==> is_alphanumeric(#[trigger] ending@[k]),
        decreases 6 - i,
    {
        ending.push(sample_alphanumeric());
        i += 1;
    }
    mapper_name(&ending)
}

impl Graph {
    /// The name stands for a LUKS device on which nothing stands: one that
    /// is locked.
    pub open spec fn locked(self, name: Seq<char>) -> bool {
        &&& self.blocks.contains_key(name)
        &&& is_luks(self.device(self.blocks[name]))
        &&& self.device(self.blocks[name]).children.len() == 0
    }
}

/// The paths of the devices, in their order.
pub open spec fn paths(devices: Seq<EncryptedDevice>) -> Seq<Seq<char>> {
    Seq::new(devices.len(), |i: int| devices[i].device.path@)
}

/// The backend which carries out the requests.
pub struct Backend {
    pub disk_manager: DiskManager,
}

impl Backend {
    /// The locked LUKS devices of the snapshot, in the order of their
    /// names, each with the UUID of its container.
    pub fn encrypted_devices(&self) -> (r: Vec<EncryptedDevice>)
        requires
            self.disk_manager.wf(),
        ensures
            rising(paths(r@)),
            forall|name: Seq<char>|
                paths(r@).contains(name) <==> self.disk_manager@.locked(name),
            forall|i: int|
                0 <= i < r@.len() ==> Some((#[trigger] r@[i]).uuid@) == (
                match self.disk_manager@.device(
                    self.disk_manager@.blocks[r@[i].device.path@],
                ).fs {
                    Some(fs) => Some(fs.uuid),
                    None => None,
                }),
    {
        let manager = &self.disk_manager;
        let ghost g = manager@;
        let ghost names = manager.names();
        proof {
            manager.lemma_names();
        }
        let mut encrypted: Vec<EncryptedDevice> = Vec::new();
        let n = manager.len();
        let mut i: usize = 0;
        while i < n
            invariant
                i <= n,
                n == names.len(),
                names == manager.names(),
                g == manager@,
                manager.wf(),
                rising(names),
                forall|k: int| 0 <= k < names.len() ==> g.blocks.contains_key(#[trigger] names[k]),
                rising(paths(encrypted@)),
                forall|k: int|
                    0 <= k < encrypted@.len() ==> exists|j: int|
                        0 <= j < i && names[j] == #[trigger] paths(encrypted@)[k],
                forall|j: int|
                    0 <= j < i ==> (paths(encrypted@).contains(#[trigger] names[j]) <==> g.locked(
                        names[j],
                    )),
                forall|k: int|
                    0 <= k < encrypted@.len() ==> Some((#[trigger] encrypted@[k]).uuid@) == (
                    match g.device(g.blocks[encrypted@[k].device.path@]).fs {
                        Some(fs) => Some(fs.uuid),
                        None => None,
                    }),
            decreases n - i,
        {
            let (devname, block) = manager.entry(i);
            let device = manager.device_from_block(&block);
            let ghost before = encrypted@;
            let mut taken = false;
            match &device.fs {
                Some(fs) => {
                    if str_eq(fs.type_.as_str(), "crypto_LUKS") && device.children.len() == 0 {
                        encrypted.push(
                            EncryptedDevice {
                                device: Device { path: devname.to_owned() },
                                uuid: fs.uuid.clone(),
                            },
                        );
                        taken = true;
                    }
                },
                None => {},
            }
            proof {
                let here = names[i as int];
                let after = encrypted@;
                assert(taken == g.locked(here));
                if taken {
                    assert(paths(after) =~= paths(before).push(here));
                    assert forall|a: int, b: int|
                        0 <= a < b < after.len() implies crate::text::name_lt(
                        paths(after)[a],
                        paths(after)[b],
                    ) by {
                        if b == after.len() - 1 {
                            let j = choose|j: int| 0 <= j < i && names[j] == paths(before)[a];
                            assert(crate::text::name_lt(names[j], names[i as int]));
                        } else {
                            assert(crate::text::name_lt(paths(before)[a], paths(before)[b]));
                        }
                    }
                    assert forall|k: int| 0 <= k < after.len() implies exists|j: int|
                        0 <= j < i + 1 && names[j] == #[trigger] paths(after)[k] by {
                        if k < before.len() {
                            let j = choose|j: int| 0 <= j < i && names[j] == paths(before)[k];
                            assert(0 <= j < i + 1 && names[j] == paths(after)[k]);
                        } else {
                            assert(0 <= i < i + 1 && names[i as int] == paths(after)[k]);
                        }
                    }
                    assert forall|k: int| 0 <= k < after.len() implies Some(
                        (#[trigger] after[k]).uuid@,
                    ) == (match g.device(g.blocks[after[k].device.path@]).fs {
                        Some(fs) => Some(fs.uuid),
                        None => None,
                    }) by {
                        if k < before.len() {
                            assert(after[k] == before[k]);
                        }
                    }
                } else {
                    assert(paths(after) =~= paths(before));
                }
                assert forall|j: int| 0 <= j < i + 1 implies (paths(after).contains(
                    #[trigger] names[j],
                ) <==> g.locked(names[j])) by {
                    if j < i {
                        if paths(before).contains(names[j]) {
                            let k = choose|k: int|
                                0 <= k < paths(before).len() && paths(before)[k] == names[j];
                            assert(paths(after)[k] == names[j]);
                        }
                        if paths(after).contains(names[j]) {
                            let k = choose|k: int|
                                0 <= k < paths(after).len() && paths(after)[k] == names[j];
                            if k < before.len() {
                                assert(paths(before)[k] == names[j]);
                            } else {
                                crate::text::lemma_name_lt_irreflexive(names[j]);
                                assert(crate::text::name_lt(names[j], names[i as int]));
                            }
                        }
                    } else {
                        if taken {
                            assert(paths(after)[after.len() - 1] == here);
                        }
                        if paths(after).contains(here) {
                            let k = choose|k: int|
                                0 <= k < paths(after).len() && paths(after)[k] == here;
                            if k < before.len() {
                                let j2 = choose|j2: int|
                                    0 <= j2 < i && names[j2] == paths(before)[k];
                                crate::text::lemma_name_lt_irreflexive(here);
                                assert(crate::text::name_lt(names[j2], names[i as int]));
                            }
                        }
                    }
                }
            }
            i += 1;
        }
        proof {
            assert forall|name: Seq<char>| paths(encrypted@).contains(name) <==> g.locked(
                name,
            ) by {
                if paths(encrypted@).contains(name) {
                    let k = choose|k: int|
                        0 <= k < paths(encrypted@).len() && paths(encrypted@)[k] == name;
                    let j = choose|j: int| 0 <= j < i && names[j] == paths(encrypted@)[k];
                    assert(paths(encrypted@).contains(names[j]));
                }
                if g.locked(name) {
                    assert(names.contains(name));
                    let j = choose|j: int| 0 <= j < names.len() && names[j] == name;
                    assert(paths(encrypted@).contains(names[j]) <==> g.locked(names[j]));
                }
            }
        }
        encrypted
    }

    /// Starts the unlocking of the device whose file system has the UUID
    /// `device`, under the mapper name `name` and with the passphrase
    /// `key`: the job by which the caller unlocks the first device, in the
    /// order of names, with this UUID. There is none where no device has
    /// it.
    pub fn decrypt(&self, device: &str, name: &str, key: &str) -> (r: Result<
        LuksUnlock,
        DecryptError,
    >)
        requires
            self.disk_manager.wf(),
        ensures
            match r {
                Ok(job) => self.disk_manager@.first_hit(
                    Field::FilesystemUuid,
                    device@,
                    job@.device,
                ) && job@ == (LuksUnlockView {
                    device: job@.device,
                    dm_name: name@,
                    key: key.spec_bytes(),
                    stage: UnlockStage::Opening,
                    failure: None,
                    waits_left: None,
                }),
                Err(why) => why is UnknownUuid && self.disk_manager@.no_hit(
                    Field::FilesystemUuid,
                    device@,
                ),
            },
    {
        let devname = match self.disk_manager.block_by_uuid(device) {
            Some((devname, _)) => devname,
            None => return Err(DecryptError::UnknownUuid),
        };
        match self.disk_manager.luks_unlock(devname, name, key.as_bytes()) {
            Ok(job) => Ok(job),
            Err(why) => Err(DecryptError::Unlock(why)),
        }
    }

    /// The boot entries of the machine, `files` being what the files of
    /// the loader entries on the boot volume hold.
    pub fn os_entries(&self, files: &Vec<String>) -> (r: Vec<OsEntry>)
        requires
            self.disk_manager.wf(),
        ensures
            self.disk_manager@.no_hit(Field::VolumeFilesystem, "vfat"@) ==> r@.len() == 0,
            forall|name: Seq<char>|
                self.disk_manager@.first_hit(Field::VolumeFilesystem, "vfat"@, name)
                    ==> os_entries_view(r@) == entries_of(
                    name,
                    crate::text::texts_view(files@),
                    files@.len(),
                ),
    {
        boot_entries(&self.disk_manager, files)
    }

    /// What is reported of the operating systems that were found, in the
    /// order in which they were found.
    pub fn os_search(&self, found: &Vec<LinuxOS>) -> (r: Vec<OsInfo>)
        ensures
            r@.len() == found@.len(),
            forall|i: int| 0 <= i < r@.len() ==> linux_info_of(found@[i], #[trigger] r@[i]),
    {
        let mut operating_systems: Vec<OsInfo> = Vec::new();
        let mut i: usize = 0;
        while i < found.len()
            invariant
                i <= found.len(),
                operating_systems@.len() == i,
                forall|k: int|
                    0 <= k < i ==> linux_info_of(found@[k], #[trigger] operating_systems@[k]),
            decreases found.len() - i,
        {
            operating_systems.push(linux_info(&found[i]));
            i += 1;
        }
        operating_systems
    }

    /// Reloads the snapshot from what a scan yielded.
    pub fn reload(&mut self, udev: &UDev)
        ensures
            final(self).disk_manager.wf(),
            final(self).disk_manager@ == udev@.build(),
    {
        self.disk_manager.reload(udev);
    }

    /// Rescans the disks: reloads the snapshot from what a scan yielded.
    pub fn disk_rescan(&mut self, udev: &UDev)
        ensures
            final(self).disk_manager.wf(),
            final(self).disk_manager@ == udev@.build(),
    {
        self.disk_manager.reload(udev);
    }
}

/// What is reported of a Linux installation.
pub open spec fn linux_info_of(found: LinuxOS, info: OsInfo) -> bool {
    &&& info.device.path@ == found.partition@
    &&& info.identifier@ == "linux"@
    &&& info.name@ == found.name@
    &&& info.version@ == found.version@
}

/// What is reported of a Linux installation: where it was found, that it is
/// Linux, and the name and version of its release.
pub fn linux_info(found: &LinuxOS) -> (r: OsInfo)
    ensures
        linux_info_of(*found, r),
{
    OsInfo {
        device: Device { path: found.partition.clone() },
        identifier: "linux".to_owned(),
        name: found.name.clone(),
        version: found.version.clone(),
    }
}

} // verus!
