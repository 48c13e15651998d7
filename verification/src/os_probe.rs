//! The probing for operating systems: which volume holds the boot loader,
//! and what its loader entries say.
//!
//! Mounting the volume and reading its files is done by the caller, who
//! hands over what the files hold.

use crate::disk_manager::DiskManager;
use crate::graph::Field;
use crate::text::after_first;
use crate::text::from_chars;
use crate::text::strip_first;
use crate::text::to_chars;
use crate::text::Separator;
use vstd::prelude::*;

verus! {

/// A Linux installation that was found on a partition, with what its
/// release file says of it.
#[derive(Debug)]
pub struct LinuxOS {
    pub partition: String,
    /// The name of the release.
    pub name: String,
    /// The version of the release.
    pub version: String,
}

/// An entry of the boot loader: the volume that holds it, and the UUID of
/// the root file system that it boots.
#[derive(Debug)]
pub struct OsEntry {
    pub path: String,
    pub uuid: String,
}

pub struct OsEntryView {
    pub path: Seq<char>,
    pub uuid: Seq<char>,
}

impl View for OsEntry {
    type V = OsEntryView;

    open spec fn view(&self) -> OsEntryView {
        OsEntryView { path: self.path@, uuid: self.uuid@ }
    }
}

/// The UUID of the root file system that a loader entry names: in the
/// first line that begins with `options `, what follows `root=UUID=` in
/// the first field that begins with it.
pub open spec fn root_uuid_of(entry: Seq<char>) -> Option<Seq<char>> {
    match after_first(entry, Separator::Newline, "options "@) {
        Some(options) => after_first(options, Separator::Whitespace, "root=UUID="@),
        None => None,
    }
}

/// The UUID of the root file system that a loader entry names.
pub fn root_uuid(entry: &str) -> (r: Option<String>)
    ensures
        match r {
            Some(uuid) => root_uuid_of(entry@) == Some(uuid@),
            None => root_uuid_of(entry@) is None,
        },
{
    let text = to_chars(entry);
    let options = match strip_first(&text, Separator::Newline, "options ") {
        Some(options) => options,
        None => return None,
    };
    match strip_first(&options, Separator::Whitespace, "root=UUID=") {
        Some(uuid) => Some(from_chars(&uuid)),
        None => None,
    }
}

/// The entries that the loader entries of a volume give: one for each of
/// the first `n` files that names a root file system, in the order of the
/// files.
pub open spec fn entries_of(partition: Seq<char>, files: Seq<Seq<char>>, n: nat) -> Seq<
    OsEntryView,
>
    decreases n,
{
    if n == 0 {
        Seq::empty()
    } else {
        let rest = entries_of(partition, files, (n - 1) as nat);
        match root_uuid_of(files[n - 1]) {
            Some(uuid) => rest.push(OsEntryView { path: partition, uuid }),
            None => rest,
        }
    }
}

/// The view of a list of entries.
pub open spec fn os_entries_view(entries: Seq<OsEntry>) -> Seq<OsEntryView> {
    Seq::new(entries.len(), |i: int| entries[i]@)
}

/// The boot entries of the volume `partition`, from what the files of its
/// loader entries hold.
pub fn locate_boot_entries(partition: &str, files: &Vec<String>) -> (r: Vec<OsEntry>)
    ensures
        os_entries_view(r@) == entries_of(
            partition@,
            crate::text::texts_view(files@),
            files@.len(),
        ),
{
    let ghost all = crate::text::texts_view(files@);
    let mut entries: Vec<OsEntry> = Vec::new();
    let mut i: usize = 0;
    assert(os_entries_view(entries@) =~= entries_of(partition@, all, 0));
    while i < files.len()
        invariant
            i <= files.len(),
            all == crate::text::texts_view(files@),
            os_entries_view(entries@) == entries_of(partition@, all, i as nat),
        decreases files.len() - i,
    {
        let ghost before = os_entries_view(entries@);
        assert(all[i as int] == files@[i as int]@);
        match root_uuid(files[i].as_str()) {
            Some(uuid) => {
                let ghost view = uuid@;
                entries.push(OsEntry { path: partition.to_owned(), uuid });
                assert(os_entries_view(entries@) =~= before.push(
                    OsEntryView { path: partition@, uuid: view },
                ));
            },
            None => {},
        }
        i += 1;
    }
    entries
}

/// The volume that holds the boot loader: the first name, in the order of
/// names, that stands for a disk or a partition with a `vfat` file system.
pub fn boot_partition(disk_manager: &DiskManager) -> (r: Option<&str>)
    requires
        disk_manager.wf(),
    ensures
        match r {
            Some(name) => disk_manager@.first_hit(Field::VolumeFilesystem, "vfat"@, name@),
            None => disk_manager@.no_hit(Field::VolumeFilesystem, "vfat"@),
        },
{
    match disk_manager.block_by(Field::VolumeFilesystem, "vfat") {
        Some((name, _)) => Some(name),
        None => None,
    }
}

/// The boot entries of the machine: those that the loader entries of the
/// boot volume give, `files` being what the files of these entries hold;
/// none where there is no boot volume.
pub fn boot_entries(disk_manager: &DiskManager, files: &Vec<String>) -> (r: Vec<OsEntry>)
    requires
        disk_manager.wf(),
    ensures
        disk_manager@.no_hit(Field::VolumeFilesystem, "vfat"@) ==> r@.len() == 0,
        forall|name: Seq<char>|
            disk_manager@.first_hit(Field::VolumeFilesystem, "vfat"@, name) ==> os_entries_view(
                r@,
            ) == entries_of(name, crate::text::texts_view(files@), files@.len()),
{
    match boot_partition(disk_manager) {
        Some(name) => {
            proof {
                assert forall|other: Seq<char>|
                    disk_manager@.first_hit(
                        Field::VolumeFilesystem,
                        "vfat"@,
                        other,
                    ) implies other == name@ by {
                    crate::graph::lemma_first_hit_unique(
                        disk_manager@,
                        Field::VolumeFilesystem,
                        "vfat"@,
                        other,
                        name@,
                    );
                }
            }
            locate_boot_entries(name, files)
        },
        None => {
            proof {
                assert forall|name: Seq<char>|
                    !disk_manager@.first_hit(Field::VolumeFilesystem, "vfat"@, name) by {
                    assert(!disk_manager@.hit(Field::VolumeFilesystem, "vfat"@, name));
                }
            }
            Vec::new()
        },
    }
}

} // verus!
