//! An archive and its entries.

use vstd::prelude::*;

verus! {

/// An archive: its entries in the order in which they stand in the stream.
#[derive(Clone, Debug, PartialEq, Eq)]
pub struct TarArchive {
    pub files: Vec<TarFile>,
}

/// One archived filesystem object: the fields of its header block, in the
/// order of the block, and its content.
#[derive(Clone, Debug, PartialEq, Eq)]
pub struct TarFile {
    /// The path, or its last 100 bytes where `prefix` holds the rest.
    pub file_name: String,
    /// The permission bits.
    pub file_mode: u128,
    pub owner_uid: u128,
    pub group_uid: u128,
    /// The declared length of the content in bytes.
    pub file_size: u128,
    /// The modification time in seconds since the epoch.
    pub last_mod_time: u128,
    /// The checksum that the header block stores.
    pub checksum: u128,
    /// The type flag: `"0"` for a regular file, `"5"` for a directory.
    pub link_indicator: String,
    /// The target of a link, empty for anything else.
    pub linked_file_nbame: String,
    pub ustar: String,
    pub ustar_version: String,
    pub owner_name: String,
    pub group_name: String,
    pub device_major: String,
    pub device_minor: String,
    /// What stands before `file_name` in a path of more than 100 bytes.
    pub prefix: String,
    pub body: Vec<u8>,
}

/// An entry as a mathematical value.
pub ghost struct EntryView {
    pub file_name: Seq<char>,
    pub file_mode: nat,
    pub owner_uid: nat,
    pub group_uid: nat,
    pub file_size: nat,
    pub last_mod_time: nat,
    pub checksum: nat,
    pub link_indicator: Seq<char>,
    pub linked_file_nbame: Seq<char>,
    pub ustar: Seq<char>,
    pub ustar_version: Seq<char>,
    pub owner_name: Seq<char>,
    pub group_name: Seq<char>,
    pub device_major: Seq<char>,
    pub device_minor: Seq<char>,
    pub prefix: Seq<char>,
    pub body: Seq<u8>,
}

impl View for TarFile {
    type V = EntryView;

    open spec fn view(&self) -> EntryView {
        EntryView {
            file_name: self.file_name@,
            file_mode: self.file_mode as nat,
            owner_uid: self.owner_uid as nat,
            group_uid: self.group_uid as nat,
            file_size: self.file_size as nat,
            last_mod_time: self.last_mod_time as nat,
            checksum: self.checksum as nat,
            link_indicator: self.link_indicator@,
            linked_file_nbame: self.linked_file_nbame@,
            ustar: self.ustar@,
            ustar_version: self.ustar_version@,
            owner_name: self.owner_name@,
            group_name: self.group_name@,
            device_major: self.device_major@,
            device_minor: self.device_minor@,
            prefix: self.prefix@,
            body: self.body@,
        }
    }
}

/// The views of a sequence of entries, in the same order.
pub open spec fn entry_views(files: Seq<TarFile>) -> Seq<EntryView> {
    Seq::new(files.len(), |i: int| files[i]@)
}

impl View for TarArchive {
    type V = Seq<EntryView>;

    open spec fn view(&self) -> Seq<EntryView> {
        entry_views(self.files@)
    }
}

} // verus!
