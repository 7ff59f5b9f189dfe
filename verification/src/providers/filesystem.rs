//! The local file system as a provider: its name and type, and what a directory entry
//! becomes in a listing. The program reads the directories.

use vstd::prelude::*;

use crate::storage::provider::{File, FileType, Provider, ProviderType};
use crate::text::{debug_quoted, debug_str};

verus! {

/// The local file system.
pub struct Filesystem {}

impl Filesystem {
    pub fn new() -> (r: Filesystem) {
        Filesystem {}
    }
}

impl Provider for Filesystem {
    open spec fn kind(&self) -> ProviderType {
        ProviderType::Local
    }

    fn name(&self) -> (r: &'static str)
        ensures
            r@ == "Local storage"@,
    {
        "Local storage"
    }

    fn type_(&self) -> (r: ProviderType)
        ensures
            r == ProviderType::Local,
    {
        ProviderType::Local
    }
}

/// The listed file of a directory entry: `name` is the entry's name, or `Err` with the
/// name made readable where it is not valid Unicode; a regular file has a size, a
/// directory or anything else has none.
pub fn directory_entry(name: Result<String, String>, is_file: bool, is_dir: bool, len: u64) -> (r: Result<File, String>)
    ensures
        match name {
            Err(lossy) => r matches Err(e) && e@ == "Got an invalid file name: "@ + debug_quoted(lossy@),
            Ok(n) => r matches Ok(f) && f@ == (crate::storage::provider::FileView {
                name: n@,
                type_: if is_file { FileType::File } else if is_dir { FileType::Directory } else { FileType::Other },
                size: if is_file { Some(len) } else { None },
            }),
        },
{
    match name {
        Err(lossy) => {
            let mut m = String::from_str("Got an invalid file name: ");
            m.append(debug_str(lossy.as_str()).as_str());
            Err(m)
        },
        Ok(name) => {
            let type_ = if is_file { FileType::File } else if is_dir { FileType::Directory } else { FileType::Other };
            let size = if is_file { Some(len) } else { None };
            Ok(File { name, type_, size })
        },
    }
}

} // verus!
