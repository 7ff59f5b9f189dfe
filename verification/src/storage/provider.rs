//! What the library asks of a storage provider (the local file system or a cloud service).

use vstd::prelude::*;

verus! {

/// Where a provider keeps its files.
#[derive(Clone, Copy, Debug, PartialEq, Eq, Structural)]
pub enum ProviderType {
    Local,
    Cloud,
}

/// The type of a listed file.
#[derive(Clone, Copy, Debug, PartialEq, Eq, Structural)]
pub enum FileType {
    File,
    Directory,
    Other,
}

impl FileType {
    /// How the type is named in messages.
    pub fn display_name(&self) -> (r: &'static str)
        ensures
            r@ == (if *self == FileType::Directory { "directory"@ } else { "file"@ }),
    {
        match self {
            FileType::Directory => "directory",
            FileType::File | FileType::Other => "file",
        }
    }
}

/// A file of a directory listing.
pub struct File {
    pub name: String,
    pub type_: FileType,
    pub size: Option<u64>,
}

/// What a listed file is: its name, type and size (if the provider tells it).
pub struct FileView {
    pub name: Seq<char>,
    pub type_: FileType,
    pub size: Option<u64>,
}

impl View for File {
    type V = FileView;

    open spec fn view(&self) -> FileView {
        FileView { name: self.name@, type_: self.type_, size: self.size }
    }
}

/// The views of some listed files.
pub open spec fn files_view(files: Seq<File>) -> Seq<FileView> {
    files.map_values(|f: File| f@)
}

/// A storage provider.
pub trait Provider {
    /// The name of the provider, for messages.
    fn name(&self) -> &'static str;

    /// Where the provider keeps its files, in specifications.
    spec fn kind(&self) -> ProviderType;

    /// Where the provider keeps its files.
    fn type_(&self) -> (r: ProviderType)
        ensures
            r == self.kind();
}

/// A provider whose files can be read.
pub trait ReadProvider: Provider {
    /// The files of a directory, or `None` if it does not exist.
    fn list_directory(&self, path: &str) -> Result<Option<Vec<File>>, String>;

    /// The contents of a file; a provider that can not open files says so.
    fn open_file(&self, path: &str) -> (r: Result<Vec<u8>, String>)
        default_ensures
            r matches Err(e) && exists|name: Seq<char>| e@ == name + " provider doesn't support file opening functionality"@,
    {
        let mut m = String::from_str(self.name());
        m.append(" provider doesn't support file opening functionality");
        Err(m)
    }
}

/// A provider that can be written to.
pub trait WriteProvider: Provider {
    /// Creates a directory.
    fn create_directory(&self, path: &str) -> Result<(), String>;

    /// Deletes a file or a directory with all its contents.
    fn delete(&self, path: &str) -> Result<(), String>;
}

/// The suffix that names a provider in messages about its files: nothing for local
/// storage, " on <name>" for a cloud.
pub open spec fn clarification_spec(type_: ProviderType, name: Seq<char>) -> Seq<char> {
    match type_ {
        ProviderType::Cloud => " on "@ + name,
        ProviderType::Local => Seq::empty(),
    }
}

/// The suffix that names a provider of the given type and name in messages.
pub fn clarification_for(type_: ProviderType, name: &str) -> (r: String)
    ensures
        r@ == clarification_spec(type_, name@),
{
    match type_ {
        ProviderType::Cloud => {
            let mut r = String::from_str(" on ");
            r.append(name);
            r
        },
        ProviderType::Local => String::new(),
    }
}

/// The suffix that names the provider in messages about its files.
pub fn clarification<P: Provider + ?Sized>(provider: &P) -> (r: String)
    ensures
        exists|n: Seq<char>| r@ == #[trigger] clarification_spec(provider.kind(), n),
{
    let r = clarification_for(provider.type_(), provider.name());
    r
}

} // verus!
