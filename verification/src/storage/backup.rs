//! A backup of a backup group: where its files are, what it holds and whether it can be
//! restored.

use vstd::prelude::*;
use vstd::hash_set::StringHashSet;

use crate::hash::to_hex;
use crate::logging::{Level, LogRecord, extends};
use crate::metadata::{MetadataItem, MetadataItemView, MetadataReader, items_view, metadata_results};
use crate::text::{debug_str, debug_quoted, slash_join, str_eq};

use super::provider::{clarification, File, FileType, FileView, ReadProvider, files_view};

verus! {

/// What a backup holds, by its metadata.
#[derive(Clone, Copy, Debug, PartialEq, Eq, Structural)]
pub struct BackupInnerStat {
    pub extern_files: usize,
    pub unique_files: usize,
    pub extern_size: u64,
    pub unique_size: u64,
}

/// How large a backup's files are.
#[derive(Clone, Copy, Debug, PartialEq, Eq, Structural)]
pub struct BackupOuterStat {
    pub metadata_size: u64,
    pub data_size: u64,
}

/// A backup: a directory (or, on a cloud, an archive) with a data and a metadata file.
pub struct Backup {
    pub path: String,
    pub name: String,
    /// The path of the metadata file, once the backup has been listed.
    pub metadata_path: Option<String>,
    pub inner_stat: Option<BackupInnerStat>,
    pub outer_stat: Option<BackupOuterStat>,
}

/// What a backup is, as values.
pub struct BackupView {
    pub path: Seq<char>,
    pub name: Seq<char>,
    pub metadata_path: Option<Seq<char>>,
    pub inner_stat: Option<BackupInnerStat>,
    pub outer_stat: Option<BackupOuterStat>,
}

impl View for Backup {
    type V = BackupView;

    open spec fn view(&self) -> BackupView {
        BackupView {
            path: self.path@,
            name: self.name@,
            metadata_path: match self.metadata_path {
                Some(p) => Some(p@),
                None => None,
            },
            inner_stat: self.inner_stat,
            outer_stat: self.outer_stat,
        }
    }
}

/// The name of a backup's data file.
pub open spec fn data_name() -> Seq<char> {
    "data.tar.zst"@
}

/// The name of a backup's metadata file.
pub open spec fn metadata_name() -> Seq<char> {
    "metadata.zst"@
}

/// The size of the last regular file of the listing with the given name: `None` if there is
/// no such file, `Some(None)` if the provider does not tell its size.
pub open spec fn file_size_of(files: Seq<FileView>, name: Seq<char>) -> Option<Option<u64>>
    decreases files.len(),
{
    if files.len() == 0 {
        None
    } else if files.last().type_ == FileType::File && files.last().name == name {
        Some(files.last().size)
    } else {
        file_size_of(files.drop_last(), name)
    }
}

/// What the listing of a backup directory (`None` if it does not exist) tells of the backup:
/// its file sizes (if known), or why it can not be read.
pub open spec fn listing_spec(listing: Option<Seq<FileView>>) -> Result<Option<BackupOuterStat>, Seq<char>> {
    match listing {
        None => Err("The backup doesn't exist"@),
        Some(files) => match file_size_of(files, data_name()) {
            None => Err("The backup is corrupted: data file is missing"@),
            Some(data_size) => match file_size_of(files, metadata_name()) {
                None => Err("The backup is corrupted: metadata file is missing"@),
                Some(metadata_size) => Ok(match (metadata_size, data_size) {
                    (Some(m), Some(d)) => Some(BackupOuterStat { metadata_size: m, data_size: d }),
                    _ => None,
                }),
            },
        },
    }
}

/// Whether a backup is what reading the backup of the given name at `path` gave: an
/// archived backup is bare; a backup directory has its metadata file in it and the sizes
/// that some listing of it gave (see `listing_spec`).
pub open spec fn backup_read_as(b: BackupView, path: Seq<char>, name: Seq<char>, archive: bool) -> bool {
    if archive {
        b == (BackupView { path, name, metadata_path: None, inner_stat: None, outer_stat: None })
    } else {
        &&& b.path == path
        &&& b.name == name
        &&& b.metadata_path == Some(path + "/"@ + metadata_name())
        &&& b.inner_stat is None
        &&& exists|l: Option<Seq<FileView>>| #[trigger] listing_spec(l) == Ok::<Option<BackupOuterStat>, Seq<char>>(b.outer_stat)
    }
}

/// The views of a listing, if there is one.
pub open spec fn listing_view(listing: Option<Vec<File>>) -> Option<Seq<FileView>> {
    match listing {
        Some(files) => Some(files_view(files@)),
        None => None,
    }
}

/// The index of the first error among some results, or their number if there is none.
pub open spec fn first_error<T>(rs: Seq<Result<T, ()>>) -> int
    decreases rs.len(),
{
    if rs.len() == 0 {
        0
    } else {
        let k = first_error(rs.drop_last());
        if k < rs.len() - 1 {
            k
        } else if rs.last() is Err {
            rs.len() - 1
        } else {
            rs.len() as int
        }
    }
}

/// The first error of a prefix is the first error of all results.
pub proof fn lemma_first_error_prefix<T>(rs: Seq<Result<T, ()>>, i: int, j: int)
    requires
        0 <= i <= j <= rs.len(),
        first_error(rs.take(i)) < i,
    ensures
        first_error(rs.take(j)) == first_error(rs.take(i)),
    decreases j - i,
{
    if j > i {
        lemma_first_error_prefix(rs, i, j - 1);
        assert(rs.take(j).drop_last() =~= rs.take(j - 1));
    }
}

/// The first error of some results lies within them.
pub proof fn lemma_first_error_bounds<T>(rs: Seq<Result<T, ()>>)
    ensures
        0 <= first_error(rs) <= rs.len(),
        first_error(rs) < rs.len() ==> rs[first_error(rs)] is Err,
        forall|j: int| 0 <= j < first_error(rs) ==> rs[j] is Ok,
    decreases rs.len(),
{
    if rs.len() > 0 {
        let init = rs.drop_last();
        lemma_first_error_bounds(init);
        assert forall|j: int| 0 <= j < first_error(rs) implies rs[j] is Ok by {
            if j < rs.len() - 1 {
                assert(init[j] == rs[j]);
            }
        }
    }
}

/// The items of a metadata file (compressed as it is kept), or `None` if one of them can not
/// be read.
pub open spec fn metadata_outcome(data: Seq<u8>) -> Option<Seq<MetadataItemView>> {
    let rs = metadata_results(data);
    if first_error(rs) < rs.len() { None } else { Some(ok_items(rs)) }
}

/// Whether some items are those of a metadata file.
pub open spec fn readable_items(items: Seq<MetadataItemView>) -> bool {
    exists|data: Seq<u8>| #[trigger] metadata_outcome(data) == Some(items)
}

/// The items of results that hold no error.
pub open spec fn ok_items(rs: Seq<Result<MetadataItemView, ()>>) -> Seq<MetadataItemView> {
    rs.map_values(|r: Result<MetadataItemView, ()>| r->Ok_0)
}

/// What inspecting the items of a backup's metadata finds, given the hashes (in hex) of
/// the files that the earlier backups of its group hold.
pub struct InspectOutcome {
    pub extern_files: int,
    pub unique_files: int,
    pub extern_size: int,
    pub unique_size: int,
    /// The number of extern files whose data no earlier backup holds.
    pub unrecoverable: nat,
    pub hashes: Set<Seq<char>>,
}

/// Unique files bring their data and add their hashes to the available ones; an extern
/// file of some data needs its hash to be available.
pub open spec fn inspect_spec(items: Seq<MetadataItemView>, hashes: Set<Seq<char>>) -> InspectOutcome
    decreases items.len(),
{
    if items.len() == 0 {
        InspectOutcome {
            extern_files: 0,
            unique_files: 0,
            extern_size: 0,
            unique_size: 0,
            unrecoverable: 0,
            hashes,
        }
    } else {
        let o = inspect_spec(items.drop_last(), hashes);
        let f = items.last();
        if f.unique {
            InspectOutcome {
                unique_files: o.unique_files + 1,
                unique_size: o.unique_size + f.size,
                hashes: o.hashes.insert(to_hex(f.hash)),
                ..o
            }
        } else {
            InspectOutcome {
                extern_files: o.extern_files + 1,
                extern_size: o.extern_size + f.size,
                unrecoverable: if f.size != 0 && !o.hashes.contains(to_hex(f.hash)) {
                    o.unrecoverable + 1
                } else {
                    o.unrecoverable
                },
                ..o
            }
        }
    }
}

/// A size sum as it is kept: capped at the largest `u64`.
pub open spec fn capped(v: int) -> u64 {
    if v > u64::MAX { u64::MAX } else { v as u64 }
}

/// The statistics of an inspection.
pub open spec fn stat_of(o: InspectOutcome) -> BackupInnerStat {
    BackupInnerStat {
        extern_files: o.extern_files as usize,
        unique_files: o.unique_files as usize,
        extern_size: capped(o.extern_size),
        unique_size: capped(o.unique_size),
    }
}

/// Whether all new records of a log are errors.
pub open spec fn all_errors_from(records: Seq<LogRecord>, from: int) -> bool {
    forall|j: int| from <= j < records.len() ==> (#[trigger] records[j]).level == Level::Error
}

/// The message that a metadata error is reported with starts so.
pub open spec fn metadata_error_prefix() -> Seq<char> {
    "Error while reading metadata file: "@
}

impl Backup {
    /// A backup with nothing known of it but where it is.
    pub fn new(path: &str, name: &str) -> (r: Backup)
        ensures
            r@ == (BackupView {
                path: path@,
                name: name@,
                metadata_path: None,
                inner_stat: None,
                outer_stat: None,
            }),
            r.path@ == path@,
            r.name@ == name@,
            r.inner_stat is None,
            r.outer_stat is None,
    {
        Backup {
            path: String::from_str(path),
            name: String::from_str(name),
            metadata_path: None,
            inner_stat: None,
            outer_stat: None,
        }
    }

    /// The size of the last regular file of a listing with the given name.
    fn find_file_size(files: &Vec<File>, name: &str) -> (r: Option<Option<u64>>)
        ensures
            r == file_size_of(files_view(files@), name@),
    {
        let mut found: Option<Option<u64>> = None;
        let mut i: usize = 0;
        while i < files.len()
            invariant
                i <= files@.len(),
                found == file_size_of(files_view(files@).take(i as int), name@),
            decreases files@.len() - i,
        {
            let file = &files[i];
            let is_file = match file.type_ {
                FileType::File => true,
                _ => false,
            };
            if is_file && str_eq(file.name.as_str(), name) {
                found = Some(file.size);
            }
            proof {
                assert(files_view(files@).take(i + 1).drop_last() =~= files_view(files@).take(i as int));
            }
            i += 1;
        }
        assert(files_view(files@).take(i as int) =~= files_view(files@));
        found
    }

    /// A backup read from the listing of its directory (what `list_directory` returned):
    /// the metadata file's path and, where the provider tells them, the sizes of its files.
    pub fn from_listing(name: &str, path: &str, listing: Result<Option<Vec<File>>, String>) -> (r: Result<Backup, String>)
        ensures
            listing matches Err(e) ==> r == Err::<Backup, String>(e),
            listing matches Ok(l) ==> match listing_spec(listing_view(l)) {
                Ok(outer) => r matches Ok(b) && b@ == (BackupView {
                    path: path@,
                    name: name@,
                    metadata_path: Some(path@ + "/"@ + metadata_name()),
                    inner_stat: None,
                    outer_stat: outer,
                }),
                Err(msg) => r matches Err(e) && e@ == msg,
            },
    {
        let files = match listing {
            Err(e) => return Err(e),
            Ok(None) => return Err(String::from_str("The backup doesn't exist")),
            Ok(Some(files)) => files,
        };
        let data_size = match Backup::find_file_size(&files, "data.tar.zst") {
            Some(size) => size,
            None => return Err(String::from_str("The backup is corrupted: data file is missing")),
        };
        let metadata_size = match Backup::find_file_size(&files, "metadata.zst") {
            Some(size) => size,
            None => return Err(String::from_str("The backup is corrupted: metadata file is missing")),
        };
        let mut backup = Backup::new(path, name);
        backup.metadata_path = Some(slash_join(path, "metadata.zst"));
        if let (Some(metadata_size), Some(data_size)) = (metadata_size, data_size) {
            backup.outer_stat = Some(BackupOuterStat { metadata_size, data_size });
        }
        Ok(backup)
    }

    /// Reads a backup of a group: an archived backup (a single file) is taken as it is, a
    /// backup directory is listed.
    pub fn read<P: ReadProvider + ?Sized>(provider: &P, name: &str, path: &str, archive: bool) -> (r: Result<Backup, String>)
        ensures
            archive ==> r is Ok,
            r matches Ok(b) ==> backup_read_as(b@, path@, name@, archive),
    {
        if archive {
            return Ok(Backup::new(path, name));
        }
        let listing = provider.list_directory(path);
        let ghost listed = listing;
        let r = Backup::from_listing(name, path, listing);
        proof {
            if let Ok(l) = listed {
                match listing_spec(listing_view(l)) {
                    Ok(_) => {},
                    Err(_) => {},
                }
            }
        }
        r
    }

    /// The metadata of the backup, from what opening its metadata file gave.
    pub fn metadata_from_file(&self, opened: Result<Vec<u8>, String>) -> (r: Result<MetadataReader, String>)
        ensures
            self@.metadata_path is None ==> (r matches Err(e) && e@ == "The backup has no metadata file"@),
            self@.metadata_path matches Some(path) ==> match opened {
                Ok(data) => r matches Ok(reader) && reader.remaining() == metadata_results(data@),
                Err(e) => r matches Err(m) && m@ == "Unable to open "@ + debug_quoted(path) + ": "@ + e@,
            },
    {
        let path = match &self.metadata_path {
            Some(path) => path,
            None => return Err(String::from_str("The backup has no metadata file")),
        };
        match opened {
            Ok(data) => Ok(MetadataReader::new(data.as_slice())),
            Err(e) => {
                let mut m = String::from_str("Unable to open ");
                m.append(debug_str(path.as_str()).as_str());
                m.append(": ");
                m.append(e.as_str());
                Err(m)
            },
        }
    }

    /// Opens the metadata of the backup.
    pub fn read_metadata<P: ReadProvider + ?Sized>(&self, provider: &P) -> (r: Result<MetadataReader, String>)
        ensures
            self@.metadata_path is None ==> (r matches Err(e) && e@ == "The backup has no metadata file"@),
            r matches Ok(reader) ==> exists|data: Seq<u8>| reader.remaining() == #[trigger] metadata_results(data),
    {
        let opened = match &self.metadata_path {
            Some(path) => provider.open_file(path.as_str()),
            None => Err(String::new()),
        };
        self.metadata_from_file(opened)
    }
}

impl Backup {
    /// All items of the backup's metadata, or the first error met while reading it.
    pub fn metadata_items<P: ReadProvider + ?Sized>(&self, provider: &P) -> (r: Result<Vec<MetadataItem>, String>)
        ensures
            self@.metadata_path is None ==> (r matches Err(e) && e@ == "The backup has no metadata file"@),
            r matches Ok(items) ==> exists|data: Seq<u8>| #[trigger] metadata_outcome(data) == Some(items_view(items@)),
    {
        let mut reader = match self.read_metadata(provider) {
            Ok(reader) => reader,
            Err(e) => return Err(e),
        };
        let ghost data = choose|data: Seq<u8>| reader.remaining() == #[trigger] metadata_results(data);
        let ghost rs = metadata_results(data);
        assert(rs.skip(0) =~= rs);
        assert(ok_items(rs.take(0)) =~= seq![]);
        let mut items: Vec<MetadataItem> = Vec::new();
        let total = reader.len_remaining();
        let mut i: usize = 0;
        while i < total
            invariant
                total == rs.len(),
                i <= total,
                self@.metadata_path is Some,
                reader.remaining() == rs.skip(i as int),
                first_error(rs.take(i as int)) == i,
                items_view(items@) == ok_items(rs.take(i as int)),
            decreases total - i,
        {
            let ghost items0 = items@;
            proof {
                assert(rs.skip(i as int)[0] == rs[i as int]);
                assert(rs.skip(i as int).drop_first() =~= rs.skip(i + 1));
                assert(rs.take(i + 1).drop_last() =~= rs.take(i as int));
            }
            match reader.next_item() {
                Some(Ok(item)) => {
                    assert(rs[i as int] == Ok::<MetadataItemView, ()>(item@));
                    items.push(item);
                    proof {
                        assert(items@ == items0.push(item));
                        assert(items_view(items0).len() == i);
                        assert forall|j: int| 0 <= j < i + 1 implies #[trigger] items_view(items@)[j] == ok_items(rs.take(i + 1))[j] by {
                            if j < i {
                                assert(items@[j] == items0[j]);
                                assert(ok_items(rs.take(i as int))[j] == items_view(items0)[j]);
                                assert(rs.take(i + 1)[j] == rs.take(i as int)[j]);
                            } else {
                                assert(rs.take(i + 1)[j] == rs[i as int]);
                            }
                        }
                        assert(items_view(items@) =~= ok_items(rs.take(i + 1)));
                    }
                },
                Some(Err(e)) => return Err(e),
                None => {},
            }
            i += 1;
        }
        proof {
            assert(rs.take(i as int) =~= rs);
            assert(metadata_outcome(data) == Some(items_view(items@)));
        }
        Ok(items)
    }
}

/// Counting the items of an inspection.
pub proof fn lemma_inspect_counts(items: Seq<MetadataItemView>, hashes: Set<Seq<char>>)
    ensures
        inspect_spec(items, hashes).extern_files + inspect_spec(items, hashes).unique_files == items.len(),
        inspect_spec(items, hashes).extern_files >= 0,
        inspect_spec(items, hashes).unique_files >= 0,
        inspect_spec(items, hashes).extern_size >= 0,
        inspect_spec(items, hashes).unique_size >= 0,
        inspect_spec(items, hashes).unrecoverable <= inspect_spec(items, hashes).extern_files,
    decreases items.len(),
{
    if items.len() > 0 {
        lemma_inspect_counts(items.drop_last(), hashes);
    }
}

/// A size sum that stays capped at the largest `u64`.
fn add_capped(a: u64, b: u64) -> (r: u64)
    ensures
        r == capped(a + b),
{
    a.saturating_add(b)
}

impl Backup {
    /// Inspects the items of the backup's metadata: counts its unique and extern files,
    /// adds the hashes (in hex) of its unique files to those available in its group, and
    /// checks that the data of each of its extern files is available. Logs an error for
    /// each file that can not be restored and for a backup without files. Returns whether
    /// the backup has files and all of them can be restored.
    pub fn inspect_items(
        &mut self,
        reader: MetadataReader,
        clarification: &str,
        available_hashes: &mut StringHashSet,
        log: &mut Vec<LogRecord>,
    ) -> (r: Result<bool, String>)
        ensures
            ({
                let rs = reader.remaining();
                let k = first_error(rs);
                let o = inspect_spec(ok_items(rs.take(k)), old(available_hashes)@);
                let has_files = o.unique_files != 0 || o.extern_files != 0;
                &&& final(available_hashes)@ == o.hashes
                &&& all_errors_from(final(log)@, old(log)@.len() as int)
                &&& extends(final(log)@, old(log)@)
                &&& if k < rs.len() {
                    &&& r matches Err(e) && metadata_error_prefix().is_prefix_of(e@)
                    &&& final(self)@ == old(self)@
                    &&& final(log)@.len() == old(log)@.len() + o.unrecoverable
                } else {
                    &&& r == Ok::<bool, String>(has_files && o.unrecoverable == 0)
                    &&& final(self)@ == (BackupView { inner_stat: Some(stat_of(o)), ..old(self)@ })
                    &&& final(log)@.len() == old(log)@.len() + o.unrecoverable + if has_files { 0int } else { 1int }
                }
            }),
    {
        let ghost rs = reader.remaining();
        let ghost hashes0 = available_hashes@;
        let ghost log0 = log@;
        let total = reader.len_remaining();
        let mut reader = reader;
        let mut i: usize = 0;
        let mut extern_files: usize = 0;
        let mut unique_files: usize = 0;
        let mut extern_size: u64 = 0;
        let mut unique_size: u64 = 0;
        let mut unrecoverable: usize = 0;
        let mut failure: Option<String> = None;
        assert(rs.skip(0) =~= rs);
        assert(rs.take(0).len() == 0);
        loop
            invariant_except_break
                failure is None,
                reader.remaining() == rs.skip(i as int),
            invariant
                i <= total,
                total == rs.len(),
                first_error(rs.take(i as int)) == i,
                ({
                    let o = inspect_spec(ok_items(rs.take(i as int)), hashes0);
                    &&& extern_files == o.extern_files
                    &&& unique_files == o.unique_files
                    &&& extern_size == capped(o.extern_size)
                    &&& unique_size == capped(o.unique_size)
                    &&& unrecoverable == o.unrecoverable
                    &&& available_hashes@ == o.hashes
                    &&& log@.len() == log0.len() + o.unrecoverable
                }),
                extends(log@, log0),
                all_errors_from(log@, log0.len() as int),
                old(self)@ == self@,
                old(available_hashes)@ == hashes0,
                old(log)@ == log0,
            ensures
                failure matches Some(m) ==> first_error(rs) == i && i < total
                    && metadata_error_prefix().is_prefix_of(m@),
                failure is None ==> i == total,
            decreases total - i,
        {
            let ghost before = reader.remaining();
            let next = reader.next_item();
            let item = match next {
                None => {
                    assert(rs.skip(i as int).len() == 0);
                    break;
                },
                Some(Err(e)) => {
                    proof {
                        assert(rs[i as int] == before[0]);
                        assert(rs.take(i + 1).drop_last() =~= rs.take(i as int));
                        assert(rs.take(i + 1).last() == rs[i as int]);
                        assert(first_error(rs.take(i + 1)) == i);
                        lemma_first_error_prefix(rs, i + 1, rs.len() as int);
                        assert(rs.take(rs.len() as int) =~= rs);
                    }
                    let mut m = String::from_str("Error while reading metadata file: ");
                    m.append(e.as_str());
                    proof {
                        reveal_strlit("Error while reading metadata file: ");
                        assert(m@.take(metadata_error_prefix().len() as int) =~= metadata_error_prefix());
                    }
                    failure = Some(m);
                    break;
                },
                Some(Ok(item)) => item,
            };
            let ghost items = ok_items(rs.take(i as int));
            let ghost o = inspect_spec(items, hashes0);
            proof {
                assert(rs[i as int] == before[0]);
                assert(rs.take(i + 1).drop_last() =~= rs.take(i as int));
                assert(ok_items(rs.take(i + 1)) =~= items.push(item@));
                assert(ok_items(rs.take(i + 1)).drop_last() =~= items);
                lemma_inspect_counts(items, hashes0);
                assert(before.drop_first() =~= rs.skip(i + 1));
            }
            let hex = item.hash.to_string();
            if item.unique {
                unique_files += 1;
                unique_size = add_capped(unique_size, item.size);
                available_hashes.insert(hex);
            } else {
                extern_files += 1;
                extern_size = add_capped(extern_size, item.size);
                if item.size != 0 && !available_hashes.contains(hex.as_str()) {
                    let mut m = debug_str(self.name.as_str());
                    m.append(" backup");
                    m.append(clarification);
                    m.append(" is not recoverable: unable to find extern ");
                    m.append(debug_str(item.path.as_str()).as_str());
                    m.append(" file in the backup group.");
                    let ghost log_before = log@;
                    crate::logging::log(log, Level::Error, m);
                    unrecoverable += 1;
                    proof {
                        assert(log@.drop_last() == log_before);
                        assert forall|j: int| log0.len() <= j < log@.len() implies (#[trigger] log@[j]).level == Level::Error by {
                            if j < log@.len() - 1 {
                                assert(log@[j] == log_before[j]);
                            }
                        }
                    }
                }
            }
            i += 1;
            proof {
                assert(capped(o.unique_size + item.size) == capped(capped(o.unique_size) + item.size));
                assert(capped(o.extern_size + item.size) == capped(capped(o.extern_size) + item.size));
            }
        }
        if let Some(m) = failure {
            return Err(m);
        }
        let ghost o = inspect_spec(ok_items(rs.take(i as int)), hashes0);
        proof {
            assert(i == rs.len());
            assert(rs.take(i as int) =~= rs);
            lemma_inspect_counts(ok_items(rs.take(i as int)), hashes0);
        }
        let has_files = unique_files != 0 || extern_files != 0;
        if !has_files {
            let mut m = debug_str(self.name.as_str());
            m.append(" backup");
            m.append(clarification);
            m.append(" don't have any files.");
            let ghost log_before = log@;
            crate::logging::log(log, Level::Error, m);
            proof {
                assert(log@.drop_last() == log_before);
                assert forall|j: int| log0.len() <= j < log@.len() implies (#[trigger] log@[j]).level == Level::Error by {
                    if j < log@.len() - 1 {
                        assert(log@[j] == log_before[j]);
                    }
                }
            }
        }
        self.inner_stat = Some(BackupInnerStat { extern_files, unique_files, extern_size, unique_size });
        Ok(has_files && unrecoverable == 0)
    }

    /// Inspects the backup (see `inspect_items`), reading its metadata from the provider.
    pub fn inspect<P: ReadProvider + ?Sized>(
        &mut self,
        provider: &P,
        available_hashes: &mut StringHashSet,
        log: &mut Vec<LogRecord>,
    ) -> (r: Result<bool, String>)
        ensures
            old(self)@.metadata_path is None ==> (r matches Err(e) && e@ == "The backup has no metadata file"@
                && final(self)@ == old(self)@ && final(available_hashes)@ == old(available_hashes)@
                && final(log)@ == old(log)@),
            final(self)@.path == old(self)@.path,
            final(self)@.name == old(self)@.name,
            final(self)@.metadata_path == old(self)@.metadata_path,
            final(self)@.outer_stat == old(self)@.outer_stat,
            r is Err ==> final(self)@ == old(self)@,
            old(available_hashes)@.subset_of(final(available_hashes)@),
            extends(final(log)@, old(log)@),
            all_errors_from(final(log)@, old(log)@.len() as int),
            r matches Ok(b) ==> exists|items: Seq<MetadataItemView>| {
                let o = #[trigger] inspect_spec(items, old(available_hashes)@);
                &&& exists|data: Seq<u8>| #[trigger] metadata_outcome(data) == Some(items)
                &&& b == ((o.unique_files != 0 || o.extern_files != 0) && o.unrecoverable == 0)
                &&& final(self)@.inner_stat == Some(stat_of(o))
                &&& final(available_hashes)@ == o.hashes
            },
    {
        let reader = match self.read_metadata(provider) {
            Ok(reader) => reader,
            Err(e) => {
                return Err(e);
            },
        };
        let clarification = clarification(provider);
        let ghost rs = reader.remaining();
        let ghost hashes0 = available_hashes@;
        let r = self.inspect_items(reader, clarification.as_str(), available_hashes, log);
        proof {
            lemma_inspect_hashes_grow(ok_items(rs.take(first_error(rs))), hashes0);
            if r is Ok {
                let data = choose|data: Seq<u8>| rs == #[trigger] metadata_results(data);
                assert(rs.take(first_error(rs)) =~= rs);
                assert(metadata_outcome(data) == Some(ok_items(rs)));
                assert(inspect_spec(ok_items(rs), hashes0) == inspect_spec(ok_items(rs.take(first_error(rs))), hashes0));
            }
        }
        r
    }
}

/// Inspection only adds hashes.
pub proof fn lemma_inspect_hashes_grow(items: Seq<MetadataItemView>, hashes: Set<Seq<char>>)
    ensures
        hashes.subset_of(inspect_spec(items, hashes).hashes),
    decreases items.len(),
{
    if items.len() > 0 {
        lemma_inspect_hashes_grow(items.drop_last(), hashes);
    }
}


/// What an inspection finds, in terms of the items alone: the data available at the end is
/// that available at the start and that of the unique files; and no file is unrecoverable
/// exactly when every extern file that has data (a size other than 0) finds its data among
/// that available at the start and that of the unique files before it. An empty extern file
/// is never unrecoverable.
pub proof fn lemma_inspect_finds(items: Seq<MetadataItemView>, hashes: Set<Seq<char>>)
    ensures
        inspect_spec(items, hashes).hashes == hashes + crate::backuping::unique_hashes(items),
        inspect_spec(items, hashes).unrecoverable == 0 <==> forall|k: int| 0 <= k < items.len()
            && !(#[trigger] items[k]).unique && items[k].size != 0
            ==> (hashes + crate::backuping::unique_hashes(items.take(k))).contains(to_hex(items[k].hash)),
    decreases items.len(),
{
    if items.len() == 0 {
        assert(hashes + crate::backuping::unique_hashes(items) =~= hashes);
    } else {
        let init = items.drop_last();
        let m = items.len() - 1;
        let f = items.last();
        lemma_inspect_finds(init, hashes);
        lemma_inspect_counts(init, hashes);
        let u0 = crate::backuping::unique_hashes(init);
        if f.unique {
            assert(hashes + u0.insert(to_hex(f.hash)) =~= (hashes + u0).insert(to_hex(f.hash)));
        }
        assert(items.take(m) =~= init);
        assert(items[m] == f);
        let all = forall|k: int| 0 <= k < items.len() && !(#[trigger] items[k]).unique && items[k].size != 0
            ==> (hashes + crate::backuping::unique_hashes(items.take(k))).contains(to_hex(items[k].hash));
        let all0 = forall|k: int| 0 <= k < init.len() && !(#[trigger] init[k]).unique && init[k].size != 0
            ==> (hashes + crate::backuping::unique_hashes(init.take(k))).contains(to_hex(init[k].hash));
        assert(all0 ==> (forall|k: int| 0 <= k < m && !(#[trigger] items[k]).unique && items[k].size != 0
            ==> (hashes + crate::backuping::unique_hashes(items.take(k))).contains(to_hex(items[k].hash)))) by {
            if all0 {
                assert forall|k: int| 0 <= k < m && !(#[trigger] items[k]).unique && items[k].size != 0
                    implies (hashes + crate::backuping::unique_hashes(items.take(k))).contains(to_hex(items[k].hash)) by {
                    assert(init[k] == items[k]);
                    assert(init.take(k) =~= items.take(k));
                }
            }
        }
        assert(all ==> all0) by {
            if all {
                assert forall|k: int| 0 <= k < init.len() && !(#[trigger] init[k]).unique && init[k].size != 0
                    implies (hashes + crate::backuping::unique_hashes(init.take(k))).contains(to_hex(init[k].hash)) by {
                    assert(init[k] == items[k]);
                    assert(init.take(k) =~= items.take(k));
                }
            }
        }
    }
}

} // verus!
