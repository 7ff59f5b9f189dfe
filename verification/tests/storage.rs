use std::cell::RefCell;
use std::collections::BTreeMap;
use std::io::Write;


use vsb::logging::{Level, LogRecord};
use vsb::metadata::{Fingerprint, MetadataItem};
use vsb::storage::backup::Backup;
use vsb::storage::backup_group::{root_files, sort_files, BackupGroup};
use vsb::storage::provider::{clarification, clarification_for, File, FileType, Provider, ProviderType, ReadProvider, WriteProvider};
use vsb::storage::traits::BackupTraits;
use vsb::storage::{choose_backup_group, groups_to_delete, GroupChoice, Storage};

/// A provider that keeps its directories and files in memory.
struct MemoryProvider {
    type_: ProviderType,
    dirs: RefCell<BTreeMap<String, Vec<(String, FileType, Option<u64>)>>>,
    files: BTreeMap<String, Vec<u8>>,
}

impl MemoryProvider {
    fn new(type_: ProviderType) -> MemoryProvider {
        MemoryProvider { type_, dirs: RefCell::new(BTreeMap::new()), files: BTreeMap::new() }
    }

    fn add(&mut self, dir: &str, name: &str, type_: FileType, size: Option<u64>) {
        self.dirs.borrow_mut().entry(dir.to_owned()).or_default().push((name.to_owned(), type_, size));
        if type_ == FileType::Directory {
            self.dirs.borrow_mut().entry(format!("{}/{}", dir, name)).or_default();
        }
    }

    fn add_file(&mut self, dir: &str, name: &str, data: Vec<u8>) {
        self.add(dir, name, FileType::File, Some(data.len() as u64));
        self.files.insert(format!("{}/{}", dir, name), data);
    }

    fn names(&self, dir: &str) -> Vec<String> {
        self.dirs.borrow().get(dir).map(|v| v.iter().map(|f| f.0.clone()).collect()).unwrap_or_default()
    }
}

fn split_path(path: &str) -> (&str, &str) {
    let i = path.rfind('/').unwrap();
    (&path[..i], &path[i + 1..])
}

impl Provider for MemoryProvider {
    fn name(&self) -> &'static str {
        "Memory"
    }

    fn kind(&self) -> ProviderType {
        self.type_()
    }

    fn type_(&self) -> ProviderType {
        self.type_
    }
}

impl ReadProvider for MemoryProvider {
    fn list_directory(&self, path: &str) -> Result<Option<Vec<File>>, String> {
        Ok(self.dirs.borrow().get(path).map(|files| {
            files.iter().map(|(name, type_, size)| File { name: name.clone(), type_: *type_, size: *size }).collect()
        }))
    }

    fn open_file(&self, path: &str) -> Result<Vec<u8>, String> {
        self.files.get(path).cloned().ok_or_else(|| "No such file".to_owned())
    }
}

impl WriteProvider for MemoryProvider {
    fn create_directory(&self, path: &str) -> Result<(), String> {
        let (parent, name) = split_path(path);
        let mut dirs = self.dirs.borrow_mut();
        dirs.get_mut(parent).ok_or_else(|| "No parent".to_owned())?.push((name.to_owned(), FileType::Directory, None));
        dirs.insert(path.to_owned(), Vec::new());
        Ok(())
    }

    fn delete(&self, path: &str) -> Result<(), String> {
        let (parent, name) = split_path(path);
        let mut dirs = self.dirs.borrow_mut();
        dirs.get_mut(parent).ok_or_else(|| "No parent".to_owned())?.retain(|f| f.0 != name);
        let prefix = format!("{}/", path);
        dirs.retain(|k, _| k != path && !k.starts_with(&prefix));
        Ok(())
    }
}

fn metadata(items: &[MetadataItem]) -> Vec<u8> {
    let mut encoder = bzip2::write::BzEncoder::new(Vec::new(), bzip2::Compression::default());
    for item in items {
        encoder.write_all(item.encode().as_bytes()).unwrap();
    }
    encoder.finish().unwrap()
}

fn item(path: &str, hash: u8, size: u64, unique: bool) -> MetadataItem {
    MetadataItem::new(path, size, vsb::hash::Hash::from_bytes(&[hash; 4]), Fingerprint::new(1, 2, 3, 4), unique).unwrap()
}

fn add_backup(p: &mut MemoryProvider, group: &str, name: &str, items: &[MetadataItem]) {
    let group_path = format!("/backups/{}", group);
    p.add(&group_path, name, FileType::Directory, None);
    let backup_path = format!("{}/{}", group_path, name);
    p.add(&backup_path, "data.tar.zst", FileType::File, Some(100));
    p.add_file(&backup_path, "metadata.zst", metadata(items));
}

/// A local storage with two groups: the first holds two backups (the second one's file
/// being extern), a temporary backup and a stray file; the second is empty.
fn local_storage() -> MemoryProvider {
    let mut p = MemoryProvider::new(ProviderType::Local);
    p.dirs.borrow_mut().insert("/backups".to_owned(), Vec::new());
    p.add("/backups", "2020.01.01", FileType::Directory, None);
    p.add("/backups", "2020.01.02", FileType::Directory, None);
    add_backup(&mut p, "2020.01.01", "2020.01.01-10:00:00", &[item("/a", 1, 10, true), item("/b", 2, 20, true)]);
    add_backup(&mut p, "2020.01.01", "2020.01.01-11:00:00", &[item("/a", 1, 10, false), item("/c", 3, 30, true)]);
    p.add("/backups/2020.01.01", ".2020.01.01-12:00:00", FileType::Directory, None);
    p.add("/backups/2020.01.01", ".hidden", FileType::File, Some(1));
    p
}

#[test]
fn clarifications_name_clouds_only() {
    assert_eq!(clarification_for(ProviderType::Local, "Local storage"), "");
    assert_eq!(clarification_for(ProviderType::Cloud, "Dropbox"), " on Dropbox");
    assert_eq!(clarification(&MemoryProvider::new(ProviderType::Cloud)), " on Memory");
    assert_eq!(FileType::Directory.display_name(), "directory");
    assert_eq!(FileType::Other.display_name(), "file");
}

#[test]
fn backup_traits_of_providers() {
    let local = BackupTraits::get_for(ProviderType::Local);
    assert_eq!(local.extension, "");
    assert_eq!(local.is_backup_name("2020.01.01-10:00:00"), Some(true));
    assert_eq!(local.is_backup_name("2020.01.01-10:00:00.tar.gpg"), Some(false));
    assert_eq!(local.is_group_name("2020.01.01"), Some(true));
    assert_eq!(local.is_group_name("2020.1.01"), Some(false));

    let cloud = BackupTraits::get_for(ProviderType::Cloud);
    assert_eq!(cloud.extension, ".tar.gpg");
    assert_eq!(cloud.backup_name_in("2020.01.01-10:00:00.tar.gpg"), Some(Some("2020.01.01-10:00:00.tar.gpg".to_owned())));
    assert_eq!(cloud.backup_name_in("2020.01.01-10:00:00"), Some(None));
}

#[test]
fn backup_paths() {
    let storage = Storage::new_read_write(MemoryProvider::new(ProviderType::Local), "/backups//");
    assert_eq!(storage.get_backup_group_path("g"), "/backups/g");
    assert_eq!(storage.get_backup_path("g", "b", false), "/backups/g/b");
    assert_eq!(storage.get_backup_path("g", "b", true), "/backups/g/.b");

    let cloud = Storage::new_read_write(MemoryProvider::new(ProviderType::Cloud), "/Backups");
    assert_eq!(cloud.get_backup_file_name("b", false), "b.tar.gpg");
    assert_eq!(cloud.get_backup_path("g", "b", true), "/Backups/g/.b.tar.gpg");
}

#[test]
fn files_are_sorted_by_name() {
    let files = vec![
        File { name: "b".to_owned(), type_: FileType::File, size: None },
        File { name: "a".to_owned(), type_: FileType::Directory, size: None },
        File { name: "B".to_owned(), type_: FileType::File, size: Some(1) },
    ];
    let names: Vec<String> = sort_files(files).into_iter().map(|f| f.name).collect();
    assert_eq!(names, vec!["B", "a", "b"]);
}

#[test]
fn backups_from_listings() {
    let files = vec![
        File { name: "metadata.zst".to_owned(), type_: FileType::File, size: Some(5) },
        File { name: "data.tar.zst".to_owned(), type_: FileType::File, size: Some(10) },
    ];
    let b = Backup::from_listing("n", "/g/n", Ok(Some(files))).unwrap();
    assert_eq!(b.metadata_path.as_deref(), Some("/g/n/metadata.zst"));
    let stat = b.outer_stat.unwrap();
    assert_eq!((stat.metadata_size, stat.data_size), (5, 10));

    assert_eq!(Backup::from_listing("n", "/g/n", Ok(None)).err().unwrap(), "The backup doesn't exist");
    let only_data = vec![File { name: "data.tar.zst".to_owned(), type_: FileType::File, size: None }];
    assert_eq!(Backup::from_listing("n", "/g/n", Ok(Some(only_data))).err().unwrap(),
               "The backup is corrupted: metadata file is missing");
    assert_eq!(Backup::from_listing("n", "/g/n", Ok(Some(vec![]))).err().unwrap(),
               "The backup is corrupted: data file is missing");
    assert_eq!(Backup::from_listing("n", "/g/n", Err("denied".to_owned())).err().unwrap(), "denied");
}

#[test]
fn groups_of_a_storage() {
    let storage = Storage::new_read_only(local_storage(), "/backups");
    let mut log: Vec<LogRecord> = Vec::new();
    let (groups, ok) = storage.get_backup_groups(false, &mut log).unwrap();
    assert!(ok, "{:?}", log.iter().map(|r| r.message.clone()).collect::<Vec<_>>());
    let names: Vec<&str> = groups.iter().map(|g| g.name.as_str()).collect();
    assert_eq!(names, vec!["2020.01.01", "2020.01.02"]);
    let backups: Vec<&str> = groups[0].backups.iter().map(|b| b.name.as_str()).collect();
    assert_eq!(backups, vec!["2020.01.01-10:00:00", "2020.01.01-11:00:00"]);
    assert_eq!(groups[0].temporary_backups.len(), 1);
    assert_eq!(groups[0].temporary_backups[0].name, "2020.01.01-12:00:00");
    assert_eq!(groups[0].backups[0].path, "/backups/2020.01.01/2020.01.01-10:00:00");
    assert!(groups[1].backups.is_empty());
}

#[test]
fn unexpected_files_spoil_a_storage() {
    let mut p = local_storage();
    p.add("/backups", "README", FileType::File, Some(3));
    p.add("/backups/2020.01.02", "junk", FileType::File, Some(3));
    let storage = Storage::new_read_only(p, "/backups");
    let mut log: Vec<LogRecord> = Vec::new();
    let (groups, ok) = storage.get_backup_groups(false, &mut log).unwrap();
    assert!(!ok);
    assert_eq!(groups.len(), 2);
    assert!(log.iter().any(|r| r.level == Level::Error && r.message.contains("README")));
    assert!(log.iter().any(|r| r.level == Level::Error && r.message.contains("junk")));
}

#[test]
fn verifying_backups_inspects_their_metadata() {
    let storage = Storage::new_read_only(local_storage(), "/backups");
    let mut log: Vec<LogRecord> = Vec::new();
    let (groups, ok) = storage.get_backup_groups(true, &mut log).unwrap();
    assert!(ok, "{:?}", log.iter().map(|r| r.message.clone()).collect::<Vec<_>>());
    let stat = groups[0].backups[1].inner_stat.unwrap();
    assert_eq!((stat.unique_files, stat.unique_size, stat.extern_files, stat.extern_size), (1, 30, 1, 10));
    let stat = groups[0].backups[0].inner_stat.unwrap();
    assert_eq!((stat.unique_files, stat.unique_size, stat.extern_files, stat.extern_size), (2, 30, 0, 0));
}

#[test]
fn missing_extern_data_is_an_error() {
    let mut p = local_storage();
    add_backup(&mut p, "2020.01.02", "2020.01.02-10:00:00", &[item("/z", 9, 1, false)]);
    let storage = Storage::new_read_only(p, "/backups");
    let mut log: Vec<LogRecord> = Vec::new();
    let (_, ok) = storage.get_backup_groups(true, &mut log).unwrap();
    assert!(!ok);
    assert!(log.iter().any(|r| r.level == Level::Error));
}

#[test]
fn read_only_storages_can_not_be_changed() {
    let storage = Storage::new_read_only(local_storage(), "/backups");
    let mut log: Vec<LogRecord> = Vec::new();
    let message = "An attempt to modify a read-only backup storage";
    assert_eq!(storage.create_backup_group("2020.01.03", &mut log).err().unwrap(), message);
    assert_eq!(storage.delete_backup_group("2020.01.01").err().unwrap(), message);
    assert_eq!(storage.create_backup(5, "2020.01.03", "2020.01.03-10:00:00", &mut log).err().unwrap(), message);
}

#[test]
fn group_choice() {
    let mut g1 = BackupGroup::new("g1");
    g1.backups.push(Backup::new("/g1/b", "b"));
    let g2 = BackupGroup::new("g2");
    let groups = vec![g1, g2];
    assert_eq!(choose_backup_group(&groups, 1, "g3"), GroupChoice::UseLast);
    let mut full = BackupGroup::new("g2");
    full.backups.push(Backup::new("/g2/b", "b"));
    let groups = vec![BackupGroup::new("g1"), full];
    assert_eq!(choose_backup_group(&groups, 1, "g3"), GroupChoice::Create);
    assert_eq!(choose_backup_group(&groups, 1, "g1"), GroupChoice::Exists);
    assert_eq!(choose_backup_group(&vec![], 1, "g1"), GroupChoice::Create);
}

#[test]
fn old_groups_to_delete() {
    assert_eq!(groups_to_delete(5, 3, true), 2);
    assert_eq!(groups_to_delete(5, 3, false), 0);
    assert_eq!(groups_to_delete(2, 3, true), 0);
}

#[test]
fn new_backups_go_to_the_last_group_with_room() {
    let storage = Storage::new_read_write(local_storage(), "/backups");
    let mut log: Vec<LogRecord> = Vec::new();
    let (group, backup) = storage.create_backup(2, "2020.01.03", "2020.01.03-10:00:00", &mut log).unwrap();
    assert_eq!(group.name, "2020.01.02");
    assert_eq!(backup.name, "2020.01.03-10:00:00");
    assert_eq!(backup.path, "/backups/2020.01.02/.2020.01.03-10:00:00");
    assert_eq!(storage.provider.names("/backups/2020.01.02"), vec![".2020.01.03-10:00:00"]);
}

#[test]
fn new_backups_open_a_new_group_when_the_last_is_full() {
    let mut p = local_storage();
    add_backup(&mut p, "2020.01.02", "2020.01.02-10:00:00", &[item("/a", 1, 10, false)]);
    let storage = Storage::new_read_write(p, "/backups");
    let mut log: Vec<LogRecord> = Vec::new();
    let (group, backup) = storage.create_backup(1, "2020.01.03", "2020.01.03-10:00:00", &mut log).unwrap();
    assert_eq!(group.name, "2020.01.03");
    assert_eq!(backup.path, "/backups/2020.01.03/.2020.01.03-10:00:00");
    assert_eq!(storage.provider.names("/backups"), vec!["2020.01.01", "2020.01.02", "2020.01.03"]);
}

#[test]
fn old_groups_are_collected() {
    let storage = Storage::new_read_write(local_storage(), "/backups");
    let mut log: Vec<LogRecord> = Vec::new();
    assert!(storage.gc_groups(1, &mut log).unwrap());
    assert_eq!(storage.provider.names("/backups"), vec!["2020.01.02"]);
    assert!(storage.gc_groups(1, &mut log).unwrap());
    assert_eq!(storage.provider.names("/backups"), vec!["2020.01.02"]);
}

#[test]
fn groups_are_created_and_deleted() {
    let storage = Storage::new_read_write(local_storage(), "/backups");
    let mut log: Vec<LogRecord> = Vec::new();
    let g = storage.create_backup_group("2020.02.01", &mut log).unwrap();
    assert_eq!(g.name, "2020.02.01");
    assert!(storage.provider.names("/backups").contains(&"2020.02.01".to_owned()));
    storage.delete_backup_group("2020.02.01").unwrap();
    assert!(!storage.provider.names("/backups").contains(&"2020.02.01".to_owned()));
}

#[test]
fn collecting_groups_logs_each_deletion() {
    let storage = Storage::new_read_write(local_storage(), "/backups");
    let mut log: Vec<LogRecord> = Vec::new();
    assert!(storage.gc_groups(1, &mut log).unwrap());
    let messages: Vec<&str> = log.iter().map(|r| r.message.as_str()).collect();
    assert_eq!(messages.last().copied(), Some("Deleting \"2020.01.01\" backup group..."));
}

#[test]
fn groups_are_not_collected_after_errors() {
    let mut p = local_storage();
    p.add("/backups", "README", FileType::File, Some(3));
    let storage = Storage::new_read_write(p, "/backups");
    let mut log: Vec<LogRecord> = Vec::new();
    assert!(!storage.gc_groups(1, &mut log).unwrap());
    assert_eq!(log.last().unwrap().message, "Do not remove old backup groups due to errors above.");
    assert_eq!(storage.provider.names("/backups"), vec!["2020.01.01", "2020.01.02", "README"]);
}

#[test]
fn read_only_storages_fail_to_collect_groups() {
    let storage = Storage::new_read_only(local_storage(), "/backups");
    let mut log: Vec<LogRecord> = Vec::new();
    assert!(!storage.gc_groups(1, &mut log).unwrap());
    assert_eq!(
        log.last().unwrap().message,
        "Failed to delete \"2020.01.01\" backup group: An attempt to modify a read-only backup storage."
    );
    assert_eq!(storage.provider.names("/backups"), vec!["2020.01.01", "2020.01.02"]);
}

#[test]
fn inspecting_groups() {
    let provider = local_storage();
    let mut log: Vec<LogRecord> = Vec::new();
    let mut empty = BackupGroup::new("2020.01.05");
    assert!(empty.inspect(&provider, &mut log));
    let mut group = BackupGroup::new("2020.01.05");
    group.backups.push(Backup::new("/backups/2020.01.05/2020.01.05-10:00:00", "2020.01.05-10:00:00"));
    assert!(!group.inspect(&provider, &mut log));
    assert_eq!(log.last().unwrap().level, Level::Error);
}

/// A provider that can list directories but not open files.
struct ListingOnly;

impl Provider for ListingOnly {
    fn name(&self) -> &'static str {
        "Listing"
    }

    fn kind(&self) -> ProviderType {
        self.type_()
    }

    fn type_(&self) -> ProviderType {
        ProviderType::Cloud
    }
}

impl ReadProvider for ListingOnly {
    fn list_directory(&self, _path: &str) -> Result<Option<Vec<File>>, String> {
        Ok(None)
    }
}

#[test]
fn providers_without_file_opening_say_so() {
    assert_eq!(ListingOnly.open_file("/a").unwrap_err(), "Listing provider doesn't support file opening functionality");
}

#[test]
fn missing_backup_roots_are_errors() {
    assert_eq!(root_files(Ok(None), "/b").err().unwrap(), "\"/b\" backup root doesn't exist");
    assert_eq!(root_files(Err("boom".to_owned()), "/b").err().unwrap(), "boom");
    let files = root_files(Ok(Some(vec![
        File { name: "b".to_owned(), type_: FileType::Directory, size: None },
        File { name: "a".to_owned(), type_: FileType::Directory, size: None },
    ])), "/b").ok().unwrap();
    assert_eq!(files.iter().map(|f| f.name.as_str()).collect::<Vec<_>>(), vec!["a", "b"]);
}

#[test]
fn strict_group_reads_fail_on_unreadable_backups() {
    let mut p = local_storage();
    p.add("/backups/2020.01.02", "2020.01.02-10:00:00", FileType::Directory, None);
    p.dirs.borrow_mut().insert("/backups/2020.01.02/2020.01.02-10:00:00".to_owned(), Vec::new());
    let mut log: Vec<LogRecord> = Vec::new();
    assert_eq!(
        BackupGroup::read(&p, "2020.01.02", "/backups/2020.01.02", true, &mut log).err().unwrap(),
        "Error while reading \"/backups/2020.01.02/2020.01.02-10:00:00\" backup: The backup is corrupted: data file is missing"
    );
    let (group, ok) = BackupGroup::read(&p, "2020.01.02", "/backups/2020.01.02", false, &mut log).unwrap();
    assert!(!ok);
    assert!(group.backups.is_empty());
}

#[test]
fn backup_times_are_read_from_backup_names() {
    let storage = Storage::new_read_only(MemoryProvider::new(ProviderType::Local), "/backups");
    assert_eq!(storage.get_backup_time("not a backup").err().unwrap(), "Invalid backup name: \"not a backup\"");
    let early = storage.get_backup_time("2020.01.01-10:00:00").unwrap();
    let late = storage.get_backup_time("2020.01.02-10:00:00").unwrap();
    assert!(late > early);
}

#[test]
fn checked_backups_log_what_is_wrong() {
    let storage = Storage::new_read_only(MemoryProvider::new(ProviderType::Local), "/backups");
    let empty = BackupGroup::new("2020.01.01");
    let mut log: Vec<LogRecord> = Vec::new();
    vsb::check::check_backups(&storage, &[empty], false, Some(60), &mut log);
    assert_eq!(log.len(), 2);
    assert_eq!(log[0].level, Level::Warn);
    assert_eq!(log[0].message, "Memory has an empty \"2020.01.01\" backup group.");
    assert_eq!(log[1].level, Level::Error);
    assert_eq!(log[1].message, "Memory have no backups.");

    let mut group = BackupGroup::new("2020.01.01");
    group.backups.push(Backup::new("/backups/2020.01.01/2020.01.01-10:00:00", "2020.01.01-10:00:00"));
    let mut log: Vec<LogRecord> = Vec::new();
    vsb::check::check_backups(&storage, &[group], true, Some(60), &mut log);
    assert_eq!(log.len(), 1);
    assert!(log[0].message.starts_with("Memory doesn't have any backup for last "), "{}", log[0].message);
}

#[test]
fn name_patterns_match_whole_names() {
    let local = BackupTraits::get_for(ProviderType::Local);
    assert_eq!(local.backup_name_in("2020.01.01-10:00:00"), Some(Some("2020.01.01-10:00:00".to_owned())));
    assert_eq!(local.backup_name_in("x2020.01.01-10:00:00"), Some(None));
    assert_eq!(local.backup_name_in("2020.01.01-10:00:00\n"), Some(None));
    let cloud = BackupTraits::get_for(ProviderType::Cloud);
    assert_eq!(cloud.backup_name_in("2020.01.01-10:00:00.tar.gpg"), Some(Some("2020.01.01-10:00:00.tar.gpg".to_owned())));
    assert_eq!(cloud.backup_name_in("2020.01.01-10:00:00.tar.gpg.old"), Some(None));
}
