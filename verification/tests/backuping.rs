use std::io::Write;

use vsb::backuping::{load_backups_metadata, tar_path, truncation_warning, BackupWalk, DedupIndex, FsType, WalkAction};
use vsb::logging::{Level, LogRecord};
use vsb::metadata::{Fingerprint, MetadataItem};
use vsb::storage::backup::Backup;
use vsb::storage::backup_group::BackupGroup;
use vsb::storage::provider::{File, Provider, ProviderType, ReadProvider};

fn hash(b: u8) -> vsb::hash::Hash {
    vsb::hash::Hash::from_bytes(&[b; 4])
}

fn item(path: &str, h: u8, unique: bool, inode: u64) -> MetadataItem {
    MetadataItem::new(path, 10, hash(h), Fingerprint::new(1, inode, 3, 4), unique).unwrap()
}

fn messages(log: &[LogRecord]) -> Vec<String> {
    log.iter().map(|r| r.message.clone()).collect()
}

#[test]
fn the_index_holds_unique_data_and_the_last_file_states() {
    let loaded = vec![
        Ok(vec![item("/a", 1, true, 1), item("/b", 2, false, 2)]),
        Err("unreadable".to_owned()),
        Ok(vec![item("/a", 1, false, 1), item("/c", 3, true, 3)]),
    ];
    let index = DedupIndex::from_loaded(&loaded);
    assert!(index.has_data(&hash(1)));
    assert!(!index.has_data(&hash(2)));
    assert!(index.has_data(&hash(3)));

    let unchanged = index.deduplicate_unchanged("/a", &Fingerprint::new(1, 1, 3, 4), 10).unwrap();
    assert!(unchanged.0.equals(&hash(1)));
    assert_eq!(unchanged.1, 10);
    assert!(index.deduplicate_unchanged("/a", &Fingerprint::new(1, 9, 3, 4), 10).is_none());
    assert!(index.deduplicate_unchanged("/b", &Fingerprint::new(1, 2, 3, 4), 10).is_none());
    let empty = index.deduplicate_unchanged("/new", &Fingerprint::new(1, 1, 1, 1), 0).unwrap();
    assert!(empty.0.equals(&vsb::hash::empty_file_hash()));
    assert_eq!(empty.1, 0);
}

#[test]
fn an_unreadable_last_backup_leaves_no_file_states() {
    let loaded = vec![Ok(vec![item("/a", 1, true, 1)]), Err("unreadable".to_owned())];
    let index = DedupIndex::from_loaded(&loaded);
    assert!(index.deduplicate_unchanged("/a", &Fingerprint::new(1, 1, 3, 4), 10).is_none());
    assert!(index.has_data(&hash(1)));
}

#[test]
fn recorded_data_is_found_again() {
    let mut index = DedupIndex::from_loaded(&vec![]);
    assert!(!index.has_data(&hash(7)));
    let item = index.record_file("/x", 5, hash(7), Fingerprint::new(1, 1, 1, 1), true).unwrap();
    assert!(item.unique);
    assert!(index.has_data(&hash(7)));
    index.record_file("/y", 5, hash(8), Fingerprint::new(1, 1, 1, 1), false).unwrap();
    assert!(!index.has_data(&hash(8)));
    assert!(index.record_file("/bad\n", 5, hash(9), Fingerprint::new(1, 1, 1, 1), false).is_err());
}

struct Metadata(Vec<(String, Vec<u8>)>);

impl Provider for Metadata {
    fn name(&self) -> &'static str {
        "Local storage"
    }

    fn kind(&self) -> ProviderType {
        self.type_()
    }

    fn type_(&self) -> ProviderType {
        ProviderType::Local
    }
}

impl ReadProvider for Metadata {
    fn list_directory(&self, _path: &str) -> Result<Option<Vec<File>>, String> {
        Ok(None)
    }

    fn open_file(&self, path: &str) -> Result<Vec<u8>, String> {
        self.0.iter().find(|(p, _)| p == path).map(|(_, d)| d.clone()).ok_or_else(|| "No such file".to_owned())
    }
}

#[test]
fn loading_a_group_logs_unreadable_backups() {
    let mut encoder = bzip2::write::BzEncoder::new(Vec::new(), bzip2::Compression::default());
    encoder.write_all(item("/a", 1, true, 1).encode().as_bytes()).unwrap();
    let provider = Metadata(vec![("/g/b1/metadata.zst".to_owned(), encoder.finish().unwrap())]);
    let mut group = BackupGroup::new("g");
    for name in ["b1", "b2"] {
        let mut b = Backup::new(&format!("/g/{}", name), name);
        b.metadata_path = Some(format!("/g/{}/metadata.zst", name));
        group.backups.push(b);
    }
    let mut log: Vec<LogRecord> = Vec::new();
    let (index, ok) = load_backups_metadata(&provider, &group, &mut log);
    assert!(!ok);
    assert!(index.has_data(&hash(1)));
    assert_eq!(messages(&log), vec!["Failed to load \"b2\" backup metadata: Unable to open \"/g/b2/metadata.zst\": No such file"]);
}

#[test]
fn archive_paths_are_relative() {
    assert_eq!(tar_path("/home/user").unwrap(), "home/user");
    assert_eq!(tar_path("//x").unwrap(), "x");
    assert_eq!(tar_path("/").unwrap(), "");
    assert_eq!(tar_path("home").unwrap_err(), "An attempt to add an invalid path to data archive: \"home\"");
}

#[test]
fn backed_up_paths_must_not_overlap() {
    let mut walk = BackupWalk::new();
    walk.prepare("/home/user").unwrap();
    walk.prepare("/etc").unwrap();
    assert_eq!(walk.prepare("/home").unwrap_err(), "it intersects with previously backed up path");
    assert_eq!(walk.prepare("/home/user/docs").unwrap_err(), "it intersects with previously backed up path");
    walk.prepare("/home/username").unwrap();
    assert!(walk.ok());
}

#[test]
fn parents_are_added_once() {
    let mut walk = BackupWalk::new();
    let mut log: Vec<LogRecord> = Vec::new();
    assert_eq!(walk.parents_to_add("/home/user/docs", &mut log).unwrap(), vec!["/home", "/home/user"]);
    walk.add_parent("/home");
    assert_eq!(walk.parents_to_add("/home/other", &mut log).unwrap(), Vec::<String>::new());
    assert_eq!(walk.parents_to_add("/home/user/x", &mut log).unwrap(), vec!["/home/user"]);
    assert_eq!(walk.parents_to_add("/", &mut log).unwrap(), Vec::<String>::new());
    assert!(log.is_empty());
    assert!(walk.parents_to_add("home/user", &mut log).is_none());
    assert!(!walk.ok());
    assert_eq!(messages(&log), vec!["Failed to backup \"home/user\": invalid path."]);
}

#[test]
fn entries_by_type() {
    let mut walk = BackupWalk::new();
    let mut log: Vec<LogRecord> = Vec::new();
    assert_eq!(walk.entry_action("/f", FsType::File, false, &mut log), WalkAction::BackupFile);
    assert_eq!(walk.entry_action("/d", FsType::Directory, true, &mut log), WalkAction::BackupDirectory);
    assert_eq!(walk.entry_action("/l", FsType::Symlink, false, &mut log), WalkAction::BackupSymlink);
    assert!(log.is_empty());
    assert_eq!(walk.entry_action("/dev/null", FsType::Special, false, &mut log), WalkAction::Skip);
    assert!(walk.ok());
    assert_eq!(log[0].level, Level::Warn);
    assert_eq!(log[0].message, "Skipping \"/dev/null\": unsupported file type.");
    assert_eq!(walk.entry_action("/dev/null", FsType::Special, true, &mut log), WalkAction::Skip);
    assert!(!walk.ok());
    assert_eq!(log[1].message, "Failed to backup \"/dev/null\": unsupported file type.");
}

#[test]
fn access_errors() {
    let mut walk = BackupWalk::new();
    let mut log: Vec<LogRecord> = Vec::new();
    walk.access_error("/gone", false, false, true, "No such file", &mut log);
    assert!(walk.ok());
    assert_eq!(log[0].message, "Failed to backup \"/gone\": it was deleted during backing up.");
    walk.access_error("/changed", false, true, false, "Not a directory", &mut log);
    assert!(walk.ok());
    assert_eq!((log[1].level, log[1].message.as_str()), (Level::Warn, "Skipping \"/changed\": it changed its type during backing up."));
    walk.access_error("/item", true, false, true, "No such file or directory", &mut log);
    assert!(!walk.ok());
    assert_eq!(log[2].message, "Failed to backup \"/item\": No such file or directory.");
}

#[test]
fn commands_and_warnings() {
    let mut walk = BackupWalk::new();
    let mut log: Vec<LogRecord> = Vec::new();
    walk.command_outcome("/home", "before", Ok(true), &mut log);
    assert!(walk.ok() && log.is_empty());
    walk.command_outcome("/home", "after", Ok(false), &mut log);
    walk.command_outcome("/home", "before", Err("no bash".to_owned()), &mut log);
    assert!(!walk.ok());
    assert_eq!(messages(&log), vec![
        "`after` command for \"/home\" exited with error.",
        "Failed to execute `before` command for \"/home\": no bash.",
    ]);

    BackupWalk::hard_links("/f", 3, &mut log);
    assert_eq!(log[2].message, "\"/f\" has 2 hard links.");
    truncation_warning("/f", 5, 5, &mut log);
    assert_eq!(log.len(), 3);
    truncation_warning("/f", 4, 5, &mut log);
    assert_eq!(log[3].message, "\"/f\" has been truncated during backup.");
    assert!(BackupWalk::includes_directory("/", false));
    assert!(!BackupWalk::includes_directory("/", true));
    assert!(BackupWalk::includes_directory("/home", true));
}
