use std::collections::BTreeMap;
use std::io::Write;


use vsb::logging::{Level, LogRecord};
use vsb::metadata::{Fingerprint, MetadataItem};
use vsb::restoring::plan::{first_step, older_step, RestorePlan};
use vsb::restoring::restorer::{
    check_restored, is_root_path, parent_of, restore_directories, CreateOutcome, DirectoryStep, EntryAction, EntryKind,
    RestoreState,
};
use vsb::storage::backup::Backup;
use vsb::storage::backup_group::BackupGroup;
use vsb::storage::provider::{File, Provider, ProviderType, ReadProvider};
use vsb::restoring::restorer::{quoted_paths, parse_backup_path, finish_restore};
use vsb::restoring::file_metadata::FileMetadata;

struct Files(BTreeMap<String, Vec<u8>>);

impl Provider for Files {
    fn name(&self) -> &'static str {
        "Files"
    }

    fn kind(&self) -> ProviderType {
        self.type_()
    }

    fn type_(&self) -> ProviderType {
        ProviderType::Local
    }
}

impl ReadProvider for Files {
    fn list_directory(&self, _path: &str) -> Result<Option<Vec<File>>, String> {
        Ok(None)
    }

    fn open_file(&self, path: &str) -> Result<Vec<u8>, String> {
        self.0.get(path).cloned().ok_or_else(|| "No such file".to_owned())
    }
}

fn item(path: &str, hash: u8, size: u64, unique: bool) -> MetadataItem {
    MetadataItem::new(path, size, vsb::hash::Hash::from_bytes(&[hash; 4]), Fingerprint::new(1, 2, 3, 4), unique).unwrap()
}

fn metadata(items: &[MetadataItem]) -> Vec<u8> {
    let mut encoder = bzip2::write::BzEncoder::new(Vec::new(), bzip2::Compression::default());
    for item in items {
        encoder.write_all(item.encode().as_bytes()).unwrap();
    }
    encoder.finish().unwrap()
}

fn paths_of(step_files: &[(String, vsb::restoring::plan::RestoringFile)]) -> Vec<(String, Vec<String>)> {
    step_files.iter().map(|(p, f)| (p.clone(), f.paths.clone())).collect()
}

#[test]
fn first_step_takes_own_data_and_collects_extern_files() {
    let items = vec![item("/a", 1, 10, false), item("/b", 2, 20, true), item("/e", 0, 0, false), item("/a2", 1, 10, false)];
    let step = first_step(&items);
    assert_eq!(paths_of(&step.files), vec![("/b".to_owned(), vec!["/b".to_owned()]), ("/e".to_owned(), vec!["/e".to_owned()])]);
    assert_eq!(step.to_find.len(), 1);
    assert!(step.to_find[0].0.equals(&vsb::hash::Hash::from_bytes(&[1; 4])));
    assert_eq!(step.to_find[0].1, vec!["/a", "/a2"]);
}

#[test]
fn older_steps_take_the_data_still_to_find() {
    let to_find = vec![(vsb::hash::Hash::from_bytes(&[1; 4]), vec!["/a".to_owned(), "/a2".to_owned()]), (vsb::hash::Hash::from_bytes(&[9; 4]), vec!["/z".to_owned()])];
    let older = vec![item("/old-a", 1, 10, true), item("/other", 3, 5, true)];
    let step = older_step(&older, to_find);
    assert_eq!(paths_of(&step.files), vec![("/old-a".to_owned(), vec!["/a".to_owned(), "/a2".to_owned()])]);
    assert_eq!(step.externs, vec!["/a", "/a2"]);
    assert_eq!(step.to_find.len(), 1);
    assert_eq!(step.to_find[0].1, vec!["/z"]);
}

fn group_with_backups() -> (BackupGroup, Files) {
    let mut group = BackupGroup::new("2020.01.01");
    let mut files = BTreeMap::new();
    for (name, items) in [
        ("2020.01.01-10:00:00", vec![item("/a", 1, 10, true), item("/b", 2, 20, true)]),
        ("2020.01.01-11:00:00", vec![item("/a", 1, 10, false), item("/c", 3, 30, true), item("/d", 4, 40, false)]),
        ("2020.01.01-12:00:00", vec![item("/x", 5, 1, true)]),
    ] {
        let path = format!("/backups/2020.01.01/{}", name);
        let mut b = Backup::new(&path, name);
        b.metadata_path = Some(format!("{}/metadata.zst", path));
        files.insert(format!("{}/metadata.zst", path), metadata(&items));
        group.backups.push(b);
    }
    (group, Files(files))
}

#[test]
fn restore_plans_take_extern_data_from_older_backups() {
    let (group, provider) = group_with_backups();
    let mut log: Vec<LogRecord> = Vec::new();
    let (plan, ok) = RestorePlan::new(&provider, group, "2020.01.01-11:00:00", &mut log).unwrap();
    assert!(!ok);
    let steps: Vec<(String, Vec<(String, Vec<String>)>)> = plan.steps.iter()
        .map(|s| (s.backup.name.clone(), paths_of(&s.files))).collect();
    assert_eq!(steps, vec![
        ("2020.01.01-11:00:00".to_owned(), vec![("/c".to_owned(), vec!["/c".to_owned()])]),
        ("2020.01.01-10:00:00".to_owned(), vec![("/a".to_owned(), vec!["/a".to_owned()])]),
    ]);
    assert_eq!(plan.extern_files, vec!["/a"]);
    assert_eq!(plan.missing_files, vec!["/d"]);
    assert!(log.iter().any(|r| r.level == Level::Error));
}

#[test]
fn restore_plans_of_missing_backups_fail() {
    let (group, provider) = group_with_backups();
    let mut log: Vec<LogRecord> = Vec::new();
    assert_eq!(RestorePlan::new(&provider, group, "2020.01.02-10:00:00", &mut log).err().unwrap(), "The backup doesn't exist");
}

#[test]
fn restore_plans_of_self_contained_backups() {
    let (group, provider) = group_with_backups();
    let mut log: Vec<LogRecord> = Vec::new();
    let (plan, ok) = RestorePlan::new(&provider, group, "2020.01.01-12:00:00", &mut log).unwrap();
    assert!(ok);
    assert_eq!(plan.steps.len(), 1);
    assert!(plan.extern_files.is_empty());
    assert!(plan.missing_files.is_empty());
}

fn group_with_a_bad_older_line() -> (BackupGroup, Files) {
    let mut group = BackupGroup::new("2020.01.01");
    let mut files = BTreeMap::new();
    let older = "/backups/2020.01.01/2020.01.01-10:00:00";
    let newer = "/backups/2020.01.01/2020.01.01-11:00:00";
    let mut encoder = bzip2::write::BzEncoder::new(Vec::new(), bzip2::Compression::default());
    encoder.write_all(item("/a", 1, 10, true).encode().as_bytes()).unwrap();
    encoder.write_all(b"not a metadata line\n").unwrap();
    files.insert(format!("{}/metadata.zst", older), encoder.finish().unwrap());
    files.insert(format!("{}/metadata.zst", newer), metadata(&[item("/a", 1, 10, false)]));
    for (path, name) in [(older, "2020.01.01-10:00:00"), (newer, "2020.01.01-11:00:00")] {
        let mut b = Backup::new(path, name);
        b.metadata_path = Some(format!("{}/metadata.zst", path));
        group.backups.push(b);
    }
    (group, Files(files))
}

#[test]
fn older_metadata_is_read_only_while_data_is_missing() {
    let (group, provider) = group_with_a_bad_older_line();
    let mut log: Vec<LogRecord> = Vec::new();
    let (plan, ok) = RestorePlan::new(&provider, group, "2020.01.01-11:00:00", &mut log).unwrap();
    assert!(ok);
    assert_eq!(plan.extern_files, vec!["/a"]);
    assert_eq!(plan.steps.len(), 2);
}

#[test]
fn unreadable_metadata_of_the_restored_backup_fails_the_plan() {
    let (group, provider) = group_with_a_bad_older_line();
    let mut log: Vec<LogRecord> = Vec::new();
    let error = RestorePlan::new(&provider, group, "2020.01.01-10:00:00", &mut log).err().unwrap();
    assert!(error.starts_with("Error while reading "), "{}", error);
}

fn set(paths: &[&str]) -> Vec<String> {
    paths.iter().map(|p| p.to_string()).collect()
}

#[test]
fn archive_entries_of_the_restored_backup() {
    let mut state = RestoreState::new(set(&["/ext"]), set(&["/missing"]));
    let mut log: Vec<LogRecord> = Vec::new();
    assert_eq!(state.on_entry(EntryKind::Regular, 5, "/own", true, true, &mut log).unwrap(), (EntryAction::RestoreFiles, true));
    assert_eq!(state.on_entry(EntryKind::Regular, 0, "/ext", false, true, &mut log).unwrap(), (EntryAction::ScheduleMetadata, true));
    assert_eq!(state.on_entry(EntryKind::Regular, 3, "/ext", false, true, &mut log).unwrap(), (EntryAction::ScheduleMetadata, false));
    assert_eq!(state.on_entry(EntryKind::Regular, 0, "/missing", false, true, &mut log).unwrap(), (EntryAction::Skip, true));
    assert_eq!(state.on_entry(EntryKind::Regular, 0, "/stray", false, true, &mut log).unwrap(), (EntryAction::Skip, false));
    assert_eq!(state.on_entry(EntryKind::Symlink, 0, "/l", false, true, &mut log).unwrap(), (EntryAction::Symlink, true));
    assert_eq!(state.on_entry(EntryKind::Symlink, 0, "/l", false, false, &mut log).unwrap(), (EntryAction::Skip, true));
    assert_eq!(state.on_entry(EntryKind::Other, 0, "/dev", false, true, &mut log).err().unwrap(), "Got an unsupported archive entry: \"/dev\"");
    assert_eq!(log.len(), 2);
    assert_eq!(log[0].message, "The backup archive has data for \"/ext\" file which is expected to be external.");
    assert_eq!(log[1].message, "The backup archive contains an unexpected \"/stray\" file. Ignore it.");
}

#[test]
fn directories_created_on_the_way_are_not_created_again() {
    let mut state = RestoreState::new(set(&[]), set(&[]));
    let mut log: Vec<LogRecord> = Vec::new();
    state.add_pre_created(vec!["/d".to_owned()]);
    assert_eq!(state.on_entry(EntryKind::Directory, 0, "/d", false, true, &mut log).unwrap(), (EntryAction::Directory { create: false }, true));
    assert_eq!(state.on_entry(EntryKind::Directory, 0, "/d", false, true, &mut log).unwrap(), (EntryAction::Directory { create: true }, true));
    assert_eq!(state.on_entry(EntryKind::Directory, 0, "/e", false, false, &mut log).unwrap(), (EntryAction::Skip, true));
}

#[test]
fn restored_extern_files_are_no_longer_pending() {
    let mut state = RestoreState::new(set(&["/ext"]), set(&[]));
    let mut log: Vec<LogRecord> = Vec::new();
    state.mark_restored("/ext");
    assert!(!state.pending.contains("/ext"));
    assert!(state.restored.contains("/ext"));
    assert_eq!(state.on_entry(EntryKind::Regular, 0, "/ext", false, true, &mut log).unwrap(), (EntryAction::ScheduleMetadata, true));
}

#[test]
fn restored_data_is_checked() {
    let h = vsb::hash::Hash::from_bytes(&[0xaa]);
    let other = vsb::hash::Hash::from_bytes(&[0xbb]);
    assert!(check_restored(3, &h, 3, &h, "/a").is_ok());
    assert_eq!(check_restored(2, &h, 3, &h, "/a").unwrap_err(), "Failed to restore /a: got an unexpected data size: 2 vs 3");
    assert_eq!(check_restored(3, &other, 3, &h, "/a").unwrap_err(), "Failed to restore /a: the restored data has an unexpected hash: bb vs aa");
}

#[test]
fn parents_of_paths() {
    assert_eq!(parent_of("/a/b"), Some("/a".to_owned()));
    assert_eq!(parent_of("/a"), Some("/".to_owned()));
    assert_eq!(parent_of("/"), None);
    assert_eq!(parent_of(""), None);
    assert_eq!(parent_of("a/b/"), Some("a".to_owned()));
    assert_eq!(parent_of("a"), Some("".to_owned()));
    assert!(is_root_path("/"));
    assert!(is_root_path("//"));
    assert!(!is_root_path("/a"));
}

fn finish_of(step: DirectoryStep) -> (Vec<String>, Vec<String>) {
    match step {
        DirectoryStep::Finish { to_create, restored } => (to_create, restored),
        DirectoryStep::TryCreate { path, .. } => panic!("unexpected attempt at {}", path),
    }
}

fn try_of(step: DirectoryStep) -> (String, String) {
    match step {
        DirectoryStep::TryCreate { path, restore_path } => (path, restore_path),
        DirectoryStep::Finish { .. } => panic!("unexpected end"),
    }
}

#[test]
fn missing_directories_are_created_highest_first() {
    let mut walk = restore_directories("/restore", "/a/b/c/file");
    assert_eq!(try_of(walk.next().unwrap()), ("/a/b/c".to_owned(), "/restore/a/b/c".to_owned()));
    assert!(walk.on_outcome(CreateOutcome::NotFound, "/restore/a/b/c", "").unwrap().is_none());
    assert_eq!(try_of(walk.next().unwrap()), ("/a/b".to_owned(), "/restore/a/b".to_owned()));
    assert!(walk.on_outcome(CreateOutcome::NotFound, "/restore/a/b", "").unwrap().is_none());
    assert_eq!(try_of(walk.next().unwrap()), ("/a".to_owned(), "/restore/a".to_owned()));
    let (to_create, restored) = finish_of(walk.on_outcome(CreateOutcome::Created, "/restore/a", "").unwrap().unwrap());
    assert_eq!(to_create, vec!["/restore/a/b", "/restore/a/b/c"]);
    assert_eq!(restored, vec!["/a/b/c", "/a/b", "/a"]);
}

#[test]
fn directory_walks_end_at_existing_directories_or_the_root() {
    let mut walk = restore_directories("/restore", "/a/file");
    try_of(walk.next().unwrap());
    let (to_create, restored) = finish_of(walk.on_outcome(CreateOutcome::AlreadyExists, "/restore/a", "").unwrap().unwrap());
    assert!(to_create.is_empty() && restored.is_empty());

    let mut walk = restore_directories("/restore", "/file");
    let (to_create, restored) = finish_of(walk.next().unwrap());
    assert!(to_create.is_empty() && restored.is_empty());

    let mut walk = restore_directories("/restore", "/a/file");
    try_of(walk.next().unwrap());
    assert_eq!(walk.on_outcome(CreateOutcome::Failed, "/restore/a", "Permission denied").err().unwrap(),
               "Unable to create \"/restore/a\": Permission denied");

    let mut walk = restore_directories("/restore", "/");
    assert_eq!(walk.next().err().unwrap(), "Invalid restoring file path: \"/\"");
}

#[test]
fn quoted_path_lists() {
    assert_eq!(quoted_paths(&vec![]), "");
    assert_eq!(quoted_paths(&vec!["/a".to_owned()]), "\"/a\"");
    assert_eq!(quoted_paths(&vec!["/a".to_owned(), "/b c".to_owned()]), "\"/a\", \"/b c\"");
}

#[test]
fn backup_paths_to_restore() {
    assert_eq!(parse_backup_path("/backups/2020.01.01/2020.01.01-10:00:00").unwrap(),
               ("/backups".to_owned(), "2020.01.01".to_owned(), "2020.01.01-10:00:00".to_owned()));
    assert_eq!(parse_backup_path("/2020.01.01/2020.01.01-10:00:00").unwrap().0, "/");
    assert_eq!(parse_backup_path("/backups/group/2020.01.01-10:00:00").unwrap_err(),
               "\"/backups/group/2020.01.01-10:00:00\" doesn't look like backup path");
    assert_eq!(parse_backup_path("/x").unwrap_err(), "Invalid backup path");
}

#[test]
fn the_end_of_a_restore_lists_what_is_missing() {
    let mut state = RestoreState::new(set(&["/ext1", "/ext2"]), set(&[]));
    state.mark_restored("/ext1");
    state.add_pre_created(vec!["/d1".to_owned(), "/d2".to_owned()]);
    let mut log: Vec<LogRecord> = Vec::new();
    state.on_entry(EntryKind::Directory, 0, "/d1", false, true, &mut log).unwrap();
    let meta = |t: i64| FileMetadata { owner: None, mode: Some(0o644), mtime: t };
    let scheduled = vec![("/a".to_owned(), meta(1)), ("/ext2".to_owned(), meta(2)), ("/b".to_owned(), meta(3))];
    let (to_apply, ok) = finish_restore(&state, &set(&["/ext1", "/ext2"]), &set(&["/d1", "/d2"]), &scheduled, &mut log);
    assert!(!ok);
    let applied: Vec<(String, i64)> = to_apply.into_iter().map(|(p, m)| (p, m.mtime)).collect();
    assert_eq!(applied, vec![("/b".to_owned(), 3), ("/a".to_owned(), 1)]);
    let messages: Vec<String> = log.iter().map(|r| r.message.clone()).collect();
    assert_eq!(messages, vec![
        "Failed to restore the following files (missing extern data):",
        "* /ext2",
        "The following directories have been unexpectedly restored without known permissions:",
        "* /d2",
    ]);

    let state = RestoreState::new(set(&[]), set(&[]));
    let mut log: Vec<LogRecord> = Vec::new();
    let (to_apply, ok) = finish_restore(&state, &set(&[]), &set(&[]), &scheduled, &mut log);
    assert!(ok && log.is_empty());
    assert_eq!(to_apply.len(), 3);
}
