use vsb::logging::{Level, LogRecord};
use vsb::metrics::{collect, collect_last_backup, collect_total, metrics_plan, Gauge};
use vsb::restoring::file_metadata::{get_file_metadata, EntryHeader, FileMetadata, Owner};
use vsb::storage::backup::{Backup, BackupInnerStat, BackupOuterStat};
use vsb::storage::backup_group::BackupGroup;
use vsb::users::UsersCache;

fn backup(name: &str, stats: bool) -> Backup {
    let mut b = Backup::new(&format!("/b/{}", name), name);
    if stats {
        b.inner_stat = Some(BackupInnerStat { extern_files: 1, unique_files: 2, extern_size: 30, unique_size: 40 });
        b.outer_stat = Some(BackupOuterStat { metadata_size: 5, data_size: 6 });
    }
    b
}

fn group(name: &str, backups: Vec<Backup>) -> BackupGroup {
    let mut g = BackupGroup::new(name);
    g.backups = backups;
    g
}

#[test]
fn metrics_of_backups() {
    let groups = vec![group("g1", vec![backup("a", true), backup("b", true)]), group("g2", vec![])];
    let (inner, outer) = collect_last_backup(&groups).unwrap().unwrap();
    assert_eq!(inner.unique_files, 2);
    assert_eq!(outer.data_size, 6);
    assert_eq!(collect_total(&groups).unwrap(), (10, 12));

    let samples: Vec<(Gauge, String, String, u64)> = collect("home", &groups).unwrap()
        .into_iter().map(|s| (s.gauge, s.name, s.type_, s.value)).collect();
    let expected: Vec<(Gauge, &str, &str, u64)> = vec![
        (Gauge::Files, "home", "extern", 1),
        (Gauge::Files, "home", "unique", 2),
        (Gauge::FilesSize, "home", "extern", 30),
        (Gauge::FilesSize, "home", "unique", 40),
        (Gauge::Size, "home", "metadata", 5),
        (Gauge::Size, "home", "data", 6),
        (Gauge::TotalSize, "home", "metadata", 10),
        (Gauge::TotalSize, "home", "data", 12),
    ];
    let expected: Vec<(Gauge, String, String, u64)> = expected.into_iter()
        .map(|(g, n, t, v)| (g, n.to_owned(), t.to_owned(), v)).collect();
    assert_eq!(samples, expected);
}

#[test]
fn metrics_without_backups_are_the_totals() {
    let samples: Vec<(Gauge, u64)> = collect("x", &[]).unwrap().into_iter().map(|s| (s.gauge, s.value)).collect();
    assert_eq!(samples, vec![(Gauge::TotalSize, 0), (Gauge::TotalSize, 0)]);
    assert_eq!(collect_last_backup(&[]).unwrap(), None);
}

#[test]
fn metrics_need_statistics() {
    let groups = vec![group("g1", vec![backup("a", false), backup("b", true)])];
    assert!(collect_last_backup(&groups).unwrap().is_some());
    assert_eq!(collect_total(&groups).unwrap_err(), "The backup has no collected statistics");
    assert_eq!(collect("x", &groups).err().unwrap(), "The backup has no collected statistics");
    let groups = vec![group("g1", vec![backup("a", true), backup("b", false)])];
    assert_eq!(collect_last_backup(&groups).unwrap_err(), "The backup has no collected statistics");
}

fn header(uid: u64, username: Option<&str>, symlink: bool, mtime: u64) -> EntryHeader {
    EntryHeader {
        path: Some("home/user/file".to_owned()),
        uid: Ok(uid),
        username: Ok(username.map(str::to_owned)),
        gid: Ok(100),
        groupname: Ok(None),
        symlink,
        mode: Ok(0o644),
        mtime: Ok(mtime),
    }
}

#[test]
fn metadata_without_owners() {
    let mut users: Option<UsersCache> = None;
    let m = get_file_metadata(&header(1000, Some("root"), false, 1234), &mut users).unwrap();
    assert_eq!(m, FileMetadata { owner: None, mode: Some(0o644), mtime: 1234 });
    let m = get_file_metadata(&header(1000, None, true, 1), &mut users).unwrap();
    assert_eq!(m.mode, None);
}

#[test]
fn metadata_with_owners_maps_names() {
    let mut users = Some(UsersCache::new());
    let m = get_file_metadata(&header(1000, Some("root"), false, 1), &mut users).unwrap();
    assert_eq!(m.owner, Some(Owner { uid: 0, gid: 100 }));
    let m = get_file_metadata(&header(1000, Some("vsb-no-such-user"), false, 1), &mut users).unwrap();
    assert_eq!(m.owner, Some(Owner { uid: 1000, gid: 100 }));
    assert!(users.is_some());
}

#[test]
fn metadata_errors() {
    let mut users = Some(UsersCache::new());
    let h = header(1 << 40, None, false, 1);
    assert_eq!(
        get_file_metadata(&h, &mut users).err().unwrap(),
        "Got an invalid user ID for \"home/user/file\" from archive: out of range integral type conversion attempted",
    );
    let mut none: Option<UsersCache> = None;
    assert!(get_file_metadata(&h, &mut none).is_ok());

    let mut h = header(1, None, false, u64::MAX);
    h.path = None;
    assert_eq!(
        get_file_metadata(&h, &mut none).err().unwrap(),
        "Got an invalid file modification time from archive: out of range integral type conversion attempted",
    );

    let mut h = header(1, None, false, 1);
    h.username = Err("invalid utf-8".to_owned());
    assert_eq!(
        get_file_metadata(&h, &mut users).err().unwrap(),
        "Got an invalid user name for \"home/user/file\" from archive: invalid utf-8",
    );
    let mut h = header(1, None, false, 1);
    h.mode = Err("bad mode".to_owned());
    assert_eq!(get_file_metadata(&h, &mut none).err().unwrap(), "bad mode");
}

#[test]
fn user_lookups_are_remembered() {
    let mut users = UsersCache::new();
    assert_eq!(users.get_uid("root").unwrap(), Some(0));
    assert_eq!(users.get_uid("root").unwrap(), Some(0));
    assert_eq!(users.get_gid("root").unwrap(), Some(0));
    assert_eq!(users.get_uid("vsb-no-such-user").unwrap(), None);
}

#[test]
fn metrics_need_verified_backups() {
    let mut log: Vec<LogRecord> = Vec::new();
    assert_eq!(metrics_plan(true, true, &mut log), (true, true));
    assert_eq!(metrics_plan(true, false, &mut log), (true, false));
    assert_eq!(metrics_plan(false, false, &mut log), (false, false));
    assert!(log.is_empty());
    assert_eq!(metrics_plan(false, true, &mut log), (false, false));
    assert_eq!(log.len(), 1);
    assert_eq!(log[0].level, Level::Warn);
    assert_eq!(log[0].message, "Skip metrics collection due to disabled backup verification.");
}
