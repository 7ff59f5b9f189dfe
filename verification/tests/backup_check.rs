use vsb::check::{check_last_backup_age, find_last_backup, human_duration};
use vsb::logging::{Level, LogRecord};
use vsb::storage::backup::Backup;
use vsb::storage::backup_group::BackupGroup;

fn group(name: &str, backups: &[&str]) -> BackupGroup {
    let mut g = BackupGroup::new(name);
    for b in backups {
        g.backups.push(Backup::new(&format!("/backups/{}/{}", name, b), b));
    }
    g
}

#[test]
fn human_durations() {
    assert_eq!(human_duration(90061), "1 days 1 hours 1 minutes");
    assert_eq!(human_duration(86400), "1 days");
    assert_eq!(human_duration(3660), "1 hours 1 minutes");
    assert_eq!(human_duration(172800 + 59), "2 days");
    assert_eq!(human_duration(59), "");
    assert_eq!(human_duration(7200), "2 hours");
}

#[test]
fn last_backup_of_the_last_nonempty_group() {
    let groups = vec![group("2020.01.01", &["2020.01.01-10:00:00", "2020.01.02-10:00:00"]), group("2020.02.01", &[])];
    let mut log: Vec<LogRecord> = Vec::new();
    assert_eq!(find_last_backup("Local storage", &groups, true, &mut log), Some("2020.01.02-10:00:00".to_owned()));
    assert_eq!(log.len(), 1);
    assert_eq!(log[0].level, Level::Error);
    assert_eq!(log[0].message, "Local storage has an empty \"2020.02.01\" backup group.");
}

#[test]
fn empty_groups_are_warnings_when_inconsistent() {
    let groups = vec![group("g1", &[]), group("g2", &["b"])];
    let mut log: Vec<LogRecord> = Vec::new();
    assert_eq!(find_last_backup("Cloud", &groups, false, &mut log), Some("b".to_owned()));
    assert_eq!(log.len(), 1);
    assert_eq!(log[0].level, Level::Warn);
}

#[test]
fn no_backups_at_all() {
    let mut log: Vec<LogRecord> = Vec::new();
    assert_eq!(find_last_backup("Local storage", &[], true, &mut log), None);
    assert_eq!(log.len(), 1);
    assert_eq!(log[0].message, "Local storage have no backups.");
}

#[test]
fn last_backup_age() {
    let mut log: Vec<LogRecord> = Vec::new();
    assert!(check_last_backup_age("Local storage", "b", Some(100), 200, &mut log));
    assert!(log.is_empty());

    assert!(!check_last_backup_age("Local storage", "b", Some(90061), 3600, &mut log));
    assert_eq!(log.len(), 1);
    assert_eq!(log[0].level, Level::Error);
    assert_eq!(log[0].message, "Local storage doesn't have any backup for last 1 days 1 hours 1 minutes.");

    assert!(!check_last_backup_age("Local storage", "b", None, 3600, &mut log));
    assert_eq!(log[1].message, "Failed to check last backup time: the latest backup (\"b\") on Local storage has backup time in the future.");
}

#[test]
fn backup_ages_in_seconds() {
    assert_eq!(vsb::check::backup_age(1000, 400), Some(600));
    assert_eq!(vsb::check::backup_age(1000, 1000), Some(0));
    assert_eq!(vsb::check::backup_age(1000, 1001), None);
    assert_eq!(vsb::check::backup_age(i64::MAX, i64::MIN), Some(u64::MAX));
}

#[test]
fn backups_from_the_future_are_errors() {
    let mut log: Vec<LogRecord> = Vec::new();
    assert!(!check_last_backup_age("Local storage", "2020.01.01-10:00:00", None, 60, &mut log));
    assert_eq!(log.len(), 1);
    assert_eq!(log[0].level, Level::Error);
    assert_eq!(log[0].message,
        "Failed to check last backup time: the latest backup (\"2020.01.01-10:00:00\") on Local storage has backup time in the future.");
}
