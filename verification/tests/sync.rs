use vsb::logging::{Level, LogRecord};
use vsb::storage::backup::Backup;
use vsb::storage::backup_group::BackupGroup;
use vsb::sync::{
    backup_path_of, check_backup_groups, get_group_to_backups_mapping, get_target_backup_groups, insert_sorted_unique,
    plan_deletions, plan_uploads, GroupMap, SyncAction, SyncRun,
};

fn group(name: &str, backups: &[&str]) -> BackupGroup {
    let mut g = BackupGroup::new(name);
    for b in backups {
        g.backups.push(Backup::new(&format!("/x/{}/{}", name, b), b));
    }
    g
}

fn entries(map: &GroupMap) -> Vec<(String, Vec<String>)> {
    map.entries.clone()
}

fn owned(items: &[(&str, &[&str])]) -> Vec<(String, Vec<String>)> {
    items.iter().map(|(g, bs)| (g.to_string(), bs.iter().map(|b| b.to_string()).collect())).collect()
}

fn describe(action: &SyncAction) -> String {
    match action {
        SyncAction::CreateGroup { group } => format!("create {}", group),
        SyncAction::Upload { group, backup, path } => format!("upload {} {} {}", group, backup, path),
        SyncAction::DeleteGroup { group } => format!("delete {}", group),
        SyncAction::Finish { ok } => format!("finish {}", ok),
    }
}

#[test]
fn sorted_unique_insertion() {
    let mut v: Vec<String> = Vec::new();
    for x in ["b", "a", "c", "b", "a"] {
        insert_sorted_unique(&mut v, x);
    }
    assert_eq!(v, vec!["a", "b", "c"]);
}

#[test]
fn group_map_operations() {
    let mut map = GroupMap::new();
    map.add_backups("g2", &vec!["b2".to_owned(), "b1".to_owned()]);
    map.add_backups("g1", &vec!["a".to_owned()]);
    map.add_backups("g2", &vec!["b1".to_owned(), "b3".to_owned()]);
    assert_eq!(entries(&map), owned(&[("g1", &["a"]), ("g2", &["b1", "b2", "b3"])]));
    assert!(map.contains_key("g1"));
    assert!(!map.contains_key("g3"));
    assert_eq!(map.backups_of("g2"), vec!["b1", "b2", "b3"]);
    assert!(map.backups_of("g3").is_empty());
    map.set_group("g1", vec![]);
    assert_eq!(entries(&map), owned(&[("g1", &[]), ("g2", &["b1", "b2", "b3"])]));
}

#[test]
fn mapping_of_groups() {
    let groups = vec![group("g2", &["y", "x"]), group("g1", &[])];
    assert_eq!(entries(&get_group_to_backups_mapping(&groups)), owned(&[("g1", &[]), ("g2", &["x", "y"])]));
}

#[test]
fn target_groups_keep_the_last_ones() {
    let local = vec![group("g1", &["b1", "b2"]), group("g2", &["b3"])];
    let cloud = vec![group("g0", &["b0"]), group("g1", &["b1"])];
    let targets = get_target_backup_groups(&local, &cloud, 2);
    assert_eq!(entries(&targets), owned(&[("g1", &["b1", "b2"]), ("g2", &["b3"])]));

    let all = get_target_backup_groups(&local, &cloud, 5);
    assert_eq!(entries(&all), owned(&[("g0", &["b0"]), ("g1", &["b1", "b2"]), ("g2", &["b3"])]));
}

#[test]
fn target_groups_count_only_groups_with_backups() {
    let local = vec![group("g1", &["b1"]), group("g2", &[]), group("g3", &["b3"])];
    let targets = get_target_backup_groups(&local, &[], 2);
    assert_eq!(entries(&targets), owned(&[("g1", &["b1"]), ("g2", &[]), ("g3", &["b3"])]));
    let targets = get_target_backup_groups(&local, &[], 1);
    assert_eq!(entries(&targets), owned(&[("g3", &["b3"])]));
}

#[test]
fn cloud_with_more_groups_than_local_is_suspicious() {
    let local = vec![group("g1", &["b1"]), group("g2", &[])];
    let cloud = vec![group("g0", &["b0"]), group("g1", &["b1"])];
    assert_eq!(
        check_backup_groups(&local, &cloud).unwrap_err(),
        "A possible backup corruption: Cloud contains more backup groups than stored locally",
    );
    let local = vec![group("g1", &["b1"]), group("g2", &["b2"])];
    let cloud = vec![group("g0", &[]), group("g1", &[]), group("g2", &[])];
    assert!(check_backup_groups(&local, &cloud).is_ok());
}

#[test]
fn upload_and_deletion_plans() {
    let local = vec![group("g1", &["b1", "b2"]), group("g2", &["b3"])];
    let cloud = vec![group("g0", &["b0"]), group("g1", &["b1"])];
    let targets = get_target_backup_groups(&local, &cloud, 2);
    let cloud_map = get_group_to_backups_mapping(&cloud);
    let plan: Vec<(String, bool, Vec<String>)> = plan_uploads(&targets, &cloud_map)
        .into_iter().map(|u| (u.name, u.create, u.backups)).collect();
    assert_eq!(plan, vec![
        ("g1".to_owned(), false, vec!["b2".to_owned()]),
        ("g2".to_owned(), true, vec!["b3".to_owned()]),
    ]);
    assert_eq!(plan_deletions(&cloud_map, &targets), vec!["g0"]);
}

#[test]
fn local_backup_paths() {
    assert_eq!(backup_path_of("/backups", "g1", "b1"), "/backups/g1/b1");
    assert_eq!(backup_path_of("/backups/", "g1", "b1"), "/backups/g1/b1");
}

fn run_all(run: &mut SyncRun, failing: &[&str], log: &mut Vec<LogRecord>) -> Vec<String> {
    let mut actions = Vec::new();
    let mut outcome: Result<(), String> = Ok(());
    loop {
        let action = run.next(outcome, log);
        let text = describe(&action);
        actions.push(text.clone());
        if let SyncAction::Finish { .. } = action {
            return actions;
        }
        outcome = if failing.contains(&text.as_str()) { Err("boom".to_owned()) } else { Ok(()) };
    }
}

#[test]
fn sync_run_uploads_then_deletes() {
    let local = vec![group("g1", &["b1", "b2"]), group("g2", &["b3"])];
    let cloud = vec![group("g0", &["b0"]), group("g1", &["b1"])];
    let mut log = Vec::new();
    let mut run = SyncRun::new(&local, &cloud, true, 2, "/backups", "Dropbox", &mut log);
    assert_eq!(run_all(&mut run, &[], &mut log), vec![
        "upload g1 b2 /backups/g1/b2",
        "create g2",
        "upload g2 b3 /backups/g2/b3",
        "delete g0",
        "finish true",
    ]);
    assert!(log.iter().all(|r| r.level != Level::Error));
}

#[test]
fn sync_run_skips_a_group_it_can_not_create_and_keeps_cloud_groups() {
    let local = vec![group("g1", &["b1", "b2"]), group("g2", &["b3"])];
    let cloud = vec![group("g0", &["b0"]), group("g1", &["b1"])];
    let mut log = Vec::new();
    let mut run = SyncRun::new(&local, &cloud, true, 2, "/backups", "Dropbox", &mut log);
    assert_eq!(run_all(&mut run, &["create g2"], &mut log), vec![
        "upload g1 b2 /backups/g1/b2",
        "create g2",
        "finish false",
    ]);
    assert!(log.iter().any(|r| r.level == Level::Error));
    assert!(log.iter().any(|r| r.level == Level::Warn));
}

#[test]
fn sync_run_failed_upload_spoils_the_run() {
    let local = vec![group("g1", &["b1"]), group("g2", &["b2"])];
    let mut log = Vec::new();
    let mut run = SyncRun::new(&local, &[group("g0", &[])], true, 2, "/b", "Cloud", &mut log);
    assert_eq!(run_all(&mut run, &["upload g1 b1 /b/g1/b1"], &mut log), vec![
        "create g1",
        "upload g1 b1 /b/g1/b1",
        "create g2",
        "upload g2 b2 /b/g2/b2",
        "finish false",
    ]);
}

#[test]
fn sync_run_failed_deletion_keeps_the_run_ok() {
    let local = vec![group("g1", &["b1"]), group("g2", &["b2"])];
    let cloud = vec![group("g0", &[]), group("g1", &["b1"]), group("g2", &["b2"])];
    let mut log = Vec::new();
    let mut run = SyncRun::new(&local, &cloud, true, 2, "/b", "Cloud", &mut log);
    assert_eq!(run_all(&mut run, &["delete g0"], &mut log), vec!["delete g0", "finish true"]);
}

#[test]
fn sync_run_that_starts_not_ok_deletes_nothing() {
    let local = vec![group("g1", &["b1"]), group("g2", &["b2"])];
    let cloud = vec![group("g0", &[]), group("g1", &["b1"]), group("g2", &["b2"])];
    let mut log = Vec::new();
    let mut run = SyncRun::new(&local, &cloud, false, 2, "/b", "Cloud", &mut log);
    assert_eq!(run_all(&mut run, &[], &mut log), vec!["finish false"]);
}
