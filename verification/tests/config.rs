use vsb::cli::{log_level_for, parse_action, parse_global, Action};
use vsb::config::{parse_duration, validate_path, BackupSpecConfig, Config};
use vsb::logging::Level;

fn spec(name: &str, path: &str) -> BackupSpecConfig {
    BackupSpecConfig { name: name.to_owned(), path: path.to_owned(), backup: None, upload: None }
}

fn config(backups: Vec<BackupSpecConfig>, metrics: Option<&str>) -> Config {
    Config { path: "/etc/vsb.yaml".to_owned(), backups, prometheus_metrics: metrics.map(str::to_owned) }
}

#[test]
fn configured_paths_are_normalized() {
    assert_eq!(validate_path("/").unwrap(), "/");
    assert_eq!(validate_path("/a//b/").unwrap(), "/a/b");
    assert_eq!(validate_path("/a/./b").unwrap(), "/a/b");
    assert_eq!(validate_path("relative").unwrap_err(), "Invalid path: \"relative\". It must be absolute");
    assert_eq!(validate_path("").unwrap_err(), "Invalid path: \"\". It must be absolute");
    assert_eq!(validate_path("/a/../b").unwrap_err(), "Invalid path: \"/a/../b\"");
}

#[test]
fn backups_are_found_by_name() {
    let c = config(vec![spec("home", "/backups/home"), spec("etc", "/backups/etc")], None);
    assert_eq!(c.get_backup("etc").unwrap().path, "/backups/etc");
    assert_eq!(c.get_backup("var").err().unwrap(), "\"var\" backup is not specified in the configuration file");
}

#[test]
fn normalize_checks_names_and_paths() {
    let mut c = config(vec![spec("home", "/backups//home/"), spec("etc", "/backups/etc")], Some("/var/metrics//vsb.prom"));
    c.normalize().unwrap();
    assert_eq!(c.backups[0].path, "/backups/home");
    assert_eq!(c.prometheus_metrics.as_deref(), Some("/var/metrics/vsb.prom"));

    let mut c = config(vec![spec("home", "/a"), spec("home", "/b")], None);
    assert_eq!(c.normalize().unwrap_err(), "Duplicated backup name: \"home\"");

    let mut c = config(vec![spec("home", "a")], None);
    assert_eq!(c.normalize().unwrap_err(), "Invalid path: \"a\". It must be absolute");

    let mut c = config(vec![], Some("metrics"));
    assert!(c.normalize().is_err());
}

#[test]
fn durations() {
    assert_eq!(parse_duration("1m").unwrap(), 60);
    assert_eq!(parse_duration("3h").unwrap(), 10800);
    assert_eq!(parse_duration("2d").unwrap(), 172800);
    assert_eq!(parse_duration("120m").unwrap(), 7200);
    for bad in ["", "m", "0m", "01h", "1s", "1 h", "-1d", "1.5h"] {
        assert_eq!(parse_duration(bad).unwrap_err(), format!("Invalid time duration specification: {:?}", bad));
    }
    assert!(parse_duration("99999999999999999999d").is_err());
}

#[test]
fn verbosity_levels() {
    assert_eq!(log_level_for(0, false).unwrap(), Level::Info);
    assert_eq!(log_level_for(0, true).unwrap(), Level::Warn);
    assert_eq!(log_level_for(1, true).unwrap(), Level::Debug);
    assert_eq!(log_level_for(2, false).unwrap(), Level::Trace);
    assert_eq!(log_level_for(3, false).unwrap_err(), "Invalid verbosity level");
}

#[test]
fn global_options() {
    let o = parse_global(1, false, None, "/home/user/.vsb.yaml".to_owned()).unwrap();
    assert_eq!(o.log_level, Level::Debug);
    assert_eq!(o.config_path, "/home/user/.vsb.yaml");
    let o = parse_global(0, false, Some("/etc/vsb.yaml".to_owned()), "/home/user/.vsb.yaml".to_owned()).unwrap();
    assert_eq!(o.config_path, "/etc/vsb.yaml");
    assert!(parse_global(5, false, None, String::new()).is_err());
}

#[test]
fn actions() {
    match parse_action("backup", Some("home".to_owned()), None, None, false) {
        Some(Action::Backup { name }) => assert_eq!(name, "home"),
        _ => panic!("not a backup"),
    }
    match parse_action("restore", None, Some("/b".to_owned()), Some("/r".to_owned()), false) {
        Some(Action::Restore { backup_path, restore_path }) => {
            assert_eq!(backup_path, "/b");
            assert_eq!(restore_path, "/r");
        },
        _ => panic!("not a restore"),
    }
    assert!(matches!(parse_action("upload", None, None, None, true), Some(Action::Upload { verify: false })));
    assert!(matches!(parse_action("upload", None, None, None, false), Some(Action::Upload { verify: true })));
    assert!(parse_action("other", None, None, None, false).is_none());
    assert!(parse_action("backup", None, None, None, false).is_none());
}
