use vsb::logging::{
    format_location, format_log_line, get_level_color, get_level_name, get_location_widths, goes_to_stdout,
    is_debug_mode, level_number, log, Color, GlobalContext, Level, LogRecord,
};

#[test]
fn level_names_and_colors() {
    let levels = [Level::Error, Level::Warn, Level::Info, Level::Debug, Level::Trace];
    let names: Vec<&str> = levels.iter().map(|l| get_level_name(*l)).collect();
    assert_eq!(names, vec!["E", "W", "I", "D", "T"]);
    let colors: Vec<Color> = levels.iter().map(|l| get_level_color(*l)).collect();
    assert_eq!(colors, vec![Color::Red, Color::Yellow, Color::Green, Color::Cyan, Color::Purple]);
    let numbers: Vec<u8> = levels.iter().map(|l| level_number(*l)).collect();
    assert_eq!(numbers, vec![1, 2, 3, 4, 5]);
}

#[test]
fn debug_mode_and_output_streams() {
    assert!(!is_debug_mode(Level::Info));
    assert!(is_debug_mode(Level::Debug));
    assert!(is_debug_mode(Level::Trace));
    assert!(!goes_to_stdout(Level::Error));
    assert!(!goes_to_stdout(Level::Warn));
    assert!(goes_to_stdout(Level::Info));
    assert!(goes_to_stdout(Level::Trace));
}

#[test]
fn location_widths_grow_with_the_line_number() {
    assert_eq!(get_location_widths(0), (10, 3));
    assert_eq!(get_location_widths(999), (10, 3));
    assert_eq!(get_location_widths(1000), (9, 4));
    assert_eq!(get_location_widths(9999), (9, 4));
    assert_eq!(get_location_widths(10000), (8, 5));
    assert_eq!(get_location_widths(u32::MAX), (3, 10));
}

#[test]
fn location_is_formatted_like_the_format_macro() {
    for (file, line) in [("src/main.rs", 7u32), ("src/storage/backup_group.rs", 123), ("lib.rs", 12345), ("other/src/x.rs", 1000)] {
        let (fw, lw) = get_location_widths(line);
        let mut shown = file.strip_prefix("src/").unwrap_or(file);
        if shown.len() > fw {
            shown = &shown[shown.len() - fw..];
        }
        let expected = format!("[{file:>fw$}:{line:0lw$}]", file = shown, fw = fw, line = line, lw = lw);
        assert_eq!(format_location(file, line), expected);
    }
    assert_eq!(format_location("src/main.rs", 7), "[   main.rs:007]");
}

#[test]
fn log_lines() {
    assert_eq!(format_log_line(None, Level::Warn, "", "Something happened."), "W: Something happened.");
    assert_eq!(format_log_line(None, Level::Error, "[home] ", "Failed."), "E: [home] Failed.");
    assert_eq!(
        format_log_line(Some(("[12:00:00.000]", "src/main.rs", 42)), Level::Debug, "", "Details."),
        "[12:00:00.000] [   main.rs:042] D: Details.",
    );
}

#[test]
fn global_context_prefix() {
    assert_eq!(GlobalContext::get(&None), "");
    assert_eq!(GlobalContext::get(&Some(GlobalContext::new("home"))), "[home] ");
}

#[test]
fn log_appends_records() {
    let mut records: Vec<LogRecord> = Vec::new();
    log(&mut records, Level::Info, "first".to_owned());
    log(&mut records, Level::Error, "second".to_owned());
    assert_eq!(records.len(), 2);
    assert_eq!(records[0].level, Level::Info);
    assert_eq!(records[0].message, "first");
    assert_eq!(records[1].level, Level::Error);
    assert_eq!(records[1].message, "second");
}
