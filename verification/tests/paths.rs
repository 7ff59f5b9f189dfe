use std::path::{Component, Path};

use vsb::paths::{
    get_file_path_from_tar_path, get_restore_path, message_with_path, path_components, path_starts_with, push_part,
    PathPart,
};

fn describe(parts: Vec<PathPart>) -> Vec<String> {
    parts.into_iter().map(|p| match p {
        PathPart::RootDir => "/".to_owned(),
        PathPart::CurDir => ".".to_owned(),
        PathPart::ParentDir => "..".to_owned(),
        PathPart::Normal(name) => name.into_iter().collect(),
    }).collect()
}

fn std_components(path: &str) -> Vec<String> {
    Path::new(path).components().map(|c| match c {
        Component::RootDir => "/".to_owned(),
        Component::CurDir => ".".to_owned(),
        Component::ParentDir => "..".to_owned(),
        Component::Normal(name) => name.to_str().unwrap().to_owned(),
        Component::Prefix(_) => unreachable!(),
    }).collect()
}

#[test]
fn components_match_std() {
    for path in ["", "/", "//", "a", "/a/b/", "./a", "a/./b", "a/../b", "/..", ".", "a//b", "./", "../x/."] {
        assert_eq!(describe(path_components(path)), std_components(path), "{:?}", path);
    }
}

#[test]
fn push_part_matches_path_buf() {
    for (base, part) in [("", "a"), ("/", "a"), ("/x", "a"), ("/x/", "a"), ("x", "a b")] {
        let mut path: Vec<char> = base.chars().collect();
        let part_chars: Vec<char> = part.chars().collect();
        push_part(&mut path, &part_chars);
        let expected = Path::new(base).join(part);
        assert_eq!(path.into_iter().collect::<String>(), expected.to_str().unwrap());
    }
}

#[test]
fn file_paths_from_archive_paths() {
    assert_eq!(get_file_path_from_tar_path("home/user/file").unwrap(), "/home/user/file");
    assert_eq!(get_file_path_from_tar_path("etc//passwd/").unwrap(), "/etc/passwd");
    for bad in ["", "/etc/passwd", "../etc", "a/../b", "./a"] {
        assert_eq!(get_file_path_from_tar_path(bad).unwrap_err(), format!("Got an invalid file path from archive: {:?}", bad));
    }
}

#[test]
fn restore_paths_under_the_restore_directory() {
    assert_eq!(get_restore_path("/restore", "/home/user/file").unwrap(), "/restore/home/user/file");
    assert_eq!(get_restore_path("/restore/", "/a").unwrap(), "/restore/a");
    for bad in ["/", "relative/path", "/a/../b", ""] {
        assert_eq!(get_restore_path("/restore", bad).unwrap_err(), format!("Invalid restoring file path: {:?}", bad));
    }
}

#[test]
fn starts_with_compares_whole_components() {
    assert!(path_starts_with("/home/user/file", "/home/user"));
    assert!(path_starts_with("/home/user", "/home/user/"));
    assert!(path_starts_with("/home/user", "/"));
    assert!(!path_starts_with("/home/username", "/home/user"));
    assert!(!path_starts_with("home/user", "/home"));
    for (p, b) in [("/a/b", "/a"), ("/a//b", "/a/b"), ("a", ""), ("/a", "a")] {
        assert_eq!(path_starts_with(p, b), Path::new(p).starts_with(b), "{:?} {:?}", p, b);
    }
}

#[test]
fn messages_quote_the_path() {
    assert_eq!(message_with_path("Bad path: ", "/a\"b"), "Bad path: \"/a\\\"b\"");
}

#[test]
fn archive_entries_are_restored_at_their_archive_path() {
    for (dir, tar_path) in [("/restore", "a/b/c"), ("/restore/", "a//b/./c/"), ("rel", "x")] {
        let file_path = get_file_path_from_tar_path(tar_path).unwrap();
        let restored = get_restore_path(dir, &file_path).unwrap();
        assert_eq!(Path::new(&restored), Path::new(dir).join(tar_path));
    }
}
