
use vsb::providers::dropbox::{self, finish_action, get_file_path, DropboxEntry, DropboxListing, FinishAction, ListRequest};
use vsb::providers::filesystem::{directory_entry, Filesystem};
use vsb::providers::google_drive::{
    self, check_upload_size, children_query, directory_listing, get_file, get_new_file_place, start_stat, start_upload_url, ChildrenListing,
    DirectoryFiles, GoogleDriveFile, StatStart, StatStep,
};
use vsb::providers::yandex_disk::{
    self, api_url, checksum_matches, disk_path, item_file, operation_state, without_final_dots, Item, OperationState,
    YandexListing,
};
use vsb::storage::provider::{FileType, Provider, ProviderType};
use vsb::providers::oauth::{bearer, token_error, OauthApiError, TokenCache};

fn entry(tag: &str, name: &str) -> DropboxEntry {
    DropboxEntry { tag: tag.to_owned(), name: name.to_owned() }
}

fn drive_file(id: &str, name: &str, mime_type: &str) -> GoogleDriveFile {
    GoogleDriveFile { id: id.to_owned(), name: name.to_owned(), mime_type: mime_type.to_owned() }
}

const FOLDER: &str = "application/vnd.google-apps.folder";

#[test]
fn dropbox_entries() {
    let f = dropbox::entry_file(entry("folder", "dir"));
    assert_eq!((f.name.as_str(), f.type_, f.size), ("dir", FileType::Directory, None));
    assert_eq!(dropbox::entry_file(entry("file", "f")).type_, FileType::File);
    assert_eq!(dropbox::entry_file(entry("deleted", "x")).type_, FileType::Other);
}

#[test]
fn dropbox_errors() {
    let e = dropbox::ApiError {
        tag: Some("path".to_owned()),
        path_tag: Some("not_found".to_owned()),
        error_summary: "path/not_found/..".to_owned(),
    };
    assert!(e.is_not_found());
    assert_eq!(e.to_string(), "Dropbox API error: path/not_found");
    let other = dropbox::ApiError { tag: Some("path".to_owned()), path_tag: Some("conflict".to_owned()), error_summary: "x.".to_owned() };
    assert!(!other.is_not_found());
    assert_eq!(other.to_string(), "Dropbox API error: x");
}

#[test]
fn dropbox_listing_pages() {
    let mut listing = DropboxListing::new("/Backups");
    match listing.request() {
        ListRequest::ListFolder { path } => assert_eq!(path, "/Backups"),
        _ => panic!("the first page lists the folder"),
    }
    let not_found = dropbox::ApiError { tag: Some("path".to_owned()), path_tag: Some("not_found".to_owned()), error_summary: String::new() };
    assert!(listing.is_missing(&not_found));

    assert!(matches!(listing.on_page(vec![entry("folder", "a")], "c1".to_owned(), true), Ok(dropbox::PageOutcome::More)));
    match listing.request() {
        ListRequest::Continue { cursor } => assert_eq!(cursor, "c1"),
        _ => panic!("later pages continue from the cursor"),
    }
    assert!(!listing.is_missing(&not_found));
    assert!(matches!(listing.on_page(vec![entry("file", "b"), entry("file", "c")], "c2".to_owned(), false), Ok(dropbox::PageOutcome::Done)));
    let names: Vec<&str> = listing.files.iter().map(|f| f.name.as_str()).collect();
    assert_eq!(names, vec!["a", "b", "c"]);
}

#[test]
fn dropbox_listing_page_limit() {
    let mut listing = DropboxListing::new("/");
    for _ in 1..1000 {
        assert!(matches!(listing.on_page(vec![], "c".to_owned(), true), Ok(dropbox::PageOutcome::More)));
    }
    assert_eq!(listing.on_page(vec![], "c".to_owned(), true).err().unwrap(), "Directory listing page limit has exceeded");
}

#[test]
fn dropbox_paths_and_uploads() {
    assert_eq!(get_file_path("/Backups/", "a"), "/Backups/a");
    assert_eq!(get_file_path("/", "a"), "/a");
    assert_eq!(finish_action("abc", "abc"), FinishAction::Rename);
    assert_eq!(finish_action("abc", "abd"), FinishAction::DeleteAndFail);
}

#[test]
fn yandex_urls_and_paths() {
    assert_eq!(api_url("/resources"), "https://cloud-api.yandex.net/v1/disk/resources");
    assert_eq!(disk_path("/Backups/a:b"), "disk:/Backups/a:b");
    assert_eq!(without_final_dots("Done..."), "Done");
    assert_eq!(without_final_dots("..."), "");
}

#[test]
fn yandex_items_and_errors() {
    let f = item_file(Item { type_: "dir".to_owned(), name: "d".to_owned(), size: None });
    assert_eq!(f.type_, FileType::Directory);
    let f = item_file(Item { type_: "file".to_owned(), name: "f".to_owned(), size: Some(3) });
    assert_eq!((f.type_, f.size), (FileType::File, Some(3)));
    let e = yandex_disk::ApiError { error: "DiskNotFoundError".to_owned(), message: "Not found.".to_owned() };
    assert!(e.is_not_found());
    assert_eq!(e.to_string(), "Yandex Disk error: Not found");
}

#[test]
fn yandex_listing_replaces_files_of_the_same_name() {
    let mut listing = YandexListing::new("/Backups");
    let page = vec![
        Item { type_: "dir".to_owned(), name: "a".to_owned(), size: None },
        Item { type_: "file".to_owned(), name: "b".to_owned(), size: Some(1) },
    ];
    assert!(matches!(listing.on_page("dir", Some((page, 3))), Ok(yandex_disk::PageOutcome::More)));
    assert_eq!(listing.offset, 2);
    let page = vec![Item { type_: "file".to_owned(), name: "b".to_owned(), size: Some(2) }];
    assert!(matches!(listing.on_page("dir", Some((page, 3))), Ok(yandex_disk::PageOutcome::Done)));
    let files: Vec<(&str, Option<u64>)> = listing.files.iter().map(|f| (f.name.as_str(), f.size)).collect();
    assert_eq!(files, vec![("a", None), ("b", Some(2))]);
    assert_eq!(listing.on_page("file", None).err().unwrap(), "\"/Backups\" is not a directory");
}

#[test]
fn yandex_operations_and_checksums() {
    assert_eq!(operation_state("success"), OperationState::Succeeded);
    assert_eq!(operation_state("in-progress"), OperationState::InProgress);
    assert_eq!(operation_state("failed"), OperationState::Failed);
    let hash = vsb::hash::Hash::from_bytes(&[0xab, 0x01]);
    assert!(checksum_matches("ab01", &hash));
    assert!(!checksum_matches("AB01", &hash));
}

#[test]
fn google_drive_file_types() {
    assert_eq!(drive_file("1", "d", FOLDER).type_(), FileType::Directory);
    assert_eq!(drive_file("1", "doc", "application/vnd.google-apps.document").type_(), FileType::Other);
    assert_eq!(drive_file("1", "f", "application/octet-stream").type_(), FileType::File);
    let copy = drive_file("1", "f", "text/plain").copy();
    assert_eq!((copy.id.as_str(), copy.name.as_str(), copy.mime_type.as_str()), ("1", "f", "text/plain"));
}

#[test]
fn google_drive_files_by_name() {
    let mut files = DirectoryFiles::new();
    files.add(drive_file("1", "a", FOLDER));
    files.add(drive_file("2", "b", "text/plain"));
    files.add(drive_file("3", "b", "text/plain"));
    assert_eq!(get_file(&files, "/a", "a").unwrap().unwrap().id, "1");
    assert!(get_file(&files, "/c", "c").unwrap().is_none());
    assert_eq!(get_file(&files, "/b", "b").err().unwrap(), "\"/b\" path is unambiguous: it resolves to 2 files");

    assert_eq!(directory_listing(files, "/x", "x").err().unwrap(), "\"/x\" directory has 2 files with \"b\" name");
    let mut files = DirectoryFiles::new();
    files.add(drive_file("1", "a", FOLDER));
    files.add(drive_file("2", "b", "text/plain"));
    let listed: Vec<(String, FileType)> = directory_listing(files, "/x", "x").unwrap().into_iter().map(|f| (f.name, f.type_)).collect();
    assert_eq!(listed, vec![("a".to_owned(), FileType::Directory), ("b".to_owned(), FileType::File)]);
    let mut files = DirectoryFiles::new();
    files.add(drive_file("1", "a/b", "text/plain"));
    assert_eq!(directory_listing(files, "/x", "x").err().unwrap(), "\"/x\" directory contains a file with an invalid name: \"x\"");
}

#[test]
fn google_drive_uploads() {
    assert_eq!(get_new_file_place("/a/b").unwrap(), ("/a".to_owned(), "b".to_owned()));
    assert_eq!(get_new_file_place("/b").unwrap(), ("/".to_owned(), "b".to_owned()));
    assert_eq!(get_new_file_place("/").unwrap_err(), "An attempt to upload a file as \"/\"");
    assert_eq!(get_new_file_place("a/b").unwrap_err(), "Invalid path: \"a/b\"");
    assert_eq!(get_new_file_place("/a/").unwrap_err(), "Invalid path: \"/a/\"");
    assert_eq!(start_upload_url(None, false).unwrap(), "https://www.googleapis.com/upload/drive/v3/files?uploadType=resumable");
    assert_eq!(start_upload_url(Some("id1"), true).unwrap(), "https://www.googleapis.com/upload/drive/v3/files/id1?uploadType=resumable");
    assert_eq!(start_upload_url(Some("id1"), false).unwrap_err(), "File already exists");
    assert_eq!(children_query("abc"), "'abc' in parents and trashed = false");
    let e = google_drive::ApiError { message: "Bad request.".to_owned() };
    assert_eq!(e.to_string(), "Google Drive error: Bad request");
}

#[test]
fn google_drive_children_pages() {
    let mut listing = ChildrenListing::new();
    assert!(matches!(listing.on_page(vec![drive_file("1", "a", FOLDER)], false, Some("t".to_owned())), Ok(google_drive::PageOutcome::More)));
    assert_eq!(listing.page_token.as_deref(), Some("t"));
    assert!(matches!(listing.on_page(vec![drive_file("2", "b", FOLDER)], false, None), Ok(google_drive::PageOutcome::Done)));
    assert_eq!(listing.files.groups.len(), 2);
    let mut listing = ChildrenListing::new();
    assert_eq!(listing.on_page(vec![], true, None).err().unwrap(), "Got an incomplete result on directory listing");
}

#[test]
fn google_drive_path_walk() {
    assert!(matches!(start_stat("/"), Ok(StatStart::Root)));
    assert_eq!(start_stat("a").err().unwrap(), "Invalid path: \"a\"");
    assert_eq!(start_stat("/a/").err().unwrap(), "Invalid path: \"/a/\"");

    let mut walk = match start_stat("/Backups/file") {
        Ok(StatStart::Walk(w)) => w,
        _ => panic!("a path is walked"),
    };
    assert_eq!(walk.folder_id(), "root");
    assert_eq!(walk.read_error("boom"), "Error while reading \"/\" directory: boom");
    let mut root = DirectoryFiles::new();
    root.add(drive_file("10", "Backups", FOLDER));
    match walk.on_children(&root) {
        Ok(StatStep::Next { folder_id }) => assert_eq!(folder_id, "10"),
        _ => panic!("the walk goes into the folder"),
    }
    assert_eq!(walk.folder_id(), "10");
    let mut backups = DirectoryFiles::new();
    backups.add(drive_file("11", "file", "text/plain"));
    match walk.on_children(&backups) {
        Ok(StatStep::Found(file)) => assert_eq!(file.id, "11"),
        _ => panic!("the file is found"),
    }

    let mut walk = match start_stat("/missing/x") {
        Ok(StatStart::Walk(w)) => w,
        _ => panic!("a path is walked"),
    };
    assert!(matches!(walk.on_children(&DirectoryFiles::new()), Ok(StatStep::Missing)));

    let mut walk = match start_stat("/file/x") {
        Ok(StatStart::Walk(w)) => w,
        _ => panic!("a path is walked"),
    };
    let mut root = DirectoryFiles::new();
    root.add(drive_file("1", "file", "text/plain"));
    assert_eq!(walk.on_children(&root).err().unwrap(), "\"/file\" is not a directory");
}

#[test]
fn local_filesystem() {
    let fs = Filesystem::new();
    assert_eq!(fs.name(), "Local storage");
    assert_eq!(fs.type_(), ProviderType::Local);
    let f = directory_entry(Ok("a".to_owned()), true, false, 7).unwrap();
    assert_eq!((f.name.as_str(), f.type_, f.size), ("a", FileType::File, Some(7)));
    let d = directory_entry(Ok("d".to_owned()), false, true, 4096).unwrap();
    assert_eq!((d.type_, d.size), (FileType::Directory, None));
    let o = directory_entry(Ok("s".to_owned()), false, false, 0).unwrap();
    assert_eq!(o.type_, FileType::Other);
    assert_eq!(directory_entry(Err("bad\u{fffd}".to_owned()), true, false, 0).err().unwrap(), "Got an invalid file name: \"bad\u{fffd}\"");
}

#[test]
fn access_tokens_are_reused_while_valid() {
    let mut cache = TokenCache::new();
    assert_eq!(cache.valid_token(0), None);
    cache.store("t1", 100, 3600);
    assert_eq!(cache.valid_token(100), Some("t1".to_owned()));
    assert_eq!(cache.valid_token(3640), Some("t1".to_owned()));
    assert_eq!(cache.valid_token(3641), None);
    cache.store("t2", u64::MAX - 10, 3600);
    assert_eq!(cache.valid_token(u64::MAX - 100), Some("t2".to_owned()));
    assert_eq!(bearer("abc"), "Bearer abc");
    assert_eq!(token_error("denied"), "Unable obtain OAuth token: denied");
    assert_eq!(OauthApiError { error_description: "bad grant".to_owned() }.to_string(), "OAuth error: bad grant");
}

#[test]
fn google_drive_refuses_empty_uploads() {
    assert_eq!(check_upload_size(0).unwrap_err(), "An attempt to upload an empty file");
    assert!(check_upload_size(1).is_ok());
}
