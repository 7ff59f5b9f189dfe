//! Google Drive.

use vstd::prelude::*;

use crate::storage::provider::{File, FileType, FileView, files_view};
use crate::text::{debug_quoted, debug_str, str_eq, u64_to_string, decimal};

verus! {

/// The MIME type of folders.
pub open spec fn directory_mime_type() -> Seq<char> {
    "application/vnd.google-apps.folder"@
}

/// The MIME type prefix of Google's own documents.
pub open spec fn google_apps_prefix() -> Seq<char> {
    "application/vnd.google-apps."@
}

/// A file of the drive.
pub struct GoogleDriveFile {
    pub id: String,
    pub name: String,
    pub mime_type: String,
}

/// The type of a file by its MIME type: folders are directories, Google's own documents
/// are neither files nor directories.
pub open spec fn drive_file_type(mime_type: Seq<char>) -> FileType {
    if mime_type == directory_mime_type() {
        FileType::Directory
    } else if google_apps_prefix().is_prefix_of(mime_type) {
        FileType::Other
    } else {
        FileType::File
    }
}

impl GoogleDriveFile {
    /// The type of the file (see `drive_file_type`).
    pub fn type_(&self) -> (r: FileType)
        ensures
            r == drive_file_type(self.mime_type@),
    {
        if str_eq(self.mime_type.as_str(), "application/vnd.google-apps.folder") {
            return FileType::Directory;
        }
        let chars = crate::text::chars_of(self.mime_type.as_str());
        let prefix = crate::text::chars_of("application/vnd.google-apps.");
        match crate::storage::backup_group::strip_prefix_chars(chars.as_slice(), prefix.as_slice()) {
            Some(_) => FileType::Other,
            None => FileType::File,
        }
    }

    /// A copy of the file.
    pub fn copy(&self) -> (r: GoogleDriveFile)
        ensures
            r.id@ == self.id@,
            r.name@ == self.name@,
            r.mime_type@ == self.mime_type@,
    {
        GoogleDriveFile {
            id: String::from_str(self.id.as_str()),
            name: String::from_str(self.name.as_str()),
            mime_type: String::from_str(self.mime_type.as_str()),
        }
    }
}

/// A file as values: its id, name and MIME type.
pub type DriveFileView = (Seq<char>, Seq<char>, Seq<char>);

/// The view of a file.
pub open spec fn drive_file_view(f: GoogleDriveFile) -> DriveFileView {
    (f.id@, f.name@, f.mime_type@)
}

/// The files of a folder, grouped by name (a name may have several files), each group with
/// the files in the order listed.
pub struct DirectoryFiles {
    pub groups: Vec<(String, Vec<GoogleDriveFile>)>,
}

/// Grouped files as values.
pub open spec fn groups_view(groups: Seq<(String, Vec<GoogleDriveFile>)>) -> Seq<(Seq<char>, Seq<DriveFileView>)> {
    groups.map_values(|g: (String, Vec<GoogleDriveFile>)| (g.0@, g.1@.map_values(|f: GoogleDriveFile| drive_file_view(f))))
}

/// Files grouped by name, in order.
pub open spec fn group_files(files: Seq<DriveFileView>) -> Seq<(Seq<char>, Seq<DriveFileView>)>
    decreases files.len(),
{
    if files.len() == 0 {
        seq![]
    } else {
        let g = group_files(files.drop_last());
        let f = files.last();
        let i = crate::restoring::plan::key_index(g, f.1);
        if i >= 0 { g.update(i, (f.1, g[i].1.push(f))) } else { g.push((f.1, seq![f])) }
    }
}

impl DirectoryFiles {
    /// No files.
    pub fn new() -> (r: DirectoryFiles)
        ensures
            groups_view(r.groups@) == Seq::<(Seq<char>, Seq<DriveFileView>)>::empty(),
    {
        let r = DirectoryFiles { groups: Vec::new() };
        assert(groups_view(r.groups@) =~= Seq::<(Seq<char>, Seq<DriveFileView>)>::empty());
        r
    }

    /// The position of the group of a name.
    fn find(&self, name: &str) -> (r: Option<usize>)
        ensures
            match r {
                Some(i) => crate::restoring::plan::key_index(groups_view(self.groups@), name@) == i,
                None => crate::restoring::plan::key_index(groups_view(self.groups@), name@) == -1,
            },
    {
        let ghost gv = groups_view(self.groups@);
        let mut k = self.groups.len();
        assert(gv.take(k as int) =~= gv);
        while k > 0
            invariant
                k <= gv.len(),
                gv == groups_view(self.groups@),
                crate::restoring::plan::key_index(gv, name@) == crate::restoring::plan::key_index(gv.take(k as int), name@),
            decreases k,
        {
            proof {
                assert(gv.take(k as int).drop_last() =~= gv.take(k - 1));
                assert(gv.take(k as int).last() == gv[k - 1]);
            }
            if str_eq(self.groups[k - 1].0.as_str(), name) {
                return Some(k - 1);
            }
            k -= 1;
        }
        None
    }

    /// Adds a listed file to the group of its name.
    pub fn add(&mut self, file: GoogleDriveFile)
        ensures
            groups_view(final(self).groups@) == ({
                let g = groups_view(old(self).groups@);
                let f = drive_file_view(file);
                let i = crate::restoring::plan::key_index(g, f.1);
                if i >= 0 { g.update(i, (f.1, g[i].1.push(f))) } else { g.push((f.1, seq![f])) }
            }),
    {
        let ghost g = groups_view(self.groups@);
        proof {
            crate::restoring::plan::lemma_key_index(g, file.name@);
        }
        match self.find(file.name.as_str()) {
            Some(i) => {
                let mut files: Vec<GoogleDriveFile> = Vec::new();
                let mut j: usize = 0;
                while j < self.groups[i].1.len()
                    invariant
                        i < self.groups@.len(),
                        j <= self.groups@[i as int].1@.len(),
                        files@.map_values(|f: GoogleDriveFile| drive_file_view(f))
                            == self.groups@[i as int].1@.map_values(|f: GoogleDriveFile| drive_file_view(f)).take(j as int),
                    decreases self.groups@[i as int].1@.len() - j,
                {
                    let c = self.groups[i].1[j].copy();
                    let ghost before = files@.map_values(|f: GoogleDriveFile| drive_file_view(f));
                    files.push(c);
                    assert(files@.map_values(|f: GoogleDriveFile| drive_file_view(f)) =~= before.push(drive_file_view(c)));
                    j += 1;
                    assert(files@.map_values(|f: GoogleDriveFile| drive_file_view(f))
                        =~= self.groups@[i as int].1@.map_values(|f: GoogleDriveFile| drive_file_view(f)).take(j as int));
                }
                assert(self.groups@[i as int].1@.map_values(|f: GoogleDriveFile| drive_file_view(f)).take(j as int)
                    =~= self.groups@[i as int].1@.map_values(|f: GoogleDriveFile| drive_file_view(f)));
                let ghost before = files@.map_values(|f: GoogleDriveFile| drive_file_view(f));
                let ghost fv = drive_file_view(file);
                let name = String::from_str(file.name.as_str());
                files.push(file);
                assert(files@.map_values(|f: GoogleDriveFile| drive_file_view(f)) =~= before.push(fv));
                self.groups.set(i, (name, files));
                assert(groups_view(self.groups@) =~= g.update(i as int, (fv.1, g[i as int].1.push(fv))));
            },
            None => {
                let ghost fv = drive_file_view(file);
                let name = String::from_str(file.name.as_str());
                let mut files: Vec<GoogleDriveFile> = Vec::new();
                files.push(file);
                assert(files@.map_values(|f: GoogleDriveFile| drive_file_view(f)) =~= seq![fv]);
                self.groups.push((name, files));
                assert(groups_view(self.groups@) =~= g.push((fv.1, seq![fv])));
            },
        }
    }
}

/// The file of a name among the files of a folder: `None` if there is none, an error if
/// there are several.
pub open spec fn get_file_spec(groups: Seq<(Seq<char>, Seq<DriveFileView>)>, path: Seq<char>, name: Seq<char>) -> Result<Option<DriveFileView>, Seq<char>> {
    let i = crate::restoring::plan::key_index(groups, name);
    if i < 0 || groups[i].1.len() == 0 {
        Ok(None)
    } else if groups[i].1.len() == 1 {
        Ok(Some(groups[i].1[0]))
    } else {
        Err(debug_quoted(path) + " path is unambiguous: it resolves to "@ + decimal(groups[i].1.len()) + " files"@)
    }
}

/// The file of a name among the files of a folder (see `get_file_spec`; a group without
/// files, which listing never makes, counts as no file).
pub fn get_file(directory_files: &DirectoryFiles, path: &str, name: &str) -> (r: Result<Option<GoogleDriveFile>, String>)
    ensures
        match get_file_spec(groups_view(directory_files.groups@), path@, name@) {
            Ok(None) => r matches Ok(None),
            Ok(Some(f)) => r matches Ok(Some(file)) && drive_file_view(file) == f,
            Err(e) => r matches Err(m) && m@ == e,
        },
{
    let ghost g = groups_view(directory_files.groups@);
    proof {
        crate::restoring::plan::lemma_key_index(g, name@);
    }
    match directory_files.find(name) {
        None => Ok(None),
        Some(i) => {
            let files = &directory_files.groups[i].1;
            proof {
                assert(g[i as int].1.len() == files@.len());
            }
            if files.len() == 0 {
                Ok(None)
            } else if files.len() == 1 {
                assert(g[i as int].1[0] == drive_file_view(files@[0]));
                Ok(Some(files[0].copy()))
            } else {
                let mut m = debug_str(path);
                m.append(" path is unambiguous: it resolves to ");
                m.append(u64_to_string(files.len() as u64).as_str());
                m.append(" files");
                Err(m)
            }
        },
    }
}

/// Whether a name can not be that of a file in a folder.
pub open spec fn invalid_name(name: Seq<char>) -> bool {
    name.len() == 0 || name == "."@ || name == ".."@ || name.contains('/')
}

/// The listing of a folder from its files: each name must be valid and have one file.
pub open spec fn listing_spec(groups: Seq<(Seq<char>, Seq<DriveFileView>)>, path: Seq<char>, directory_name: Seq<char>) -> Result<Seq<FileView>, Seq<char>>
    decreases groups.len(),
{
    if groups.len() == 0 {
        Ok(seq![])
    } else {
        match listing_spec(groups.drop_last(), path, directory_name) {
            Err(e) => Err(e),
            Ok(files) => {
                let (name, group) = groups.last();
                if invalid_name(name) {
                    Err(debug_quoted(path) + " directory contains a file with an invalid name: "@ + debug_quoted(directory_name))
                } else if group.len() > 1 {
                    Err(debug_quoted(path) + " directory has "@ + decimal(group.len()) + " files with "@ + debug_quoted(name) + " name"@)
                } else {
                    Ok(files + group.map_values(|f: DriveFileView| FileView { name: f.1, type_: drive_file_type(f.2), size: None }))
                }
            },
        }
    }
}

/// The listing of a folder (named `directory_name`, at `path`) from its files (see
/// `listing_spec`).
pub fn directory_listing(children: DirectoryFiles, path: &str, directory_name: &str) -> (r: Result<Vec<File>, String>)
    ensures
        match listing_spec(groups_view(children.groups@), path@, directory_name@) {
            Ok(files) => r matches Ok(v) && files_view(v@) == files,
            Err(e) => r matches Err(m) && m@ == e,
        },
{
    let ghost g = groups_view(children.groups@);
    let mut files: Vec<File> = Vec::new();
    let mut i: usize = 0;
    assert(files_view(files@) =~= seq![]);
    while i < children.groups.len()
        invariant
            i <= g.len(),
            g == groups_view(children.groups@),
            listing_spec(g.take(i as int), path@, directory_name@) matches Ok(fs) && files_view(files@) == fs,
        decreases g.len() - i,
    {
        proof {
            assert(g.take(i + 1).drop_last() =~= g.take(i as int));
            assert(g.take(i + 1).last() == g[i as int]);
        }
        let name = &children.groups[i].0;
        let group = &children.groups[i].1;
        let chars = crate::text::chars_of(name.as_str());
        let slash = crate::text::find_char(chars.as_slice(), 0, '/');
        assert(chars@.skip(0) =~= chars@);
        proof {
            if name@.contains('/') {
                let k = choose|k: int| 0 <= k < name@.len() && name@[k] == '/';
                assert(slash <= k);
            }
        }
        if chars.len() == 0 || str_eq(name.as_str(), ".") || str_eq(name.as_str(), "..") || slash < chars.len() {
            let mut m = debug_str(path);
            m.append(" directory contains a file with an invalid name: ");
            m.append(debug_str(directory_name).as_str());
            proof {
                lemma_listing_error_sticks(g, i as int + 1, path@, directory_name@);
                assert(g.take(g.len() as int) =~= g);
            }
            return Err(m);
        }
        if group.len() > 1 {
            let mut m = debug_str(path);
            m.append(" directory has ");
            m.append(u64_to_string(group.len() as u64).as_str());
            m.append(" files with ");
            m.append(debug_str(name.as_str()).as_str());
            m.append(" name");
            proof {
                lemma_listing_error_sticks(g, i as int + 1, path@, directory_name@);
                assert(g.take(g.len() as int) =~= g);
            }
            return Err(m);
        }
        let ghost before = files_view(files@);
        let mut j: usize = 0;
        while j < group.len()
            invariant
                j <= group@.len(),
                files_view(files@) == before + group@.map_values(|f: GoogleDriveFile| drive_file_view(f)).take(j as int)
                    .map_values(|f: DriveFileView| FileView { name: f.1, type_: drive_file_type(f.2), size: None }),
            decreases group@.len() - j,
        {
            let f = &group[j];
            let file = File { name: String::from_str(f.name.as_str()), type_: f.type_(), size: None };
            let ghost b = files_view(files@);
            files.push(file);
            assert(files_view(files@) =~= b.push(file@));
            j += 1;
            assert(files_view(files@) =~= before + group@.map_values(|f: GoogleDriveFile| drive_file_view(f)).take(j as int)
                .map_values(|f: DriveFileView| FileView { name: f.1, type_: drive_file_type(f.2), size: None }));
        }
        assert(group@.map_values(|f: GoogleDriveFile| drive_file_view(f)).take(j as int) =~= group@.map_values(|f: GoogleDriveFile| drive_file_view(f)));
        i += 1;
    }
    assert(g.take(i as int) =~= g);
    Ok(files)
}

/// An error of a prefix of the groups is the error of all of them.
pub proof fn lemma_listing_error_sticks(g: Seq<(Seq<char>, Seq<DriveFileView>)>, i: int, path: Seq<char>, directory_name: Seq<char>)
    requires
        0 <= i <= g.len(),
        listing_spec(g.take(i), path, directory_name) is Err,
    ensures
        listing_spec(g.take(g.len() as int), path, directory_name) == listing_spec(g.take(i), path, directory_name),
    decreases g.len() - i,
{
    if i < g.len() {
        assert(g.take(i + 1).drop_last() =~= g.take(i));
        lemma_listing_error_sticks(g, i + 1, path, directory_name);
    }
}

/// Where a new file goes: its parent directory and name.
pub open spec fn new_file_place(path: Seq<char>) -> Result<(Seq<char>, Seq<char>), Seq<char>> {
    if path == "/"@ {
        Err("An attempt to upload a file as "@ + debug_quoted(path))
    } else if !(path.len() > 0 && path[0] == '/') || path.last() == '/' {
        Err("Invalid path: "@ + debug_quoted(path))
    } else {
        let k = last_slash(path);
        let parent = path.take(k);
        (Ok((if parent.len() == 0 { "/"@ } else { parent }, path.skip(k + 1))))
    }
}

/// The position of the last slash of a path (-1 if there is none).
pub open spec fn last_slash(path: Seq<char>) -> int
    decreases path.len(),
{
    if path.len() == 0 { -1 } else if path.last() == '/' { path.len() - 1 } else { last_slash(path.drop_last()) }
}

/// Where a new file goes (see `new_file_place`).
pub fn get_new_file_place(path: &str) -> (r: Result<(String, String), String>)
    ensures
        match new_file_place(path@) {
            Ok((parent, name)) => r matches Ok((p, n)) && p@ == parent && n@ == name,
            Err(e) => r matches Err(m) && m@ == e,
        },
{
    proof {
        reveal_strlit("/");
    }
    if str_eq(path, "/") {
        let mut m = String::from_str("An attempt to upload a file as ");
        m.append(debug_str(path).as_str());
        return Err(m);
    }
    let chars = crate::text::chars_of(path);
    if chars.len() == 0 || chars[0] != '/' || chars[chars.len() - 1] == '/' {
        let mut m = String::from_str("Invalid path: ");
        m.append(debug_str(path).as_str());
        return Err(m);
    }
    let mut k = chars.len();
    assert(chars@.take(k as int) =~= chars@);
    while k > 0 && chars[k - 1] != '/'
        invariant
            0 < k <= chars@.len(),
            chars@[0] == '/',
            last_slash(chars@) == last_slash(chars@.take(k as int)),
        decreases k,
    {
        assert(chars@.take(k as int).drop_last() =~= chars@.take(k - 1));
        k -= 1;
    }
    proof {
        assert(chars@.take(k as int).last() == '/');
        assert(last_slash(chars@.take(k as int)) == k - 1);
    }
    let parent = crate::text::sub_vec(chars.as_slice(), 0, k - 1);
    let name = crate::text::sub_vec(chars.as_slice(), k, chars.len());
    assert(parent@ =~= chars@.take(k - 1));
    assert(name@ =~= chars@.skip(k as int));
    let parent = if parent.len() == 0 { String::from_str("/") } else { crate::text::string_of(parent.as_slice()) };
    Ok((parent, crate::text::string_of(name.as_slice())))
}

/// The URL that starts an upload: of a new file, or of the existing file of an id.
pub open spec fn upload_url_spec(file_id: Option<Seq<char>>) -> Seq<char> {
    "https://www.googleapis.com/upload/drive/v3/files"@ + (match file_id {
        Some(id) => "/"@ + id,
        None => seq![],
    }) + "?uploadType=resumable"@
}

/// The URL that starts an upload; an error if the file exists and may not be overwritten.
pub fn start_upload_url(file_id: Option<&str>, overwrite: bool) -> (r: Result<String, String>)
    ensures
        file_id is Some && !overwrite ==> (r matches Err(e) && e@ == "File already exists"@),
        !(file_id is Some && !overwrite) ==> (r matches Ok(u) && u@ == upload_url_spec(match file_id {
            Some(id) => Some(id@),
            None => None,
        })),
{
    if file_id.is_some() && !overwrite {
        return Err(String::from_str("File already exists"));
    }
    let mut url = String::from_str("https://www.googleapis.com/upload/drive/v3/files");
    if let Some(id) = file_id {
        url.append("/");
        url.append(id);
    }
    url.append("?uploadType=resumable");
    proof {
        reveal_strlit("/");
    }
    Ok(url)
}

/// Checks the size of a completed upload: an empty one is an error.
pub fn check_upload_size(size: u64) -> (r: Result<(), String>)
    ensures
        r is Ok <==> size > 0,
        r matches Err(e) ==> e@ == "An attempt to upload an empty file"@,
{
    if size == 0 {
        return Err(String::from_str("An attempt to upload an empty file"));
    }
    Ok(())
}

/// The error that the API replied.
pub struct ApiError {
    pub message: String,
}

impl ApiError {
    /// The message of the error.
    pub fn to_string(&self) -> (r: String)
        ensures
            r@ == "Google Drive error: "@ + crate::providers::yandex_disk::trim_dots(self.message@),
    {
        let mut r = String::from_str("Google Drive error: ");
        r.append(crate::providers::yandex_disk::without_final_dots(self.message.as_str()).as_str());
        r
    }
}

/// The search query of the files of a folder.
pub fn children_query(id: &str) -> (r: String)
    ensures
        r@ == "'"@ + id@ + "' in parents and trashed = false"@,
{
    let mut r = String::from_str("'");
    r.append(id);
    r.append("' in parents and trashed = false");
    r
}

/// What happens after a page of a listing.
pub enum PageOutcome {
    More,
    Done,
}

/// The files of a folder, listed page by page.
pub struct ChildrenListing {
    pub files: DirectoryFiles,
    pub page: u32,
    pub page_token: Option<String>,
}

/// Files grouped by name after some more listed files.
pub open spec fn add_files(groups: Seq<(Seq<char>, Seq<DriveFileView>)>, files: Seq<DriveFileView>) -> Seq<(Seq<char>, Seq<DriveFileView>)>
    decreases files.len(),
{
    if files.len() == 0 {
        groups
    } else {
        let g = add_files(groups, files.drop_last());
        let f = files.last();
        let i = crate::restoring::plan::key_index(g, f.1);
        if i >= 0 { g.update(i, (f.1, g[i].1.push(f))) } else { g.push((f.1, seq![f])) }
    }
}

impl ChildrenListing {
    /// A listing from its first page.
    pub fn new() -> (r: ChildrenListing)
        ensures
            groups_view(r.files.groups@).len() == 0,
            r.page == 1,
            r.page_token is None,
    {
        ChildrenListing { files: DirectoryFiles::new(), page: 1, page_token: None }
    }

    /// Takes a page: an incomplete one fails the listing; its files are added to their
    /// groups; the listing goes on from the next page token, up to a limit of pages.
    pub fn on_page(&mut self, files: Vec<GoogleDriveFile>, incomplete_search: bool, next_page_token: Option<String>) -> (r: Result<PageOutcome, String>)
        ensures
            incomplete_search ==> (r matches Err(e) && e@ == "Got an incomplete result on directory listing"@),
            !incomplete_search ==> groups_view(final(self).files.groups@)
                == add_files(groups_view(old(self).files.groups@), files@.map_values(|f: GoogleDriveFile| drive_file_view(f))),
            !incomplete_search && next_page_token is None ==> r matches Ok(PageOutcome::Done),
            !incomplete_search && next_page_token is Some && old(self).page >= 1000 ==> (r matches Err(e)
                && e@ == "Directory listing page limit has exceeded"@),
            !incomplete_search && next_page_token is Some && old(self).page < 1000 ==> (r matches Ok(PageOutcome::More)
                && final(self).page == old(self).page + 1 && final(self).page_token == next_page_token),
    {
        if incomplete_search {
            return Err(String::from_str("Got an incomplete result on directory listing"));
        }
        let ghost fv = files@.map_values(|f: GoogleDriveFile| drive_file_view(f));
        let ghost start = groups_view(self.files.groups@);
        let page = self.page;
        let mut rest = files;
        let mut done: Vec<GoogleDriveFile> = Vec::new();
        let mut reversed: Vec<GoogleDriveFile> = Vec::new();
        while rest.len() > 0
            invariant
                fv == rest@.map_values(|f: GoogleDriveFile| drive_file_view(f)) + reversed@.map_values(|f: GoogleDriveFile| drive_file_view(f)).reverse(),
                groups_view(self.files.groups@) == start,
                self.page == page,
                self.page_token == old(self).page_token,
            decreases rest@.len(),
        {
            let ghost r0 = rest@.map_values(|f: GoogleDriveFile| drive_file_view(f));
            let ghost v0 = reversed@.map_values(|f: GoogleDriveFile| drive_file_view(f));
            let f = rest.pop().unwrap();
            reversed.push(f);
            proof {
                assert(r0 =~= rest@.map_values(|f: GoogleDriveFile| drive_file_view(f)).push(drive_file_view(f)));
                assert(reversed@.map_values(|f: GoogleDriveFile| drive_file_view(f)) =~= v0.push(drive_file_view(f)));
                assert(reversed@.map_values(|f: GoogleDriveFile| drive_file_view(f)).reverse() =~= seq![drive_file_view(f)] + v0.reverse());
            }
        }
        assert(rest@.map_values(|f: GoogleDriveFile| drive_file_view(f)) =~= seq![]);
        let mut k: usize = 0;
        let n = reversed.len();
        assert(fv.take(0) =~= seq![]);
        while reversed.len() > 0
            invariant
                k + reversed@.len() == n,
                n == fv.len(),
                fv.take(k as int) + reversed@.map_values(|f: GoogleDriveFile| drive_file_view(f)).reverse() == fv,
                groups_view(self.files.groups@) == add_files(start, fv.take(k as int)),
                self.page == page,
                self.page_token == old(self).page_token,
            decreases reversed@.len(),
        {
            let ghost v0 = reversed@.map_values(|f: GoogleDriveFile| drive_file_view(f));
            let f = reversed.pop().unwrap();
            let ghost fview = drive_file_view(f);
            self.files.add(f);
            proof {
                assert(v0 =~= reversed@.map_values(|f: GoogleDriveFile| drive_file_view(f)).push(fview));
                assert(v0.reverse() =~= seq![fview] + reversed@.map_values(|f: GoogleDriveFile| drive_file_view(f)).reverse());
                assert(fv[k as int] == fview) by {
                    assert((fv.take(k as int) + v0.reverse())[k as int] == fview);
                }
                assert(fv.take(k + 1).drop_last() =~= fv.take(k as int));
                assert(fv.take(k as int + 1) + reversed@.map_values(|f: GoogleDriveFile| drive_file_view(f)).reverse() =~= fv);
            }
            k += 1;
        }
        assert(fv.take(k as int) =~= fv);
        match next_page_token {
            None => Ok(PageOutcome::Done),
            Some(token) => {
                if self.page >= 1000 {
                    return Err(String::from_str("Directory listing page limit has exceeded"));
                }
                self.page_token = Some(token);
                self.page = self.page + 1;
                Ok(PageOutcome::More)
            },
        }
    }
}

/// How looking a path up starts.
pub enum StatStart {
    /// The path is the root: its metadata is asked for directly.
    Root,
    /// The path is walked from the root, folder by folder.
    Walk(StatWalk),
}

/// What a step of a walk finds.
pub enum StatStep {
    /// The file of the path.
    Found(GoogleDriveFile),
    /// The path does not exist.
    Missing,
    /// The walk goes on: the files of the folder of the given id are needed next.
    Next { folder_id: String },
}

/// A walk down a path: the components of the path, and how far it got.
pub struct StatWalk {
    path: String,
    components: Vec<String>,
    index: usize,
    cur_path: String,
    cur_dir_id: String,
}

/// Where a walk is, as values.
pub struct StatWalkView {
    pub path: Seq<char>,
    pub components: Seq<Seq<char>>,
    pub index: int,
    pub cur_path: Seq<char>,
    pub cur_dir_id: Seq<char>,
}

impl View for StatWalk {
    type V = StatWalkView;

    closed spec fn view(&self) -> StatWalkView {
        StatWalkView {
            path: self.path@,
            components: crate::sync::strings_view(self.components@),
            index: self.index as int,
            cur_path: self.cur_path@,
            cur_dir_id: self.cur_dir_id@,
        }
    }
}

/// The components of a valid path after its leading slash.
pub open spec fn path_components(path: Seq<char>) -> Seq<Seq<char>> {
    crate::text::split_spec(path, '/').drop_first()
}

impl StatWalk {
    #[verifier::type_invariant]
    spec fn inv(&self) -> bool {
        self.index < self.components@.len()
    }

    /// The folder whose files the walk needs next.
    pub fn folder_id(&self) -> (r: String)
        ensures
            r@ == self@.cur_dir_id,
    {
        String::from_str(self.cur_dir_id.as_str())
    }

    /// The message of an error while reading the current folder.
    pub fn read_error(&self, e: &str) -> (r: String)
        ensures
            r@ == "Error while reading "@ + debug_quoted(self@.cur_path) + " directory: "@ + e@,
    {
        let mut m = String::from_str("Error while reading ");
        m.append(debug_str(self.cur_path.as_str()).as_str());
        m.append(" directory: ");
        m.append(e);
        m
    }

    /// Takes the files of the current folder: the file of the next component is looked up;
    /// if it is the last component, it is found; else it must be a folder, which is walked
    /// into.
    pub fn on_children(&mut self, files: &DirectoryFiles) -> (r: Result<StatStep, String>)
        ensures
            ({
                let w = old(self)@;
                let c = w.components[w.index];
                let p = (if w.cur_path.len() > 0 && w.cur_path.last() == '/' { w.cur_path } else { w.cur_path + "/"@ }) + c;
                match get_file_spec(groups_view(files.groups@), p, c) {
                    Err(e) => r matches Err(m) && m@ == e,
                    Ok(None) => r matches Ok(StatStep::Missing),
                    Ok(Some(f)) => if w.index == w.components.len() - 1 {
                        r matches Ok(StatStep::Found(file)) && drive_file_view(file) == f
                    } else if w.components[w.index + 1].len() == 0 {
                        r matches Err(m) && m@ == "Invalid path: "@ + debug_quoted(w.path)
                    } else if drive_file_type(f.2) != FileType::Directory {
                        r matches Err(m) && m@ == debug_quoted(p) + " is not a directory"@
                    } else {
                        &&& r matches Ok(StatStep::Next { folder_id }) && folder_id@ == f.0
                        &&& final(self)@ == (StatWalkView { cur_path: p, cur_dir_id: f.0, index: w.index + 1, ..w })
                    },
                }
            }),
    {
        proof {
            use_type_invariant(&*self);
        }
        let component = String::from_str(self.components[self.index].as_str());
        let chars = crate::text::chars_of(self.cur_path.as_str());
        let mut cur_path = String::from_str(self.cur_path.as_str());
        if chars.len() == 0 || chars[chars.len() - 1] != '/' {
            cur_path.append("/");
        }
        cur_path.append(component.as_str());
        proof {
            reveal_strlit("/");
            assert(component@ == self@.components[self@.index]);
        }
        self.cur_path = cur_path;
        let file = match get_file(files, self.cur_path.as_str(), component.as_str()) {
            Ok(Some(file)) => file,
            Ok(None) => return Ok(StatStep::Missing),
            Err(e) => return Err(e),
        };
        let count = self.components.len();
        if self.index >= count - 1 {
            return Ok(StatStep::Found(file));
        }
        proof {
            use_type_invariant(&*self);
        }
        assert(self@.components[self@.index + 1] == self.components@[self.index + 1]@);
        if self.components[self.index + 1].as_str().unicode_len() == 0 {
            let mut m = String::from_str("Invalid path: ");
            m.append(debug_str(self.path.as_str()).as_str());
            return Err(m);
        }
        let is_directory = match file.type_() {
            FileType::Directory => true,
            _ => false,
        };
        if !is_directory {
            let mut m = debug_str(self.cur_path.as_str());
            m.append(" is not a directory");
            return Err(m);
        }
        let folder_id = String::from_str(file.id.as_str());
        self.cur_dir_id = file.id;
        self.index = self.index + 1;
        Ok(StatStep::Next { folder_id })
    }
}

/// How looking up a path starts: the root directly; a path that does not start with a
/// slash or ends with one is invalid; else its components are walked from the root.
pub fn start_stat(path: &str) -> (r: Result<StatStart, String>)
    ensures
        path@ == "/"@ ==> r matches Ok(StatStart::Root),
        path@ != "/"@ && (!(path@.len() > 0 && path@[0] == '/') || path@.last() == '/') ==> (r matches Err(e)
            && e@ == "Invalid path: "@ + debug_quoted(path@)),
        r matches Ok(StatStart::Walk(w)) ==> w@.path == path@ && w@.index == 0 && w@.cur_path == "/"@
            && w@.cur_dir_id == "root"@ && w@.components == path_components(path@),
{
    proof {
        reveal_strlit("/");
    }
    if str_eq(path, "/") {
        return Ok(StatStart::Root);
    }
    let chars = crate::text::chars_of(path);
    if chars.len() == 0 || chars[0] != '/' || chars[chars.len() - 1] == '/' {
        let mut m = String::from_str("Invalid path: ");
        m.append(debug_str(path).as_str());
        return Err(m);
    }
    let parts = crate::text::split(chars.as_slice(), '/');
    proof {
        crate::text::lemma_split_nonempty(chars@, '/');
    }
    let mut components: Vec<String> = Vec::new();
    let mut i: usize = 1;
    let ghost pv = crate::text::split_spec(chars@, '/');
    assert(crate::sync::strings_view(components@) =~= pv.drop_first().take(0));
    while i < parts.len()
        invariant
            1 <= i <= parts@.len(),
            crate::text::views(parts@) == pv,
            pv.len() >= 1,
            crate::sync::strings_view(components@) == pv.drop_first().take(i - 1),
        decreases parts@.len() - i,
    {
        let c = crate::text::string_of(parts[i].as_slice());
        let ghost before = crate::sync::strings_view(components@);
        components.push(c);
        proof {
            assert(crate::text::views(parts@)[i as int] == parts@[i as int]@);
            assert(crate::sync::strings_view(components@) =~= before.push(c@));
            assert(pv.drop_first().take(i as int) =~= pv.drop_first().take(i - 1).push(pv[i as int]));
        }
        i += 1;
    }
    assert(pv.drop_first().take(i - 1) =~= pv.drop_first());
    if components.len() == 0 {
        let mut m = String::from_str("Invalid path: ");
        m.append(debug_str(path).as_str());
        return Err(m);
    }
    Ok(StatStart::Walk(StatWalk {
        path: String::from_str(path),
        components,
        index: 0,
        cur_path: String::from_str("/"),
        cur_dir_id: String::from_str("root"),
    }))
}

} // verus!
