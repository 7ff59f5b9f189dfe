//! Dropbox.

use vstd::prelude::*;

use crate::storage::provider::{File, FileType, FileView, files_view};
use crate::storage::trim_trailing_slashes;
use crate::text::str_eq;

verus! {

/// An entry of a Dropbox folder listing.
pub struct DropboxEntry {
    /// `"folder"`, `"file"` or another kind.
    pub tag: String,
    pub name: String,
}

/// The type of a listed entry.
pub open spec fn entry_type(tag: Seq<char>) -> FileType {
    if tag == "folder"@ {
        FileType::Directory
    } else if tag == "file"@ {
        FileType::File
    } else {
        FileType::Other
    }
}

/// The file of a listed entry (Dropbox does not tell its size).
pub fn entry_file(entry: DropboxEntry) -> (r: File)
    ensures
        r@ == (FileView { name: entry.name@, type_: entry_type(entry.tag@), size: None }),
{
    let type_ = if str_eq(entry.tag.as_str(), "folder") {
        FileType::Directory
    } else if str_eq(entry.tag.as_str(), "file") {
        FileType::File
    } else {
        FileType::Other
    };
    File { name: entry.name, type_, size: None }
}

/// The error that the Dropbox API replied.
pub struct ApiError {
    /// The kind of the route error, if any (`"path"` for a path error).
    pub tag: Option<String>,
    /// The kind of the path error, if any (`"not_found"` for a missing path).
    pub path_tag: Option<String>,
    pub error_summary: String,
}

/// Whether an error tells that a path does not exist.
pub open spec fn is_not_found_spec(e: ApiError) -> bool {
    &&& e.tag matches Some(t) && t@ == "path"@
    &&& e.path_tag matches Some(p) && p@ == "not_found"@
}

/// `s` without dots and slashes at its end.
pub open spec fn trim_dots_slashes(s: Seq<char>) -> Seq<char>
    decreases s.len(),
{
    if s.len() > 0 && (s.last() == '.' || s.last() == '/') { trim_dots_slashes(s.drop_last()) } else { s }
}

impl ApiError {
    /// Whether the error tells that a path does not exist.
    pub fn is_not_found(&self) -> (r: bool)
        ensures
            r == is_not_found_spec(*self),
    {
        let path = match &self.tag {
            Some(t) => str_eq(t.as_str(), "path"),
            None => false,
        };
        let not_found = match &self.path_tag {
            Some(p) => str_eq(p.as_str(), "not_found"),
            None => false,
        };
        path && not_found
    }

    /// The message of the error.
    pub fn to_string(&self) -> (r: String)
        ensures
            r@ == "Dropbox API error: "@ + trim_dots_slashes(self.error_summary@),
    {
        let chars = crate::text::chars_of(self.error_summary.as_str());
        let mut end = chars.len();
        assert(chars@.take(end as int) =~= chars@);
        while end > 0 && (chars[end - 1] == '.' || chars[end - 1] == '/')
            invariant
                end <= chars@.len(),
                chars@ == self.error_summary@,
                trim_dots_slashes(chars@.take(end as int)) == trim_dots_slashes(self.error_summary@),
            decreases end,
        {
            assert(chars@.take(end as int).drop_last() =~= chars@.take(end - 1));
            end -= 1;
        }
        let part = crate::text::sub_vec(chars.as_slice(), 0, end);
        assert(part@ =~= chars@.take(end as int));
        let mut r = String::from_str("Dropbox API error: ");
        r.append(crate::text::string_of(part.as_slice()).as_str());
        r
    }
}

/// The page limit of a listing.
pub open spec fn page_limit() -> nat {
    1000
}

/// The next request of a listing.
pub enum ListRequest {
    /// List the folder at a path.
    ListFolder { path: String },
    /// Continue a listing from a cursor.
    Continue { cursor: String },
}

/// A folder listing, page by page: the files so far, and where to go on.
pub struct DropboxListing {
    pub path: String,
    pub files: Vec<File>,
    pub page: u32,
    pub cursor: Option<String>,
}

/// The files of some entries, in order.
pub open spec fn entries_files(entries: Seq<DropboxEntry>) -> Seq<FileView> {
    entries.map_values(|e: DropboxEntry| FileView { name: e.name@, type_: entry_type(e.tag@), size: None })
}

/// What happens after a page of a listing.
pub enum PageOutcome {
    /// Ask for the next page.
    More,
    /// The listing is complete.
    Done,
}

impl DropboxListing {
    /// A listing of the folder at a path.
    pub fn new(path: &str) -> (r: DropboxListing)
        ensures
            r.path@ == path@,
            r.files@.len() == 0,
            r.page == 1,
            r.cursor is None,
    {
        DropboxListing { path: String::from_str(path), files: Vec::new(), page: 1, cursor: None }
    }

    /// The request of the next page: the folder at first, then from the cursor.
    pub fn request(&self) -> (r: ListRequest)
        ensures
            match self.cursor {
                Some(c) => r matches ListRequest::Continue { cursor } && cursor@ == c@,
                None => r matches ListRequest::ListFolder { path } && path@ == self.path@,
            },
    {
        match &self.cursor {
            Some(c) => ListRequest::Continue { cursor: String::from_str(c.as_str()) },
            None => ListRequest::ListFolder { path: String::from_str(self.path.as_str()) },
        }
    }

    /// Whether an error of a page request tells that the folder does not exist (only the
    /// first request can tell so).
    pub fn is_missing(&self, error: &ApiError) -> (r: bool)
        ensures
            r == (self.cursor is None && is_not_found_spec(*error)),
    {
        self.cursor.is_none() && error.is_not_found()
    }

    /// Takes a page: its entries are added; if there are more, the listing goes on from the
    /// cursor, up to a limit of pages.
    pub fn on_page(&mut self, entries: Vec<DropboxEntry>, cursor: String, has_more: bool) -> (r: Result<PageOutcome, String>)
        ensures
            files_view(final(self).files@) == files_view(old(self).files@) + entries_files(entries@),
            final(self).path@ == old(self).path@,
            !has_more ==> r matches Ok(PageOutcome::Done),
            has_more && old(self).page >= page_limit() ==> (r matches Err(e) && e@ == "Directory listing page limit has exceeded"@),
            has_more && old(self).page < page_limit() ==> (r matches Ok(PageOutcome::More) && final(self).page == old(self).page + 1
                && (final(self).cursor matches Some(c) && c@ == cursor@)),
    {
        let ghost before = files_view(self.files@);
        let ghost ev = entries_files(entries@);
        let mut rest = entries;
        let mut reversed: Vec<File> = Vec::new();
        while rest.len() > 0
            invariant
                ev == entries_files(rest@) + files_view(reversed@).reverse(),
                self.path@ == old(self).path@,
                self.page == old(self).page,
                self.cursor == old(self).cursor,
                files_view(self.files@) == before,
            decreases rest@.len(),
        {
            let ghost r0 = rest@;
            let ghost v0 = files_view(reversed@);
            let e = rest.pop().unwrap();
            let f = entry_file(e);
            reversed.push(f);
            proof {
                assert(entries_files(r0) =~= entries_files(rest@).push(f@));
                assert(files_view(reversed@) =~= v0.push(f@));
                assert(files_view(reversed@).reverse() =~= seq![f@] + v0.reverse());
            }
        }
        assert(entries_files(rest@) =~= seq![]);
        while reversed.len() > 0
            invariant
                files_view(self.files@) + files_view(reversed@).reverse() == before + ev,
                self.path@ == old(self).path@,
                self.page == old(self).page,
                self.cursor == old(self).cursor,
            decreases reversed@.len(),
        {
            let ghost v0 = files_view(reversed@);
            let ghost s0 = files_view(self.files@);
            let f = reversed.pop().unwrap();
            self.files.push(f);
            proof {
                assert(files_view(reversed@) =~= v0.drop_last());
                assert(files_view(self.files@) =~= s0.push(f@));
                assert(v0.reverse() =~= seq![v0.last()] + files_view(reversed@).reverse());
            }
        }
        assert(files_view(reversed@).reverse() =~= seq![]);
        assert(files_view(self.files@) =~= before + ev);
        if !has_more {
            return Ok(PageOutcome::Done);
        }
        if self.page >= 1000 {
            return Err(String::from_str("Directory listing page limit has exceeded"));
        }
        self.cursor = Some(cursor);
        self.page = self.page + 1;
        Ok(PageOutcome::More)
    }
}

/// The path of a file in a directory (`a/` + `b` = `a/b`).
pub open spec fn file_path(directory: Seq<char>, name: Seq<char>) -> Seq<char> {
    trim_trailing_slashes(directory) + "/"@ + name
}

/// The path of a file in a directory (see `file_path`).
pub fn get_file_path(directory: &str, name: &str) -> (r: String)
    ensures
        r@ == file_path(directory@, name@),
{
    let chars = crate::text::chars_of(directory);
    let mut end = chars.len();
    assert(chars@.take(end as int) =~= chars@);
    while end > 0 && chars[end - 1] == '/'
        invariant
            end <= chars@.len(),
            chars@ == directory@,
            trim_trailing_slashes(chars@.take(end as int)) == trim_trailing_slashes(directory@),
        decreases end,
    {
        assert(chars@.take(end as int).drop_last() =~= chars@.take(end - 1));
        end -= 1;
    }
    let part = crate::text::sub_vec(chars.as_slice(), 0, end);
    assert(part@ =~= chars@.take(end as int));
    crate::text::slash_join(crate::text::string_of(part.as_slice()).as_str(), name)
}

/// What an upload does when its data is complete: the uploaded file's hash must be the one
/// computed while sending; then the temporary file is renamed, else it is deleted and the
/// upload fails.
#[derive(Clone, Copy, Debug, PartialEq, Eq, Structural)]
pub enum FinishAction {
    Rename,
    DeleteAndFail,
}

/// What an upload does when its data is complete (see `FinishAction`).
pub fn finish_action(content_hash: &str, checksum: &str) -> (r: FinishAction)
    ensures
        r == (if content_hash@ == checksum@ { FinishAction::Rename } else { FinishAction::DeleteAndFail }),
{
    if str_eq(content_hash, checksum) { FinishAction::Rename } else { FinishAction::DeleteAndFail }
}

} // verus!
