//! Yandex Disk.

use vstd::prelude::*;

use crate::storage::provider::{File, FileType, FileView, files_view};
use crate::text::{debug_quoted, debug_str, str_eq};

verus! {

/// Where the API is.
pub open spec fn api_endpoint() -> Seq<char> {
    "https://cloud-api.yandex.net/v1/disk"@
}

/// The URL of an API path.
pub fn api_url(path: &str) -> (r: String)
    ensures
        r@ == api_endpoint() + path@,
{
    let mut r = String::from_str("https://cloud-api.yandex.net/v1/disk");
    r.append(path);
    r
}

/// A path on the disk as the API takes it: with a `disk:` prefix, without which paths with
/// a colon are taken wrongly.
pub fn disk_path(path: &str) -> (r: String)
    ensures
        r@ == "disk:"@ + path@,
{
    let mut r = String::from_str("disk:");
    r.append(path);
    r
}

/// An item of a directory listing.
pub struct Item {
    /// `"dir"`, `"file"` or another kind.
    pub type_: String,
    pub name: String,
    pub size: Option<u64>,
}

/// The type of a listed item.
pub open spec fn item_type(t: Seq<char>) -> FileType {
    if t == "dir"@ {
        FileType::Directory
    } else if t == "file"@ {
        FileType::File
    } else {
        FileType::Other
    }
}

/// The file of a listed item.
pub fn item_file(item: Item) -> (r: File)
    ensures
        r@ == (FileView { name: item.name@, type_: item_type(item.type_@), size: item.size }),
{
    let type_ = if str_eq(item.type_.as_str(), "dir") {
        FileType::Directory
    } else if str_eq(item.type_.as_str(), "file") {
        FileType::File
    } else {
        FileType::Other
    };
    File { name: item.name, type_, size: item.size }
}

/// The error that the API replied.
pub struct ApiError {
    pub error: String,
    pub message: String,
}

/// `s` without dots at its end.
pub open spec fn trim_dots(s: Seq<char>) -> Seq<char>
    decreases s.len(),
{
    if s.len() > 0 && s.last() == '.' { trim_dots(s.drop_last()) } else { s }
}

impl ApiError {
    /// Whether the error tells that a path does not exist.
    pub fn is_not_found(&self) -> (r: bool)
        ensures
            r == (self.error@ == "DiskNotFoundError"@),
    {
        str_eq(self.error.as_str(), "DiskNotFoundError")
    }

    /// The message of the error.
    pub fn to_string(&self) -> (r: String)
        ensures
            r@ == "Yandex Disk error: "@ + trim_dots(self.message@),
    {
        let mut r = String::from_str("Yandex Disk error: ");
        r.append(without_final_dots(self.message.as_str()).as_str());
        r
    }
}

/// `s` without dots at its end (see `trim_dots`).
pub fn without_final_dots(s: &str) -> (r: String)
    ensures
        r@ == trim_dots(s@),
{
    let chars = crate::text::chars_of(s);
    let mut end = chars.len();
    assert(chars@.take(end as int) =~= chars@);
    while end > 0 && chars[end - 1] == '.'
        invariant
            end <= chars@.len(),
            chars@ == s@,
            trim_dots(chars@.take(end as int)) == trim_dots(s@),
        decreases end,
    {
        assert(chars@.take(end as int).drop_last() =~= chars@.take(end - 1));
        end -= 1;
    }
    let part = crate::text::sub_vec(chars.as_slice(), 0, end);
    assert(part@ =~= chars@.take(end as int));
    crate::text::string_of(part.as_slice())
}

/// The files of a listing with an item put in: it replaces a file of the same name.
pub open spec fn put_item(files: Seq<FileView>, f: FileView) -> Seq<FileView> {
    let i = crate::restoring::plan::key_index(files.map_values(|x: FileView| (x.name, x)), f.name);
    if i >= 0 { files.update(i, f) } else { files.push(f) }
}

/// The files of a listing with some items put in, in order.
pub open spec fn put_items(files: Seq<FileView>, items: Seq<FileView>) -> Seq<FileView>
    decreases items.len(),
{
    if items.len() == 0 { files } else { put_item(put_items(files, items.drop_last()), items.last()) }
}

/// The files of some items.
pub open spec fn items_files(items: Seq<Item>) -> Seq<FileView> {
    items.map_values(|i: Item| FileView { name: i.name@, type_: item_type(i.type_@), size: i.size })
}

/// A directory listing, page by page: the files so far (one per name), and the offset of
/// the next page.
pub struct YandexListing {
    pub path: String,
    pub files: Vec<File>,
    pub offset: usize,
}

/// What happens after a page of a listing.
pub enum PageOutcome {
    More,
    Done,
}

impl YandexListing {
    /// A listing of the directory at a path.
    pub fn new(path: &str) -> (r: YandexListing)
        ensures
            r.path@ == path@,
            r.files@.len() == 0,
            r.offset == 0,
    {
        YandexListing { path: String::from_str(path), files: Vec::new(), offset: 0 }
    }

    /// Puts a file in (replacing one of its name).
    fn put(&mut self, f: File)
        ensures
            files_view(final(self).files@) == put_item(files_view(old(self).files@), f@),
            final(self).path@ == old(self).path@,
            final(self).offset == old(self).offset,
    {
        let ghost fv = files_view(self.files@);
        let ghost keyed = fv.map_values(|x: FileView| (x.name, x));
        let mut k = self.files.len();
        let mut found: Option<usize> = None;
        assert(keyed.take(k as int) =~= keyed);
        while k > 0
            invariant_except_break
                found is None,
                crate::restoring::plan::key_index(keyed, f@.name) == crate::restoring::plan::key_index(keyed.take(k as int), f@.name),
            invariant
                k <= keyed.len(),
                keyed.len() == self.files@.len(),
                fv == files_view(self.files@),
                keyed == fv.map_values(|x: FileView| (x.name, x)),
            ensures
                match found {
                    Some(i) => crate::restoring::plan::key_index(keyed, f@.name) == i && i < keyed.len(),
                    None => crate::restoring::plan::key_index(keyed, f@.name) == -1,
                },
            decreases k,
        {
            proof {
                assert(keyed.take(k as int).drop_last() =~= keyed.take(k - 1));
                assert(keyed.take(k as int).last() == keyed[k - 1]);
                assert(keyed[k - 1].0 == self.files@[k - 1].name@);
            }
            if str_eq(self.files[k - 1].name.as_str(), f.name.as_str()) {
                found = Some(k - 1);
                break;
            }
            k -= 1;
        }
        match found {
            Some(i) => {
                self.files.set(i, f);
                assert(files_view(self.files@) =~= fv.update(i as int, f@));
            },
            None => {
                self.files.push(f);
                assert(files_view(self.files@) =~= fv.push(f@));
            },
        }
    }

    /// Takes a page: the reply must be of a directory; its items are put in; the listing goes
    /// on while fewer items than the directory holds have been seen.
    pub fn on_page(&mut self, type_: &str, embedded: Option<(Vec<Item>, usize)>) -> (r: Result<PageOutcome, String>)
        ensures
            !(type_@ == "dir"@ && embedded is Some) ==> (r matches Err(e) && e@ == debug_quoted(old(self).path@) + " is not a directory"@),
            type_@ == "dir"@ && embedded is Some ==> ({
                let (items, total) = embedded->Some_0;
                let offset = if old(self).offset + items@.len() > usize::MAX { usize::MAX as int } else { old(self).offset + items@.len() };
                &&& files_view(final(self).files@) == put_items(files_view(old(self).files@), items_files(items@))
                &&& final(self).offset == offset
                &&& r matches Ok(o) && (o is Done <==> offset >= total)
            }),
    {
        let (items, total) = match embedded {
            Some(e) if str_eq(type_, "dir") => e,
            _ => {
                let mut m = debug_str(self.path.as_str());
                m.append(" is not a directory");
                return Err(m);
            },
        };
        self.offset = self.offset.saturating_add(items.len());
        let ghost offset0 = self.offset;
        let ghost iv = items_files(items@);
        let ghost start = files_view(self.files@);
        let mut rest = items;
        let mut reversed: Vec<Item> = Vec::new();
        while rest.len() > 0
            invariant
                iv == items_files(rest@) + items_files(reversed@).reverse(),
                files_view(self.files@) == start,
                self.path@ == old(self).path@,
                self.offset == offset0,
            decreases rest@.len(),
        {
            let ghost r0 = rest@;
            let ghost v0 = reversed@;
            let item = rest.pop().unwrap();
            reversed.push(item);
            proof {
                assert(items_files(r0) =~= items_files(rest@).push(items_files(r0).last()));
                assert(items_files(reversed@) =~= items_files(v0).push(items_files(r0).last()));
                assert(items_files(reversed@).reverse() =~= seq![items_files(r0).last()] + items_files(v0).reverse());
            }
        }
        assert(items_files(rest@) =~= seq![]);
        assert(iv =~= items_files(reversed@).reverse());
        let mut done: usize = 0;
        let n = reversed.len();
        let ghost offset = self.offset;
        while reversed.len() > 0
            invariant
                done + reversed@.len() == n,
                self.path@ == old(self).path@,
                self.offset == offset,
                iv == items_files(reversed@).reverse().take(0) + iv,
                iv.take(done as int) + items_files(reversed@).reverse() == iv,
                n == iv.len(),
                files_view(self.files@) == put_items(start, iv.take(done as int)),
            decreases reversed@.len(),
        {
            let ghost v0 = reversed@;
            let item = reversed.pop().unwrap();
            let f = item_file(item);
            self.put(f);
            proof {
                assert(items_files(v0).reverse() =~= seq![f@] + items_files(reversed@).reverse());
                assert(iv[done as int] == f@) by {
                    assert((iv.take(done as int) + items_files(v0).reverse())[done as int] == f@);
                }
                assert(iv.take(done + 1).drop_last() =~= iv.take(done as int));
                assert(iv.take(done as int + 1) + items_files(reversed@).reverse() =~= iv);
            }
            done += 1;
        }
        assert(iv.take(done as int) =~= iv);
        if self.offset >= total { Ok(PageOutcome::Done) } else { Ok(PageOutcome::More) }
    }
}

/// The state of an operation of the disk.
#[derive(Clone, Copy, Debug, PartialEq, Eq, Structural)]
pub enum OperationState {
    Succeeded,
    InProgress,
    Failed,
}

/// The state of an operation by the status that the API tells.
pub fn operation_state(status: &str) -> (r: OperationState)
    ensures
        r == (if status@ == "success"@ {
            OperationState::Succeeded
        } else if status@ == "in-progress"@ {
            OperationState::InProgress
        } else {
            OperationState::Failed
        }),
{
    if str_eq(status, "success") {
        OperationState::Succeeded
    } else if str_eq(status, "in-progress") {
        OperationState::InProgress
    } else {
        OperationState::Failed
    }
}

/// Whether an uploaded file is intact: its MD5 (as the API tells it) is the hash computed
/// while sending it.
pub fn checksum_matches(md5: &str, checksum: &crate::hash::Hash) -> (r: bool)
    ensures
        r == (md5@ == crate::hash::to_hex(checksum@)),
{
    let hex = checksum.to_string();
    str_eq(md5, hex.as_str())
}

} // verus!
