//! A backup group: a directory of backups that share their data (each extern file of a
//! backup is a unique file of an earlier backup of the group).

use vstd::prelude::*;
use vstd::hash_set::StringHashSet;

use crate::logging::{Level, LogRecord, extends};
use crate::text::{chars_le, chars_le_exec, chars_of, debug_quoted, debug_str, first_index_of, slash_join,
    lemma_chars_le_total, lemma_chars_le_transitive};

use super::backup::{Backup, BackupView, backup_read_as, inspect_spec, lemma_inspect_hashes_grow, readable_items, stat_of};
use crate::metadata::MetadataItemView;
use super::provider::{clarification, File, FileType, FileView, ProviderType, ReadProvider, files_view};
use super::traits::{BackupTraits, anchored_name_pattern, backup_file_type, backup_name_pattern, group_name_pattern, regex_compiles,
    regex_is_match, regex_whole_match};

verus! {

/// Whether listed files are ordered by name.
pub open spec fn names_sorted(files: Seq<FileView>) -> bool {
    forall|i: int, j: int| 0 <= i < j < files.len() ==> chars_le(#[trigger] files[i].name, #[trigger] files[j].name)
}

/// Sorts listed files by name, keeping the order of equal names.
pub fn sort_files(files: Vec<File>) -> (r: Vec<File>)
    ensures
        files_view(r@).to_multiset() == files_view(files@).to_multiset(),
        names_sorted(files_view(r@)),
{
    broadcast use vstd::seq_lib::group_to_multiset_ensures;

    let ghost original = files_view(files@);
    let mut rest = files;
    let mut r: Vec<File> = Vec::new();
    while rest.len() > 0
        invariant
            files_view(r@).to_multiset().add(files_view(rest@).to_multiset()) == original.to_multiset(),
            names_sorted(files_view(r@)),
        decreases rest@.len(),
    {
        let ghost rest0 = files_view(rest@);
        let f = rest.pop().unwrap();
        proof {
            assert(files_view(rest@) =~= rest0.drop_last());
            assert(rest0 =~= files_view(rest@).push(f@));
            vstd::seq_lib::to_multiset_build(files_view(rest@), f@);
        }
        let name = chars_of(f.name.as_str());
        let mut p: usize = 0;
        while p < r.len()
            invariant
                p <= r@.len(),
                name@ == f.name@,
                forall|k: int| 0 <= k < p ==> !chars_le(f.name@, #[trigger] r@[k].name@),
            ensures
                p <= r@.len(),
                forall|k: int| 0 <= k < p ==> !chars_le(f.name@, #[trigger] r@[k].name@),
                p < r@.len() ==> chars_le(f.name@, r@[p as int].name@),
            decreases r@.len() - p,
        {
            let other = chars_of(r[p].name.as_str());
            if chars_le_exec(name.as_slice(), other.as_slice()) {
                break;
            }
            p += 1;
        }
        let ghost r0 = files_view(r@);
        r.insert(p, f);
        proof {
            assert(files_view(r@) =~= r0.insert(p as int, f@));
            vstd::seq_lib::to_multiset_insert(r0, p as int, f@);
            let s = files_view(r@);
            assert forall|i: int, j: int| 0 <= i < j < s.len() implies chars_le(#[trigger] s[i].name, #[trigger] s[j].name) by {
                if j < p {
                    assert(s[i] == r0[i] && s[j] == r0[j]);
                } else if i > p {
                    assert(s[i] == r0[i - 1] && s[j] == r0[j - 1]);
                } else if i == p {
                    if p < r0.len() {
                        assert(chars_le(f.name@, r0[p as int].name));
                        if j - 1 > p {
                            lemma_chars_le_transitive(f.name@, r0[p as int].name, r0[j - 1].name);
                        }
                    }
                } else if j == p {
                    assert(!chars_le(f.name@, r0[i].name));
                    lemma_chars_le_total(f.name@, r0[i].name);
                } else {
                    assert(i < p && p < j);
                    assert(!chars_le(f.name@, r0[i].name));
                    lemma_chars_le_total(f.name@, r0[i].name);
                    if p < r0.len() {
                        assert(chars_le(f.name@, r0[p as int].name));
                        if j - 1 > p {
                            lemma_chars_le_transitive(f.name@, r0[p as int].name, r0[j - 1].name);
                        }
                        lemma_chars_le_transitive(r0[i].name, f.name@, r0[j - 1].name);
                    }
                }
            }
        }
    }
    assert(files_view(rest@).to_multiset() =~= vstd::multiset::Multiset::empty());
    r
}

/// What a file of a backup group's directory is.
pub enum GroupEntry {
    /// A hidden file of the operating system.
    Hidden,
    /// A file that has no place in a backup group.
    Unexpected,
    /// A backup, with the name that its file name holds; a temporary one is being created
    /// or was left unfinished.
    Backup { name: String, temporary: bool },
}

/// What a file of a backup group's directory is, as values.
pub enum GroupEntryView {
    Hidden,
    Unexpected,
    Backup { name: Seq<char>, temporary: bool },
}

impl View for GroupEntry {
    type V = GroupEntryView;

    open spec fn view(&self) -> GroupEntryView {
        match self {
            GroupEntry::Hidden => GroupEntryView::Hidden,
            GroupEntry::Unexpected => GroupEntryView::Unexpected,
            GroupEntry::Backup { name, temporary } => GroupEntryView::Backup { name: name@, temporary: *temporary },
        }
    }
}

/// A file name without the prefix of temporary backups, and whether it had it.
pub open spec fn stripped_name(name: Seq<char>, prefix: Seq<char>) -> (Seq<char>, bool) {
    if prefix.is_prefix_of(name) {
        (name.skip(prefix.len() as int), true)
    } else {
        (name, false)
    }
}

/// Whether a file name is that of a hidden file.
pub open spec fn is_hidden(name: Seq<char>) -> bool {
    name.len() > 0 && name[0] == '.'
}

/// What a file of a backup group is, for a storage whose backups are files of the given
/// type named by the given pattern (without the prefix of temporary backups).
pub open spec fn entry_spec(f: FileView, traits_file_type: FileType, prefix: Seq<char>, pattern: Seq<char>) -> GroupEntryView {
    let (stripped, temporary) = stripped_name(f.name, prefix);
    match regex_whole_match(pattern, stripped) {
        Some(n) => if f.type_ == traits_file_type {
            GroupEntryView::Backup { name: n, temporary }
        } else {
            GroupEntryView::Unexpected
        },
        None => if is_hidden(f.name) {
            GroupEntryView::Hidden
        } else {
            GroupEntryView::Unexpected
        },
    }
}

/// What the files of a backup group are, for backups that are files of the given type
/// named by the given pattern.
pub open spec fn entries_spec(files: Seq<FileView>, file_type: FileType, prefix: Seq<char>, pattern: Seq<char>) -> Seq<(FileView, GroupEntryView)> {
    files.map_values(|f: FileView| (f, entry_spec(f, file_type, prefix, pattern)))
}

/// Whether a classified file that is a backup is named by its file name (without the prefix
/// of temporary backups), as it is for the name patterns (see `anchored_name_pattern`).
pub open spec fn name_is_stripped(e: (FileView, GroupEntryView), prefix: Seq<char>, pattern: Seq<char>) -> bool {
    anchored_name_pattern(pattern) ==> (e.1 matches GroupEntryView::Backup { name: n, .. } ==> n == stripped_name(e.0.name, prefix).0)
}

/// Whether the given classified files are a sorted listing, classified for backups that are
/// files of the given type named by the given pattern.
pub open spec fn valid_entries(entries: Seq<(FileView, GroupEntryView)>, file_type: FileType, prefix: Seq<char>, pattern: Seq<char>) -> bool {
    let files = entries.map_values(|e: (FileView, GroupEntryView)| e.0);
    &&& names_sorted(files)
    &&& entries == entries_spec(files, file_type, prefix, pattern)
    &&& forall|k: int| 0 <= k < entries.len() ==> name_is_stripped(#[trigger] entries[k], prefix, pattern)
}

/// The views of classified files.
pub open spec fn entries_view(entries: Seq<(File, GroupEntry)>) -> Seq<(FileView, GroupEntryView)> {
    entries.map_values(|e: (File, GroupEntry)| (e.0@, e.1@))
}

/// The message of a missing backup group.
pub open spec fn missing_group_message() -> Seq<char> {
    "The backup group doesn't exist"@
}

/// The message of a pattern that does not compile.
pub open spec fn invalid_pattern_message() -> Seq<char> {
    "Invalid backup name pattern"@
}

/// `s` without the prefix, if it has it.
pub fn strip_prefix_chars(s: &[char], prefix: &[char]) -> (r: Option<Vec<char>>)
    ensures
        r is Some <==> prefix@.is_prefix_of(s@),
        r matches Some(v) ==> v@ == s@.skip(prefix@.len() as int),
{
    if prefix.len() > s.len() {
        return None;
    }
    let mut i: usize = 0;
    while i < prefix.len()
        invariant
            i <= prefix@.len() <= s@.len(),
            forall|j: int| 0 <= j < i ==> prefix@[j] == s@[j],
        decreases prefix@.len() - i,
    {
        if prefix[i] != s[i] {
            return None;
        }
        i += 1;
    }
    assert(prefix@ =~= s@.take(prefix@.len() as int));
    Some(crate::text::sub_vec(s, prefix.len(), s.len()))
}

/// What a file of a backup group is (`None` if the backup name pattern does not compile).
pub fn classify_entry(file: &File, traits: &BackupTraits) -> (r: Option<GroupEntry>)
    ensures
        r is Some <==> regex_compiles(traits.name_regex@),
        r matches Some(e) ==> e@ == entry_spec(file@, traits.file_type, traits.temporary_prefix@, traits.name_regex@),
        r matches Some(e) ==> name_is_stripped((file@, e@), traits.temporary_prefix@, traits.name_regex@),
{
    let name = chars_of(file.name.as_str());
    let prefix = chars_of(traits.temporary_prefix);
    let (stripped, temporary) = match strip_prefix_chars(name.as_slice(), prefix.as_slice()) {
        Some(rest) => (crate::text::string_of(rest.as_slice()), true),
        None => (crate::text::string_of(name.as_slice()), false),
    };
    let found = match traits.backup_name_in(stripped.as_str()) {
        Some(found) => found,
        None => return None,
    };
    let same_type = match (file.type_, traits.file_type) {
        (FileType::File, FileType::File) => true,
        (FileType::Directory, FileType::Directory) => true,
        (FileType::Other, FileType::Other) => true,
        _ => false,
    };
    match found {
        Some(backup_name) => if same_type {
            Some(GroupEntry::Backup { name: backup_name, temporary })
        } else {
            Some(GroupEntry::Unexpected)
        },
        None => if name.len() > 0 && name[0] == '.' {
            Some(GroupEntry::Hidden)
        } else {
            Some(GroupEntry::Unexpected)
        },
    }
}

/// The files of a backup group's directory (as `list_directory` returned them), sorted by
/// name and classified.
pub fn entries_from_listing(listing: Result<Option<Vec<File>>, String>, traits: &BackupTraits) -> (r: Result<Vec<(File, GroupEntry)>, String>)
    ensures
        listing matches Err(e) ==> r == Err::<Vec<(File, GroupEntry)>, String>(e),
        listing matches Ok(None) ==> (r matches Err(e) && e@ == missing_group_message()),
        listing matches Ok(Some(files)) ==> if regex_compiles(traits.name_regex@) {
            r matches Ok(entries) && valid_entries(entries_view(entries@), traits.file_type, traits.temporary_prefix@, traits.name_regex@)
                && entries_view(entries@).map_values(|e: (FileView, GroupEntryView)| e.0).to_multiset()
                    == files_view(files@).to_multiset()
        } else {
            r matches Err(e) && e@ == invalid_pattern_message()
        },
{
    let files = match listing {
        Err(e) => return Err(e),
        Ok(None) => return Err(String::from_str("The backup group doesn't exist")),
        Ok(Some(files)) => files,
    };
    if traits.backup_name_in("").is_none() {
        return Err(String::from_str("Invalid backup name pattern"));
    }
    let sorted = sort_files(files);
    let ghost sorted_view = files_view(sorted@);
    let mut rest = sorted;
    let mut reversed: Vec<(File, GroupEntry)> = Vec::new();
    while rest.len() > 0
        invariant
            sorted_view == files_view(rest@) + entries_view(reversed@).reverse().map_values(|e: (FileView, GroupEntryView)| e.0),
            regex_compiles(traits.name_regex@),
            forall|j: int| 0 <= j < reversed@.len() ==> (#[trigger] entries_view(reversed@)[j]).1
                == entry_spec(entries_view(reversed@)[j].0, traits.file_type, traits.temporary_prefix@, traits.name_regex@),
            forall|j: int| 0 <= j < reversed@.len() ==> name_is_stripped(#[trigger] entries_view(reversed@)[j], traits.temporary_prefix@, traits.name_regex@),
        decreases rest@.len(),
    {
        let f = rest.pop().unwrap();
        let entry = match classify_entry(&f, traits) {
            Some(e) => e,
            None => return Err(String::from_str("Invalid backup name pattern")),
        };
        let ghost before = entries_view(reversed@);
        reversed.push((f, entry));
        proof {
            assert(entries_view(reversed@) =~= before.push((f@, entry@)));
            assert(entries_view(reversed@).reverse() =~= seq![(f@, entry@)] + before.reverse());
        }
    }
    let mut entries: Vec<(File, GroupEntry)> = Vec::new();
    while reversed.len() > 0
        invariant
            sorted_view == entries_view(entries@).map_values(|e: (FileView, GroupEntryView)| e.0)
                + entries_view(reversed@).reverse().map_values(|e: (FileView, GroupEntryView)| e.0),
            forall|j: int| 0 <= j < reversed@.len() ==> (#[trigger] entries_view(reversed@)[j]).1
                == entry_spec(entries_view(reversed@)[j].0, traits.file_type, traits.temporary_prefix@, traits.name_regex@),
            forall|j: int| 0 <= j < entries@.len() ==> (#[trigger] entries_view(entries@)[j]).1
                == entry_spec(entries_view(entries@)[j].0, traits.file_type, traits.temporary_prefix@, traits.name_regex@),
            forall|j: int| 0 <= j < reversed@.len() ==> name_is_stripped(#[trigger] entries_view(reversed@)[j], traits.temporary_prefix@, traits.name_regex@),
            forall|j: int| 0 <= j < entries@.len() ==> name_is_stripped(#[trigger] entries_view(entries@)[j], traits.temporary_prefix@, traits.name_regex@),
        decreases reversed@.len(),
    {
        let ghost before_rev = entries_view(reversed@);
        let ghost before = entries_view(entries@);
        let e = reversed.pop().unwrap();
        entries.push(e);
        proof {
            assert(entries_view(reversed@) =~= before_rev.drop_last());
            assert(entries_view(entries@) =~= before.push(before_rev.last()));
            assert(before_rev.reverse() =~= seq![before_rev.last()] + entries_view(reversed@).reverse());
            assert(entries_view(entries@)[before.len() as int] == before_rev[before_rev.len() - 1]);
        }
    }
    proof {
        let ev = entries_view(entries@);
        let fs = ev.map_values(|e: (FileView, GroupEntryView)| e.0);
        assert(fs =~= sorted_view);
        assert(ev =~= entries_spec(fs, traits.file_type, traits.temporary_prefix@, traits.name_regex@));
    }
    Ok(entries)
}

/// A backup group: its backups in the order of their names, and the temporary backups
/// that it holds.
pub struct BackupGroup {
    pub name: String,
    pub backups: Vec<Backup>,
    pub temporary_backups: Vec<Backup>,
}

/// The paths and names of some backups.
pub open spec fn path_names(backups: Seq<Backup>) -> Seq<(Seq<char>, Seq<char>)> {
    backups.map_values(|b: Backup| (b@.path, b@.name))
}

/// Whether some backups are as `Backup::new` makes them, with nothing known of them.
pub open spec fn all_bare(backups: Seq<Backup>) -> bool {
    forall|j: int| 0 <= j < backups.len() ==> {
        &&& (#[trigger] backups[j])@.metadata_path is None
        &&& backups[j]@.inner_stat is None
        &&& backups[j]@.outer_stat is None
    }
}

/// The part of a backup name before its first dash: the day that it was made on.
pub open spec fn first_name_part(name: Seq<char>) -> Seq<char> {
    name.take(first_index_of(name, '-'))
}

/// What reading a backup group finds.
pub struct GroupOutcome {
    /// The paths and names of the backups that could be read.
    pub backups: Seq<(Seq<char>, Seq<char>)>,
    /// The paths and names of the temporary backups.
    pub temporaries: Seq<(Seq<char>, Seq<char>)>,
    /// Whether nothing unexpected was found.
    pub ok: bool,
    pub seen_backup: bool,
    /// Whether a backup could not be read in a strict reading.
    pub failed: bool,
    /// The error of a strict reading that failed.
    pub error: Seq<char>,
}

/// Reading a backup group from its classified files, given whether reading each backup
/// succeeded: hidden files are skipped, unexpected ones spoil the group, temporary backups
/// are kept aside; the first backup must be of the group's day; a backup that can not be
/// read fails a strict reading (with the reading's error) and spoils the group otherwise.
pub open spec fn group_outcome(
    entries: Seq<(FileView, GroupEntryView)>,
    reads: Seq<Result<(), Seq<char>>>,
    name: Seq<char>,
    path: Seq<char>,
    strict: bool,
) -> GroupOutcome
    decreases entries.len(),
{
    if entries.len() == 0 {
        GroupOutcome { backups: seq![], temporaries: seq![], ok: true, seen_backup: false, failed: false, error: seq![] }
    } else {
        let o = group_outcome(entries.drop_last(), reads.take(entries.len() - 1), name, path, strict);
        let (f, e) = entries.last();
        let read = reads[entries.len() - 1];
        if o.failed {
            o
        } else {
            match e {
                GroupEntryView::Hidden => o,
                GroupEntryView::Unexpected => GroupOutcome { ok: false, ..o },
                GroupEntryView::Backup { name: n, temporary } => {
                    let p = path + "/"@ + f.name;
                    if temporary {
                        GroupOutcome { temporaries: o.temporaries.push((p, n)), ..o }
                    } else {
                        let suspicious = !o.seen_backup && first_name_part(n) != name;
                        let ok = o.ok && !suspicious;
                        match read {
                            Ok(()) => GroupOutcome { backups: o.backups.push((p, n)), ok, seen_backup: true, ..o },
                            Err(e) => if strict {
                                GroupOutcome {
                                    failed: true,
                                    ok,
                                    seen_backup: true,
                                    error: "Error while reading "@ + debug_quoted(p) + " backup: "@ + e,
                                    ..o
                                }
                            } else {
                                GroupOutcome { ok: false, seen_backup: true, ..o }
                            },
                        }
                    }
                },
            }
        }
    }
}

/// Whether a group holds what a reading found.
pub open spec fn group_holds(g: BackupGroup, ok: bool, o: GroupOutcome, name: Seq<char>) -> bool {
    &&& g.name@ == name
    &&& path_names(g.backups@) == o.backups
    &&& path_names(g.temporary_backups@) == o.temporaries
    &&& all_bare(g.temporary_backups@)
    &&& ok == o.ok
}

/// What reading the backups of a group gave, one per classified file: `None` for a file
/// that was not read.
pub open spec fn read_results(reads: Seq<Option<Result<Backup, String>>>) -> Seq<Result<(), Seq<char>>> {
    reads.map_values(|r: Option<Result<Backup, String>>| match r {
        Some(Err(e)) => Err(e@),
        _ => Ok(()),
    })
}

/// The backups that could be read, in order.
pub open spec fn read_backups(reads: Seq<Option<Result<Backup, String>>>) -> Seq<Backup>
    decreases reads.len(),
{
    if reads.len() == 0 {
        seq![]
    } else {
        let rest = read_backups(reads.drop_last());
        match reads.last() {
            Some(Ok(b)) => rest.push(b),
            _ => rest,
        }
    }
}

/// Whether a reading before the `k`-th file failed.
pub open spec fn failed_before(reads: Seq<Option<Result<Backup, String>>>, k: int) -> bool {
    exists|j: int| 0 <= j < k && #[trigger] reads[j] matches Some(Err(_))
}

/// Whether a classified file is a backup (not a temporary one).
pub open spec fn is_backup_entry(e: GroupEntryView) -> bool {
    e matches GroupEntryView::Backup { temporary, .. } && !temporary
}

/// Whether the readings fit the classified files of the group at `path`: the backups (not
/// the temporary ones) are read, in order, up to the first failure of a strict reading;
/// nothing else is; a backup read is that of its file.
pub open spec fn reads_fit(
    entries: Seq<(FileView, GroupEntryView)>,
    reads: Seq<Option<Result<Backup, String>>>,
    path: Seq<char>,
    strict: bool,
) -> bool {
    forall|k: int| 0 <= k < reads.len() ==> {
        &&& (#[trigger] reads[k] is Some) == (is_backup_entry(entries[k].1) && !(strict && failed_before(reads, k)))
        &&& reads[k] matches Some(Ok(b)) ==> entries[k].1 matches GroupEntryView::Backup { name: n, .. }
            && backup_read_as(b@, path + "/"@ + entries[k].0.name, n, entries[k].0.type_ != FileType::Directory)
        &&& reads[k] matches Some(Err(_)) ==> entries[k].0.type_ == FileType::Directory
    }
}

/// Whether a group, and whether nothing was wrong with it, are what reading the group of
/// the given name at `path` gave: for the classified files of some sorted listing (as
/// `entries_from_listing` gives them for a provider of kind `t`) and some readings of its
/// backups that fit them (see `reads_fit`), the group is what `group_outcome` makes of
/// them and its backups are those read (see `BackupGroup::from_entries`), in the order of
/// their names (strictly where no two files of the listing have the same name).
pub open spec fn read_group_as(g: BackupGroup, ok: bool, name: Seq<char>, path: Seq<char>, strict: bool, t: ProviderType) -> bool {
    exists|entries: Seq<(FileView, GroupEntryView)>, reads: Seq<Option<Result<Backup, String>>>|
        #![trigger valid_entries(entries, backup_file_type(t), "."@, backup_name_pattern(t)), group_outcome(entries, read_results(reads), name, path, strict)]
        {
            &&& valid_entries(entries, backup_file_type(t), "."@, backup_name_pattern(t))
            &&& reads.len() == entries.len()
            &&& reads_fit(entries, reads, path, strict)
            &&& !group_outcome(entries, read_results(reads), name, path, strict).failed
            &&& group_holds(g, ok, group_outcome(entries, read_results(reads), name, path, strict), name)
            &&& g.backups@ == read_backups(reads)
            &&& backup_names_in_order(g.backups@, distinct_file_names(entries))
        }
}

/// Whether groups are what reading each of them (leniently) under the backup root at
/// `path` gave, with whether nothing was wrong with each.
pub open spec fn listed_groups(groups: Seq<BackupGroup>, oks: Seq<bool>, path: Seq<char>, t: ProviderType) -> bool {
    &&& oks.len() == groups.len()
    &&& forall|i: int| 0 <= i < groups.len()
        ==> read_group_as(#[trigger] groups[i], oks[i], groups[i].name@, path + "/"@ + groups[i].name@, false, t)
}

/// Whether all of some flags are set.
pub open spec fn all_true(oks: Seq<bool>) -> bool {
    forall|i: int| 0 <= i < oks.len() ==> #[trigger] oks[i]
}

/// The message of a missing backup root.
pub open spec fn missing_root_message(path: Seq<char>) -> Seq<char> {
    debug_quoted(path) + " backup root doesn't exist"@
}

/// The files of a backup root (as `list_directory` returned them), sorted by name.
pub fn root_files(listing: Result<Option<Vec<File>>, String>, path: &str) -> (r: Result<Vec<File>, String>)
    ensures
        listing matches Err(e) ==> r == Err::<Vec<File>, String>(e),
        listing matches Ok(None) ==> (r matches Err(e) && e@ == missing_root_message(path@)),
        listing matches Ok(Some(files)) ==> (r matches Ok(sorted) && names_sorted(files_view(sorted@))
            && files_view(sorted@).to_multiset() == files_view(files@).to_multiset()),
{
    match listing {
        Err(e) => Err(e),
        Ok(None) => {
            let mut m = debug_str(path);
            m.append(" backup root doesn't exist");
            Err(m)
        },
        Ok(Some(files)) => Ok(sort_files(files)),
    }
}

/// Once a strict reading of a group has failed, the rest of its files change nothing.
proof fn lemma_failure_sticks(
    entries: Seq<(FileView, GroupEntryView)>,
    reads: Seq<Result<(), Seq<char>>>,
    name: Seq<char>,
    path: Seq<char>,
    strict: bool,
    k: int,
)
    requires
        0 <= k <= entries.len(),
        reads.len() == entries.len(),
        group_outcome(entries.take(k), reads.take(k), name, path, strict).failed,
    ensures
        group_outcome(entries, reads, name, path, strict) == group_outcome(entries.take(k), reads.take(k), name, path, strict),
    decreases entries.len() - k,
{
    if k < entries.len() {
        let e1 = entries.take(k + 1);
        let r1 = reads.take(k + 1);
        assert(e1.drop_last() =~= entries.take(k));
        assert(r1.take(k) =~= reads.take(k));
        lemma_failure_sticks(entries, reads, name, path, strict, k + 1);
    } else {
        assert(entries.take(k) =~= entries);
        assert(reads.take(k) =~= reads);
    }
}

/// Whether the files up to the `i`-th hold an unexpected one: those before it, or it.
proof fn lemma_unexpected_step(files: Seq<FileView>, i: int)
    requires
        0 <= i < files.len(),
    ensures
        has_unexpected(files.take(i + 1), group_name_pattern()) == (has_unexpected(files.take(i), group_name_pattern())
            || root_entry_spec(files[i], group_name_pattern()) is Unexpected),
{
    let a = files.take(i + 1);
    let b = files.take(i);
    assert(a[i] == files[i]);
    if has_unexpected(a, group_name_pattern()) {
        let j = choose|j: int| 0 <= j < a.len() && root_entry_spec(#[trigger] a[j], group_name_pattern()) is Unexpected;
        if j < i {
            assert(a[j] == b[j]);
        }
    }
    if has_unexpected(b, group_name_pattern()) {
        let j = choose|j: int| 0 <= j < b.len() && root_entry_spec(#[trigger] b[j], group_name_pattern()) is Unexpected;
        assert(a[j] == b[j]);
    }
}

/// Adds a record to a log.
fn add_record(log: &mut Vec<LogRecord>, level: Level, message: String)
    ensures
        extends(final(log)@, old(log)@),
        final(log)@.len() == old(log)@.len() + 1,
{
    let ghost before = log@;
    crate::logging::log(log, level, message);
    assert forall|j: int| 0 <= j < before.len() implies #[trigger] log@[j] == before[j] by {
        assert(log@.drop_last()[j] == log@[j]);
    }
}

/// Whether the first part (up to the first dash) of a backup name is the group's name.
fn first_part_is(backup_name: &str, group_name: &str) -> (r: bool)
    ensures
        r == (first_name_part(backup_name@) == group_name@),
{
    let chars = chars_of(backup_name);
    let end = crate::text::find_char(chars.as_slice(), 0, '-');
    assert(chars@.skip(0) =~= chars@);
    let part = crate::text::sub_vec(chars.as_slice(), 0, end);
    let group = chars_of(group_name);
    crate::text::chars_eq(part.as_slice(), group.as_slice())
}

impl BackupGroup {
    /// An empty backup group.
    pub fn new(name: &str) -> (r: BackupGroup)
        ensures
            r.name@ == name@,
            r.backups@.len() == 0,
            r.temporary_backups@.len() == 0,
    {
        BackupGroup { name: String::from_str(name), backups: Vec::new(), temporary_backups: Vec::new() }
    }

    /// Reads a backup group from its directory: its backups (that can be read) in the order
    /// of their names, and whether nothing was wrong with it. Problems are logged; with
    /// `strict`, a backup that can not be read fails the reading. The directory's listing
    /// is classified by `entries_from_listing`, its backups are read in order (up to the
    /// first failure of a strict reading), and the group is made of what came back by
    /// `from_entries`.
    pub fn read<P: ReadProvider + ?Sized>(
        provider: &P,
        name: &str,
        path: &str,
        strict: bool,
        log: &mut Vec<LogRecord>,
    ) -> (r: Result<(BackupGroup, bool), String>)
        ensures
            extends(final(log)@, old(log)@),
            r matches Ok((g, ok)) ==> g.name@ == name@ && read_group_as(g, ok, name@, path@, strict, provider.kind()),
    {
        let type_ = provider.type_();
        let traits = BackupTraits::get_for(type_);
        let clarification = clarification(provider);
        let entries = match entries_from_listing(provider.list_directory(path), &traits) {
            Ok(entries) => entries,
            Err(e) => {
                return Err(e);
            },
        };
        let ghost ev = entries_view(entries@);
        let mut reads: Vec<Option<Result<Backup, String>>> = Vec::new();
        let mut failed = false;
        let mut i: usize = 0;
        while i < entries.len()
            invariant
                i <= entries@.len(),
                ev == entries_view(entries@),
                reads@.len() == i,
                failed == failed_before(reads@, i as int),
                reads_fit(ev, reads@, path@, strict),
            decreases entries@.len() - i,
        {
            let ghost reads0 = reads@;
            let file = &entries[i].0;
            proof {
                assert(ev[i as int] == (entries@[i as int].0@, entries@[i as int].1@));
            }
            let read = match &entries[i].1 {
                GroupEntry::Backup { name: backup_name, temporary } => {
                    if !*temporary && !(strict && failed) {
                        let backup_path = slash_join(path, file.name.as_str());
                        let archive = match file.type_ {
                            FileType::Directory => false,
                            _ => true,
                        };
                        let result = Backup::read(provider, backup_name.as_str(), backup_path.as_str(), archive);
                        if result.is_err() {
                            failed = true;
                        }
                        Some(result)
                    } else {
                        None
                    }
                },
                _ => None,
            };
            reads.push(read);
            proof {
                assert forall|j: int| 0 <= j < i implies #[trigger] reads@[j] == reads0[j] by {}
                assert(reads@[i as int] == read);
                assert(failed == failed_before(reads@, i + 1)) by {
                    if read matches Some(Err(_)) {
                        assert(reads@[i as int] matches Some(Err(_)));
                    }
                    if failed_before(reads@, i + 1) && !failed_before(reads0, i as int) {
                        let j = choose|j: int| 0 <= j < i + 1 && #[trigger] reads@[j] matches Some(Err(_));
                        if j < i {
                            assert(reads0[j] == reads@[j]);
                        }
                    }
                    if failed_before(reads0, i as int) {
                        let j = choose|j: int| 0 <= j < i && #[trigger] reads0[j] matches Some(Err(_));
                        assert(reads@[j] == reads0[j]);
                    }
                }
                assert forall|k: int| 0 <= k < reads@.len() implies {
                    &&& (#[trigger] reads@[k] is Some) == (is_backup_entry(ev[k].1) && !(strict && failed_before(reads@, k)))
                    &&& reads@[k] matches Some(Ok(b)) ==> ev[k].1 matches GroupEntryView::Backup { name: n, .. }
                        && backup_read_as(b@, path@ + "/"@ + ev[k].0.name, n, ev[k].0.type_ != FileType::Directory)
                &&& reads@[k] matches Some(Err(_)) ==> ev[k].0.type_ == FileType::Directory
                } by {
                    if k < i {
                        assert(reads@[k] == reads0[k]);
                        assert(failed_before(reads@, k) == failed_before(reads0, k)) by {
                            if failed_before(reads@, k) {
                                let j = choose|j: int| 0 <= j < k && #[trigger] reads@[j] matches Some(Err(_));
                                assert(reads0[j] == reads@[j]);
                            }
                            if failed_before(reads0, k) {
                                let j = choose|j: int| 0 <= j < k && #[trigger] reads0[j] matches Some(Err(_));
                                assert(reads@[j] == reads0[j]);
                            }
                        }
                    }
                }
            }
            i += 1;
        }
        let r = BackupGroup::from_entries(name, path, strict, clarification.as_str(), &entries, reads, log);
        proof {
            assert(valid_entries(ev, backup_file_type(type_), "."@, backup_name_pattern(type_)));
            let rr = read_results(reads@);
            assert(group_outcome(ev, rr, name@, path@, strict) == group_outcome(ev, rr, name@, path@, strict));
            lemma_own_names(ev, backup_file_type(type_), backup_name_pattern(type_));
            let files = ev.map_values(|e: (FileView, GroupEntryView)| e.0);
            assert forall|i: int, j: int| 0 <= i < j < ev.len() implies chars_le((#[trigger] ev[i]).0.name, (#[trigger] ev[j]).0.name) by {
                assert(files[i] == ev[i].0 && files[j] == ev[j].0);
            }
            lemma_outcome_names_in_order(ev, rr, name@, path@, strict);
            if r is Ok {
                let g = r->Ok_0.0;
                let o = group_outcome(ev, rr, name@, path@, strict);
                assert forall|i: int, j: int| 0 <= i < j < g.backups@.len() implies {
                    &&& chars_le((#[trigger] g.backups@[i])@.name, (#[trigger] g.backups@[j])@.name)
                    &&& distinct_file_names(ev) ==> g.backups@[i]@.name != g.backups@[j]@.name
                } by {
                    assert(path_names(g.backups@)[i] == o.backups[i]);
                    assert(path_names(g.backups@)[j] == o.backups[j]);
                }
            }
        }
        r
    }

    /// Makes a backup group of its classified files (as `entries_from_listing` gives them)
    /// and of what reading its backups gave (see `reads_fit`): hidden files are skipped,
    /// unexpected ones and temporary backups are logged, the first backup must be of the
    /// group's day, and a backup that could not be read fails a strict reading (with the
    /// reading's error) and is logged and left out otherwise (see `group_outcome`). The
    /// group's backups are those that could be read.
    pub fn from_entries(
        name: &str,
        path: &str,
        strict: bool,
        clarification: &str,
        entries: &Vec<(File, GroupEntry)>,
        reads: Vec<Option<Result<Backup, String>>>,
        log: &mut Vec<LogRecord>,
    ) -> (r: Result<(BackupGroup, bool), String>)
        requires
            reads@.len() == entries@.len(),
            reads_fit(entries_view(entries@), reads@, path@, strict),
        ensures
            extends(final(log)@, old(log)@),
            ({
                let o = group_outcome(entries_view(entries@), read_results(reads@), name@, path@, strict);
                &&& o.failed ==> (r matches Err(e) && e@ == o.error)
                &&& !o.failed ==> (r matches Ok((g, ok)) && group_holds(g, ok, o, name@) && g.backups@ == read_backups(reads@))
            }),
    {
        let ghost ev = entries_view(entries@);
        let ghost rr = read_results(reads@);
        let ghost all_reads = reads@;
        let ghost log0 = log@;
        let mut rest = reads;
        let mut group = BackupGroup::new(name);
        assert(path_names(group.backups@) =~= seq![]);
        assert(path_names(group.temporary_backups@) =~= seq![]);
        let mut ok = true;
        let mut first_backup = true;
        let mut i: usize = 0;
        assert(ev.take(0) =~= Seq::<(FileView, GroupEntryView)>::empty());
        assert(rr.take(0) =~= Seq::<Result<(), Seq<char>>>::empty());
        assert(all_reads.skip(0) =~= all_reads);
        assert(all_reads.take(0) =~= Seq::<Option<Result<Backup, String>>>::empty());
        while i < entries.len()
            invariant
                i <= entries@.len(),
                ev == entries_view(entries@),
                all_reads.len() == entries@.len(),
                all_reads == reads@,
                rr == read_results(all_reads),
                rest@ == all_reads.skip(i as int),
                reads_fit(ev, all_reads, path@, strict),
                !failed_before(all_reads, i as int) || !strict,
                extends(log@, log0),
                old(log)@ == log0,
                group.backups@ == read_backups(all_reads.take(i as int)),
                ({
                    let o = group_outcome(ev.take(i as int), rr.take(i as int), name@, path@, strict);
                    &&& !o.failed
                    &&& group_holds(group, ok, o, name@)
                    &&& first_backup == !o.seen_backup
                }),
            decreases entries@.len() - i,
        {
            let ghost rest0 = rest@;
            let ghost backups0 = group.backups@;
            let read = rest.remove(0);
            let file = &entries[i].0;
            proof {
                assert(rest0[0] == all_reads[i as int]);
                assert(rest@ =~= all_reads.skip(i + 1));
                assert(ev.take(i + 1).drop_last() =~= ev.take(i as int));
                assert(ev.take(i + 1).last() == ev[i as int]);
                assert(rr.take(i + 1).take(i as int) =~= rr.take(i as int));
                assert(rr.take(i + 1)[i as int] == rr[i as int]);
                assert(ev[i as int] == (entries@[i as int].0@, entries@[i as int].1@));
                assert(all_reads.take(i + 1).drop_last() =~= all_reads.take(i as int));
                assert(all_reads.take(i + 1).last() == all_reads[i as int]);
            }
            match &entries[i].1 {
                GroupEntry::Hidden => {},
                GroupEntry::Unexpected => {
                    let mut m = debug_str(path);
                    m.append(" backup group");
                    m.append(clarification);
                    m.append(" contains an unexpected ");
                    m.append(file.type_.display_name());
                    m.append(": ");
                    m.append(debug_str(file.name.as_str()).as_str());
                    m.append(".");
                    add_record(log, Level::Error, m);
                    ok = false;
                },
                GroupEntry::Backup { name: backup_name, temporary } => {
                    let backup_path = slash_join(path, file.name.as_str());
                    if *temporary {
                        let mut m = debug_str(path);
                        m.append(" backup group");
                        m.append(clarification);
                        m.append(" contains a temporary ");
                        m.append(debug_str(backup_name.as_str()).as_str());
                        m.append(" backup.");
                        add_record(log, Level::Warn, m);
                        let ghost temps = group.temporary_backups@;
                        group.temporary_backups.push(Backup::new(backup_path.as_str(), backup_name.as_str()));
                        proof {
                            assert(path_names(group.temporary_backups@) =~= path_names(temps).push((backup_path@, backup_name@)));
                        }
                    } else {
                        if first_backup {
                            first_backup = false;
                            if !first_part_is(backup_name.as_str(), group.name.as_str()) {
                                let mut m = String::from_str("Suspicious first backup ");
                                m.append(debug_str(backup_name.as_str()).as_str());
                                m.append(" in ");
                                m.append(debug_str(group.name.as_str()).as_str());
                                m.append(" group");
                                m.append(clarification);
                                m.append(": possibly corrupted backup group.");
                                add_record(log, Level::Error, m);
                                ok = false;
                            }
                        }
                        match read {
                            Some(Ok(backup)) => {
                                let ghost bs = group.backups@;
                                group.backups.push(backup);
                                proof {
                                    assert(path_names(group.backups@) =~= path_names(bs).push((backup_path@, backup_name@)));
                                }
                            },
                            Some(Err(e)) => {
                                if strict {
                                    let mut m = String::from_str("Error while reading ");
                                    m.append(debug_str(backup_path.as_str()).as_str());
                                    m.append(" backup: ");
                                    m.append(e.as_str());
                                    proof {
                                        assert(rr[i as int] == Err::<(), Seq<char>>(e@));
                                        let o1 = group_outcome(ev.take(i + 1), rr.take(i + 1), name@, path@, strict);
                                        assert(o1.failed);
                                        assert(o1.error =~= m@);
                                        lemma_failure_sticks(ev, rr, name@, path@, strict, i + 1);
                                    }
                                    return Err(m);
                                }
                                let mut m = debug_str(backup_path.as_str());
                                m.append(" backup");
                                m.append(clarification);
                                m.append(" reading error: ");
                                m.append(e.as_str());
                                m.append(".");
                                add_record(log, Level::Error, m);
                                ok = false;
                            },
                            None => {
                                proof {
                                    assert(false);
                                }
                            },
                        }
                    }
                },
            }
            proof {
                if strict && failed_before(all_reads, i + 1) {
                    let j = choose|j: int| 0 <= j < i + 1 && #[trigger] all_reads[j] matches Some(Err(_));
                    assert(j == i);
                }
            }
            i += 1;
        }
        assert(ev.take(i as int) =~= ev);
        assert(rr.take(i as int) =~= rr);
        assert(all_reads.take(i as int) =~= all_reads);
        Ok((group, ok))
    }
}

/// What a file of the backup root is.
pub enum RootEntryView {
    Hidden,
    Unexpected,
    Group,
}

/// What a file of the backup root is: hidden files are skipped; a group is a directory
/// whose name matches the group name pattern.
pub open spec fn root_entry_spec(f: FileView, pattern: Seq<char>) -> RootEntryView {
    if is_hidden(f.name) {
        RootEntryView::Hidden
    } else if f.type_ == FileType::Directory && regex_is_match(pattern, f.name) {
        RootEntryView::Group
    } else {
        RootEntryView::Unexpected
    }
}

/// The names of the backup groups among the files of the backup root, in their order.
pub open spec fn group_names(files: Seq<FileView>, pattern: Seq<char>) -> Seq<Seq<char>>
    decreases files.len(),
{
    if files.len() == 0 {
        seq![]
    } else {
        let names = group_names(files.drop_last(), pattern);
        match root_entry_spec(files.last(), pattern) {
            RootEntryView::Group => names.push(files.last().name),
            _ => names,
        }
    }
}

/// Whether the backup root holds a file that has no place there.
pub open spec fn has_unexpected(files: Seq<FileView>, pattern: Seq<char>) -> bool {
    exists|j: int| 0 <= j < files.len() && root_entry_spec(#[trigger] files[j], pattern) is Unexpected
}

/// The names of some backup groups.
pub open spec fn names_of(groups: Seq<BackupGroup>) -> Seq<Seq<char>> {
    groups.map_values(|g: BackupGroup| g.name@)
}

impl BackupGroup {
    /// Lists the backup groups of a backup root, in the order of their names, reading each
    /// of them; and whether nothing was wrong with them. Problems are logged.
    pub fn list<P: ReadProvider + ?Sized>(
        provider: &P,
        path: &str,
        log: &mut Vec<LogRecord>,
    ) -> (r: Result<(Vec<BackupGroup>, bool), String>)
        ensures
            extends(final(log)@, old(log)@),
            r matches Ok((groups, ok)) ==> exists|files: Seq<FileView>, oks: Seq<bool>|
                #![trigger group_names(files, group_name_pattern()), listed_groups(groups@, oks, path@, provider.kind())]
                {
                    &&& names_sorted(files)
                    &&& names_of(groups@) == group_names(files, group_name_pattern())
                    &&& listed_groups(groups@, oks, path@, provider.kind())
                    &&& ok == (!has_unexpected(files, group_name_pattern()) && all_true(oks))
                },
    {
        let traits = BackupTraits::get_for(provider.type_());
        let clarification = clarification(provider);
        let files = match root_files(provider.list_directory(path), path) {
            Ok(files) => files,
            Err(e) => return Err(e),
        };
        let ghost fv = files_view(files@);
        let ghost log0 = log@;
        let mut groups: Vec<BackupGroup> = Vec::new();
        let mut ok = true;
        let mut unexpected = false;
        let ghost mut oks: Seq<bool> = seq![];
        let mut i: usize = 0;
        while i < files.len()
            invariant
                i <= files@.len(),
                fv == files_view(files@),
                traits.group_name_regex@ == group_name_pattern(),
                extends(log@, log0),
                old(log)@ == log0,
                names_of(groups@) == group_names(fv.take(i as int), group_name_pattern()),
                unexpected == has_unexpected(fv.take(i as int), group_name_pattern()),
                listed_groups(groups@, oks, path@, provider.kind()),
                ok == (!unexpected && all_true(oks)),
            decreases files@.len() - i,
        {
            let file = &files[i];
            let ghost before = names_of(groups@);
            let ghost groups0 = groups@;
            let ghost oks0 = oks;
            proof {
                assert(fv.take(i + 1).drop_last() =~= fv.take(i as int));
                assert(fv.take(i + 1).last() == file@);
            }
            let name = chars_of(file.name.as_str());
            if name.len() > 0 && name[0] == '.' {
                proof {
                    lemma_unexpected_step(fv, i as int);
                }
                i += 1;
                continue;
            }
            let is_directory = match file.type_ {
                FileType::Directory => true,
                _ => false,
            };
            let is_group_name = match traits.is_group_name(file.name.as_str()) {
                Some(b) => b,
                None => return Err(String::from_str("Invalid backup group name pattern")),
            };
            if !is_directory || !is_group_name {
                let mut m = debug_str(path);
                m.append(" backup root");
                m.append(clarification.as_str());
                m.append(" contains an unexpected ");
                m.append(file.type_.display_name());
                m.append(": ");
                m.append(debug_str(file.name.as_str()).as_str());
                m.append(".");
                add_record(log, Level::Error, m);
                ok = false;
                unexpected = true;
                proof {
                    lemma_unexpected_step(fv, i as int);
                    assert(root_entry_spec(fv.take(i + 1)[i as int], group_name_pattern()) is Unexpected);
                }
                i += 1;
                continue;
            }
            let group_path = slash_join(path, file.name.as_str());
            let ghost log1 = log@;
            let (group, group_ok) = match BackupGroup::read(provider, file.name.as_str(), group_path.as_str(), false, log) {
                Ok(r) => r,
                Err(e) => {
                    let mut m = String::from_str("Unable to list ");
                    m.append(debug_str(group_path.as_str()).as_str());
                    m.append(" backup group: ");
                    m.append(e.as_str());
                    return Err(m);
                },
            };
            ok = ok && group_ok;
            let ghost g = group;
            groups.push(group);
            proof {
                oks = oks.push(group_ok);
                assert(names_of(groups@) =~= before.push(file.name@));
                lemma_unexpected_step(fv, i as int);
                assert(g.name@ == file.name@);
                assert(read_group_as(g, group_ok, g.name@, path@ + "/"@ + g.name@, false, provider.kind()));
                assert forall|k: int| 0 <= k < groups@.len()
                    implies read_group_as(#[trigger] groups@[k], oks[k], groups@[k].name@, path@ + "/"@ + groups@[k].name@, false, provider.kind()) by {
                    if k < groups0.len() {
                        assert(groups@[k] == groups0[k]);
                        assert(oks[k] == oks0[k]);
                    }
                }
                assert(all_true(oks) == (all_true(oks0) && group_ok)) by {
                    if all_true(oks0) && group_ok {
                        assert forall|k: int| 0 <= k < oks.len() implies #[trigger] oks[k] by {
                            if k < oks0.len() {
                                assert(oks[k] == oks0[k]);
                            }
                        }
                    }
                    if all_true(oks) {
                        assert(oks[oks0.len() as int]);
                        assert forall|k: int| 0 <= k < oks0.len() implies #[trigger] oks0[k] by {
                            assert(oks[k] == oks0[k]);
                        }
                    }
                }
            }
            i += 1;
        }
        assert(fv.take(i as int) =~= fv);
        assert(listed_groups(groups@, oks, path@, provider.kind()));
        assert(names_of(groups@) == group_names(fv, group_name_pattern()));
        assert(names_sorted(fv));
        assert(unexpected == has_unexpected(fv, group_name_pattern()));
        assert(ok == (!has_unexpected(fv, group_name_pattern()) && all_true(oks)));
        let r: Result<(Vec<BackupGroup>, bool), String> = Ok((groups, ok));
        proof {
            let (gs, k) = r->Ok_0;
            assert(listed_groups(gs@, oks, path@, provider.kind()));
            assert(names_of(gs@) == group_names(fv, group_name_pattern()));
        }
        r
    }

    /// Inspects the backups of the group in their order (see `Backup::inspect`): whether
    /// each of them can be read and restored. Problems are logged.
    pub fn inspect<P: ReadProvider + ?Sized>(&mut self, provider: &P, log: &mut Vec<LogRecord>) -> (r: bool)
        ensures
            final(self).name@ == old(self).name@,
            path_names(final(self).backups@) == path_names(old(self).backups@),
            final(self).temporary_backups@ == old(self).temporary_backups@,
            extends(final(log)@, old(log)@),
            r ==> forall|i: int| 0 <= i < final(self).backups@.len() ==> (#[trigger] final(self).backups@[i])@.inner_stat is Some,
            exists|outcomes: Seq<Option<bool>>, hashes: Seq<Set<Seq<char>>>|
                #[trigger] inspections(outcomes, old(self).backups@, final(self).backups@, hashes) && r == all_passed(outcomes),
    {
        let clarification = clarification(provider);
        let mut available_hashes = StringHashSet::new();
        let mut rest: Vec<Backup> = Vec::new();
        std::mem::swap(&mut rest, &mut self.backups);
        let ghost original = path_names(rest@);
        let ghost before = rest@;
        let ghost log0 = log@;
        let mut done: Vec<Backup> = Vec::new();
        let mut ok = true;
        let ghost mut outcomes: Seq<Option<bool>> = seq![];
        let ghost mut hashes: Seq<Set<Seq<char>>> = seq![available_hashes@];
        assert(available_hashes@ =~= Set::<Seq<char>>::empty());
        assert(before.skip(0) =~= before);
        while rest.len() > 0
            invariant
                path_names(done@) + path_names(rest@) == original,
                extends(log@, log0),
                ok ==> forall|i: int| 0 <= i < done@.len() ==> (#[trigger] done@[i])@.inner_stat is Some,
                done@.len() + rest@.len() == before.len(),
                rest@ == before.skip(done@.len() as int),
                outcomes.len() == done@.len(),
                ok == all_passed(outcomes),
                hashes.len() == outcomes.len() + 1,
                hashes[0] == Set::<Seq<char>>::empty(),
                hashes.last() == available_hashes@,
                forall|i: int| 0 <= i < outcomes.len() ==> inspected_as(#[trigger] outcomes[i], before[i], done@[i], hashes[i], hashes[i + 1]),
            decreases rest@.len(),
        {
            let ghost rest0 = rest@;
            let ghost done0 = done@;
            let ghost outcomes0 = outcomes;
            let ghost hashes0 = hashes;
            let ghost h_in = available_hashes@;
            let ghost k = done@.len() as int;
            let mut backup = rest.remove(0);
            proof {
                assert(rest0[0] == before[k]);
                assert(rest@ =~= before.skip(k + 1));
            }
            let ghost log1 = log@;
            let ghost outcome: Option<bool>;
            match backup.inspect(provider, &mut available_hashes, log) {
                Ok(recoverable) => {
                    ok = ok && recoverable;
                    proof { outcome = Some(recoverable); }
                },
                Err(e) => {
                    proof { outcome = None; }
                    let mut m = debug_str(backup.path.as_str());
                    m.append(" backup");
                    m.append(clarification.as_str());
                    m.append(" validation error: ");
                    m.append(e.as_str());
                    m.append(".");
                    add_record(log, Level::Error, m);
                    ok = false;
                },
            }
            done.push(backup);
            proof {
                outcomes = outcomes.push(outcome);
                hashes = hashes.push(available_hashes@);
                assert(inspected_as(outcome, before[k], backup, h_in, available_hashes@));
                assert forall|i: int| 0 <= i < outcomes.len() implies inspected_as(#[trigger] outcomes[i], before[i], done@[i], hashes[i], hashes[i + 1]) by {
                    if i < k {
                        assert(outcomes[i] == outcomes0[i]);
                        assert(done@[i] == done0[i]);
                        assert(hashes[i] == hashes0[i]);
                        assert(hashes[i + 1] == hashes0[i + 1]);
                    }
                }
                assert(ok == all_passed(outcomes)) by {
                    if ok {
                        assert forall|i: int| 0 <= i < outcomes.len() implies #[trigger] outcomes[i] == Some(true) by {
                            if i < k {
                                assert(outcomes[i] == outcomes0[i]);
                            }
                        }
                    } else if forall|i: int| 0 <= i < outcomes.len() ==> #[trigger] outcomes[i] == Some(true) {
                        assert(outcomes[k] == Some(true));
                        assert forall|i: int| 0 <= i < outcomes0.len() implies #[trigger] outcomes0[i] == Some(true) by {
                            assert(outcomes[i] == outcomes0[i]);
                        }
                    }
                }
                assert forall|j: int| 0 <= j < log0.len() implies #[trigger] log@[j] == log0[j] by {
                    assert(log1[j] == log0[j]);
                    assert(log1.take(log1.len() as int)[j] == log1[j]);
                }
                assert(path_names(done@) =~= path_names(done0).push((backup@.path, backup@.name)));
                assert(path_names(rest0) =~= seq![(backup@.path, backup@.name)] + path_names(rest@));
            }
        }
        assert(path_names(rest@) =~= seq![]);
        assert(path_names(done@) =~= original);
        self.backups = done;
        assert(inspections(outcomes, before, done@, hashes));
        ok
    }
}

/// Whether all inspections succeeded and found their backup fine.
pub open spec fn all_passed(outcomes: Seq<Option<bool>>) -> bool {
    forall|i: int| 0 <= i < outcomes.len() ==> #[trigger] outcomes[i] == Some(true)
}

/// What inspecting each of some backups gave, in their order (see `inspected_as`): the
/// hashes (in hex) of the data available start empty, and each inspection takes those that
/// the ones before it left.
pub open spec fn inspections(
    outcomes: Seq<Option<bool>>,
    before: Seq<Backup>,
    after: Seq<Backup>,
    hashes: Seq<Set<Seq<char>>>,
) -> bool {
    &&& outcomes.len() == before.len()
    &&& outcomes.len() == after.len()
    &&& hashes.len() == outcomes.len() + 1
    &&& hashes[0] == Set::<Seq<char>>::empty()
    &&& forall|i: int| 0 <= i < outcomes.len() ==> inspected_as(#[trigger] outcomes[i], before[i], after[i], hashes[i], hashes[i + 1])
}

/// What inspecting a backup (see `Backup::inspect`) gave, given the hashes (in hex) of the
/// data available before it and after it: `None` for an error (always for a backup without
/// a metadata file; the backup is then unchanged, and the hashes only grew), or whether
/// the backup has files and all of them can be restored, found from the items of some
/// metadata file and the hashes available before it, with the statistics of the inspected
/// backup and the hashes it leaves.
pub open spec fn inspected_as(
    outcome: Option<bool>,
    before: Backup,
    after: Backup,
    hashes_before: Set<Seq<char>>,
    hashes_after: Set<Seq<char>>,
) -> bool {
    &&& before@.metadata_path is None ==> outcome is None
    &&& outcome is None ==> hashes_before.subset_of(hashes_after) && after@ == before@
    &&& outcome matches Some(b) ==> exists|items: Seq<MetadataItemView>| {
        let o = #[trigger] inspect_spec(items, hashes_before);
        &&& readable_items(items)
        &&& b == ((o.unique_files != 0 || o.extern_files != 0) && o.unrecoverable == 0)
        &&& after@.inner_stat == Some(stat_of(o))
        &&& hashes_after == o.hashes
    }
}


/// Inspecting a group: the hashes of the data available only grow from one backup to the
/// next, and each hash available to a backup was brought by an earlier backup of the group
/// (none is available to the first one).
pub proof fn lemma_group_inspection(
    outcomes: Seq<Option<bool>>,
    before: Seq<Backup>,
    after: Seq<Backup>,
    hashes: Seq<Set<Seq<char>>>,
)
    requires
        inspections(outcomes, before, after, hashes),
    ensures
        forall|i: int, j: int| 0 <= i <= j <= outcomes.len() ==> (#[trigger] hashes[i]).subset_of(#[trigger] hashes[j]),
        forall|i: int, h: Seq<char>| 0 <= i <= outcomes.len() && #[trigger] hashes[i].contains(h)
            ==> exists|j: int| 0 <= j < i && !hashes[j].contains(h) && #[trigger] hashes[j + 1].contains(h),
{
    assert forall|i: int| 0 <= i < outcomes.len() implies (#[trigger] hashes[i]).subset_of(hashes[i + 1]) by {
        assert(inspected_as(outcomes[i], before[i], after[i], hashes[i], hashes[i + 1]));
        if outcomes[i] is Some {
            let items = choose|items: Seq<MetadataItemView>| {
                let o = #[trigger] inspect_spec(items, hashes[i]);
                &&& readable_items(items)
                &&& outcomes[i]->0 == ((o.unique_files != 0 || o.extern_files != 0) && o.unrecoverable == 0)
                &&& after[i]@.inner_stat == Some(stat_of(o))
                &&& hashes[i + 1] == o.hashes
            };
            lemma_inspect_hashes_grow(items, hashes[i]);
        }
    }
    assert forall|i: int, j: int| 0 <= i <= j <= outcomes.len() implies (#[trigger] hashes[i]).subset_of(#[trigger] hashes[j]) by {
        lemma_hashes_grow_from(outcomes, hashes, i, j);
    }
    assert forall|i: int, h: Seq<char>| 0 <= i <= outcomes.len() && #[trigger] hashes[i].contains(h)
        implies exists|j: int| 0 <= j < i && !hashes[j].contains(h) && #[trigger] hashes[j + 1].contains(h) by {
        lemma_hash_brought(hashes, i, h);
    }
}

proof fn lemma_hashes_grow_from(outcomes: Seq<Option<bool>>, hashes: Seq<Set<Seq<char>>>, i: int, j: int)
    requires
        0 <= i <= j <= outcomes.len(),
        hashes.len() == outcomes.len() + 1,
        forall|k: int| 0 <= k < outcomes.len() ==> (#[trigger] hashes[k]).subset_of(hashes[k + 1]),
    ensures
        hashes[i].subset_of(hashes[j]),
    decreases j - i,
{
    if i < j {
        lemma_hashes_grow_from(outcomes, hashes, i + 1, j);
        assert(hashes[i].subset_of(hashes[i + 1]));
    }
}

proof fn lemma_hash_brought(hashes: Seq<Set<Seq<char>>>, i: int, h: Seq<char>)
    requires
        0 <= i < hashes.len(),
        hashes[0] == Set::<Seq<char>>::empty(),
        hashes[i].contains(h),
    ensures
        exists|j: int| 0 <= j < i && !hashes[j].contains(h) && #[trigger] hashes[j + 1].contains(h),
    decreases i,
{
    if i > 0 {
        if hashes[i - 1].contains(h) {
            lemma_hash_brought(hashes, i - 1, h);
            let j = choose|j: int| 0 <= j < i - 1 && !hashes[j].contains(h) && #[trigger] hashes[j + 1].contains(h);
            assert(hashes[j + 1].contains(h));
        } else {
            assert(hashes[(i - 1) + 1].contains(h));
        }
    }
}


/// Whether a classified file that is a backup (not a temporary one) is named by its file
/// name.
pub open spec fn own_name(e: (FileView, GroupEntryView)) -> bool {
    match e.1 {
        GroupEntryView::Backup { name, temporary } => !temporary ==> name == e.0.name,
        _ => true,
    }
}

/// Whether no two classified files have the same name.
pub open spec fn distinct_file_names(entries: Seq<(FileView, GroupEntryView)>) -> bool {
    forall|i: int, j: int| 0 <= i < j < entries.len() ==> (#[trigger] entries[i]).0.name != (#[trigger] entries[j]).0.name
}

/// Whether the names of some backups are in order, and strictly where `strictly`.
pub open spec fn backup_names_in_order(backups: Seq<Backup>, strictly: bool) -> bool {
    forall|i: int, j: int| 0 <= i < j < backups.len() ==> {
        &&& chars_le((#[trigger] backups[i])@.name, (#[trigger] backups[j])@.name)
        &&& strictly ==> backups[i]@.name != backups[j]@.name
    }
}

/// With the name patterns, a backup (not a temporary one) of a group is named by its file.
pub proof fn lemma_own_names(entries: Seq<(FileView, GroupEntryView)>, file_type: FileType, pattern: Seq<char>)
    requires
        valid_entries(entries, file_type, "."@, pattern),
        anchored_name_pattern(pattern),
    ensures
        forall|k: int| 0 <= k < entries.len() ==> own_name(#[trigger] entries[k]),
{
    let files = entries.map_values(|e: (FileView, GroupEntryView)| e.0);
    assert forall|k: int| 0 <= k < entries.len() implies own_name(#[trigger] entries[k]) by {
        assert(name_is_stripped(entries[k], "."@, pattern));
        assert(entries[k] == (files[k], entry_spec(files[k], file_type, "."@, pattern)));
    }
}

/// Reading a sorted group whose backups are named by their files gives backups in the order
/// of their names; strictly so where no two files have the same name.
pub proof fn lemma_outcome_names_in_order(
    entries: Seq<(FileView, GroupEntryView)>,
    reads: Seq<Result<(), Seq<char>>>,
    name: Seq<char>,
    path: Seq<char>,
    strict: bool,
)
    requires
        reads.len() == entries.len(),
        forall|i: int, j: int| 0 <= i < j < entries.len() ==> chars_le((#[trigger] entries[i]).0.name, (#[trigger] entries[j]).0.name),
        forall|k: int| 0 <= k < entries.len() ==> own_name(#[trigger] entries[k]),
    ensures
        ({
            let o = group_outcome(entries, reads, name, path, strict);
            &&& forall|i: int| 0 <= i < o.backups.len() ==> exists|k: int| 0 <= k < entries.len() && (#[trigger] o.backups[i]).1 == entries[k].0.name
            &&& forall|i: int, j: int| 0 <= i < j < o.backups.len() ==> {
                &&& chars_le((#[trigger] o.backups[i]).1, (#[trigger] o.backups[j]).1)
                &&& distinct_file_names(entries) ==> o.backups[i].1 != o.backups[j].1
            }
        }),
    decreases entries.len(),
{
    if entries.len() > 0 {
        let m = entries.len() - 1;
        let init = entries.drop_last();
        let r0 = reads.take(m);
        assert forall|i: int, j: int| 0 <= i < j < init.len() implies chars_le((#[trigger] init[i]).0.name, (#[trigger] init[j]).0.name) by {
            assert(init[i] == entries[i] && init[j] == entries[j]);
        }
        assert forall|k: int| 0 <= k < init.len() implies own_name(#[trigger] init[k]) by {
            assert(init[k] == entries[k]);
        }
        lemma_outcome_names_in_order(init, r0, name, path, strict);
        let o0 = group_outcome(init, r0, name, path, strict);
        let o = group_outcome(entries, reads, name, path, strict);
        if distinct_file_names(entries) {
            assert forall|i: int, j: int| 0 <= i < j < init.len() implies (#[trigger] init[i]).0.name != (#[trigger] init[j]).0.name by {
                assert(init[i] == entries[i] && init[j] == entries[j]);
            }
        }
        if o.backups.len() > o0.backups.len() {
            assert(own_name(entries[m]));
            assert(o.backups == o0.backups.push(o.backups.last()));
            assert(o.backups.last().1 == entries[m].0.name);
            assert forall|i: int| 0 <= i < o.backups.len() implies exists|k: int| 0 <= k < entries.len() && (#[trigger] o.backups[i]).1 == entries[k].0.name by {
                if i < o0.backups.len() {
                    assert(o.backups[i] == o0.backups[i]);
                    let k = choose|k: int| 0 <= k < init.len() && o0.backups[i].1 == init[k].0.name;
                    assert(init[k] == entries[k]);
                } else {
                    assert(o.backups[i].1 == entries[m].0.name);
                }
            }
            assert forall|i: int, j: int| 0 <= i < j < o.backups.len() implies {
                &&& chars_le((#[trigger] o.backups[i]).1, (#[trigger] o.backups[j]).1)
                &&& distinct_file_names(entries) ==> o.backups[i].1 != o.backups[j].1
            } by {
                assert(o.backups[i] == o0.backups[i]);
                if j < o0.backups.len() {
                    assert(o.backups[j] == o0.backups[j]);
                } else {
                    let k = choose|k: int| 0 <= k < init.len() && o0.backups[i].1 == init[k].0.name;
                    assert(init[k] == entries[k]);
                    assert(chars_le(entries[k].0.name, entries[m].0.name));
                    if distinct_file_names(entries) {
                        assert(entries[k].0.name != entries[m].0.name);
                    }
                }
            }
        } else {
            assert(o.backups == o0.backups);
            assert forall|i: int| 0 <= i < o.backups.len() implies exists|k: int| 0 <= k < entries.len() && (#[trigger] o.backups[i]).1 == entries[k].0.name by {
                let k = choose|k: int| 0 <= k < init.len() && o0.backups[i].1 == init[k].0.name;
                assert(init[k] == entries[k]);
            }
        }
    }
}

} // verus!
