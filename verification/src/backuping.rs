//! What making a backup decides on its own: which data a new backup can take from the
//! backups before it (deduplication), where files go in the data archive, and how the walk
//! over the backed up paths treats each file and each problem. The program walks the file
//! system and writes the archives.

use vstd::prelude::*;
use vstd::hash_map::StringHashMap;
use vstd::hash_set::StringHashSet;

use crate::hash::{empty_file_hash, sha512_digest, to_hex};
use crate::logging::{Level, LogRecord, extends};
use crate::metadata::{Fingerprint, MetadataItem, MetadataItemView, items_view};
use crate::storage::backup::readable_items;
use crate::paths::{Component, components, starts_with_spec};
use crate::storage::backup::Backup;
use crate::storage::backup_group::BackupGroup;
use crate::storage::provider::ReadProvider;
use crate::text::{debug_quoted, debug_str};

verus! {

/// What a backup knows of a file from the last backup: its fingerprint and data hash.
pub type FileStateView = (Fingerprint, Seq<u8>);

/// The data that the backups of a group hold, by hash (in hex), and the state of the files
/// of the last backup, by path (if its metadata could be read).
pub struct DedupIndex {
    hashes: StringHashSet,
    last_state: Option<StringHashMap<(Fingerprint, crate::hash::Hash)>>,
}

/// An index as values.
pub struct DedupIndexView {
    pub hashes: Set<Seq<char>>,
    pub last_state: Option<Map<Seq<char>, FileStateView>>,
}

impl View for DedupIndex {
    type V = DedupIndexView;

    closed spec fn view(&self) -> DedupIndexView {
        DedupIndexView {
            hashes: self.hashes@,
            last_state: match self.last_state {
                Some(m) => Some(m@.map_values(|v: (Fingerprint, crate::hash::Hash)| (v.0, v.1@))),
                None => None,
            },
        }
    }
}

/// The hashes (in hex) of the unique files of some metadata items.
pub open spec fn unique_hashes(items: Seq<MetadataItemView>) -> Set<Seq<char>>
    decreases items.len(),
{
    if items.len() == 0 {
        Set::empty()
    } else {
        let rest = unique_hashes(items.drop_last());
        if items.last().unique { rest.insert(to_hex(items.last().hash)) } else { rest }
    }
}

/// The state of the files of some metadata items, by path (a later item of a path wins).
pub open spec fn file_states(items: Seq<MetadataItemView>) -> Map<Seq<char>, FileStateView>
    decreases items.len(),
{
    if items.len() == 0 {
        Map::empty()
    } else {
        file_states(items.drop_last()).insert(items.last().path, (items.last().fingerprint, items.last().hash))
    }
}

/// The metadata of each backup of a group, as read (or the error of reading it).
pub type LoadedView = Seq<Result<Seq<MetadataItemView>, ()>>;

/// The data held by the backups whose metadata could be read.
pub open spec fn loaded_hashes(loaded: LoadedView) -> Set<Seq<char>>
    decreases loaded.len(),
{
    if loaded.len() == 0 {
        Set::empty()
    } else {
        let rest = loaded_hashes(loaded.drop_last());
        match loaded.last() {
            Ok(items) => rest + unique_hashes(items),
            Err(()) => rest,
        }
    }
}

/// The index of a group from the metadata of its backups: the data of all of them that
/// could be read, and the file states of the last one, if it could be read.
pub open spec fn index_spec(loaded: LoadedView) -> DedupIndexView {
    DedupIndexView {
        hashes: loaded_hashes(loaded),
        last_state: if loaded.len() > 0 && loaded.last() is Ok {
            Some(file_states(loaded.last()->Ok_0))
        } else {
            None
        },
    }
}

/// The metadata of each backup as values.
pub open spec fn loaded_view(loaded: Seq<Result<Vec<MetadataItem>, String>>) -> LoadedView {
    loaded.map_values(|r: Result<Vec<MetadataItem>, String>| match r {
        Ok(items) => Ok(items_view(items@)),
        Err(_) => Err(()),
    })
}

fn add_unique_hashes(hashes: &mut StringHashSet, items: &Vec<MetadataItem>)
    ensures
        final(hashes)@ == old(hashes)@ + unique_hashes(items@.map_values(|i: MetadataItem| i@)),
{
    let ghost iv = items@.map_values(|i: MetadataItem| i@);
    let mut i: usize = 0;
    assert(iv.take(0) =~= Seq::<MetadataItemView>::empty());
    assert(old(hashes)@ + unique_hashes(iv.take(0)) =~= old(hashes)@);
    while i < items.len()
        invariant
            i <= items@.len(),
            iv == items@.map_values(|i: MetadataItem| i@),
            hashes@ == old(hashes)@ + unique_hashes(iv.take(i as int)),
        decreases items@.len() - i,
    {
        proof {
            assert(iv.take(i + 1).drop_last() =~= iv.take(i as int));
            assert(iv.take(i + 1).last() == iv[i as int]);
        }
        if items[i].unique {
            hashes.insert(items[i].hash.to_string());
            proof {
                assert(hashes@ =~= old(hashes)@ + unique_hashes(iv.take(i + 1)));
            }
        }
        i += 1;
    }
    assert(iv.take(i as int) =~= iv);
}

fn states_of(items: &Vec<MetadataItem>) -> (r: StringHashMap<(Fingerprint, crate::hash::Hash)>)
    ensures
        r@.map_values(|v: (Fingerprint, crate::hash::Hash)| (v.0, v.1@)) == file_states(items@.map_values(|i: MetadataItem| i@)),
{
    let ghost iv = items@.map_values(|i: MetadataItem| i@);
    let mut r: StringHashMap<(Fingerprint, crate::hash::Hash)> = StringHashMap::new();
    let mut i: usize = 0;
    assert(iv.take(0) =~= Seq::<MetadataItemView>::empty());
    assert(r@.map_values(|v: (Fingerprint, crate::hash::Hash)| (v.0, v.1@)) =~= Map::<Seq<char>, FileStateView>::empty());
    while i < items.len()
        invariant
            i <= items@.len(),
            iv == items@.map_values(|i: MetadataItem| i@),
            r@.map_values(|v: (Fingerprint, crate::hash::Hash)| (v.0, v.1@)) == file_states(iv.take(i as int)),
        decreases items@.len() - i,
    {
        proof {
            assert(iv.take(i + 1).drop_last() =~= iv.take(i as int));
            assert(iv.take(i + 1).last() == iv[i as int]);
        }
        let ghost before = r@;
        r.insert(crate::text::copy_string(items[i].path.as_str()), (items[i].fingerprint, items[i].hash.copy()));
        proof {
            assert(r@.map_values(|v: (Fingerprint, crate::hash::Hash)| (v.0, v.1@)) =~= before.map_values(
                |v: (Fingerprint, crate::hash::Hash)| (v.0, v.1@)).insert(iv[i as int].path, (iv[i as int].fingerprint, iv[i as int].hash)));
        }
        i += 1;
    }
    assert(iv.take(i as int) =~= iv);
    r
}

impl DedupIndex {
    /// The index of a group from the metadata of its backups, oldest first (see
    /// `index_spec`).
    pub fn from_loaded(loaded: &Vec<Result<Vec<MetadataItem>, String>>) -> (r: DedupIndex)
        ensures
            r@ == index_spec(loaded_view(loaded@)),
    {
        let ghost lv = loaded_view(loaded@);
        let mut hashes = StringHashSet::new();
        let mut i: usize = 0;
        assert(lv.take(0) =~= LoadedView::empty());
        while i < loaded.len()
            invariant
                i <= loaded@.len(),
                lv == loaded_view(loaded@),
                hashes@ == loaded_hashes(lv.take(i as int)),
            decreases loaded@.len() - i,
        {
            proof {
                assert(lv.take(i + 1).drop_last() =~= lv.take(i as int));
                assert(lv.take(i + 1).last() == lv[i as int]);
            }
            match &loaded[i] {
                Ok(items) => add_unique_hashes(&mut hashes, items),
                Err(_) => {},
            }
            i += 1;
        }
        assert(lv.take(i as int) =~= lv);
        let n = loaded.len();
        let last_state = if n > 0 {
            match &loaded[n - 1] {
                Ok(items) => Some(states_of(items)),
                Err(_) => None,
            }
        } else {
            None
        };
        DedupIndex { hashes, last_state }
    }

    /// What a file of the last backup was: its fingerprint and hash, if known.
    pub closed spec fn last_file(self, path: Seq<char>) -> Option<FileStateView> {
        match self@.last_state {
            Some(m) => if m.contains_key(path) { Some(m[path]) } else { None },
            None => None,
        }
    }

    /// A file whose data need not be read again: an empty file (the hash of no data), or a
    /// file unchanged since the last backup (the hash it had then). `None` if its data
    /// must be read.
    pub fn deduplicate_unchanged(&self, path: &str, fingerprint: &Fingerprint, size: u64) -> (r: Option<(crate::hash::Hash, u64)>)
        ensures
            size == 0 ==> (r matches Some((h, s)) && h@ == sha512_digest(Seq::empty()) && s == 0),
            size != 0 ==> match self.last_file(path@) {
                Some((f, h)) => if f == *fingerprint {
                    r matches Some((x, s)) && x@ == h && s == size
                } else {
                    r is None
                },
                None => r is None,
            },
    {
        if size == 0 {
            return Some((empty_file_hash(), 0));
        }
        match &self.last_state {
            Some(states) => match states.get(path) {
                Some(state) => {
                    proof {
                        assert(self@.last_state->Some_0[path@] == (state.0, state.1@));
                    }
                    if state.0.device == fingerprint.device && state.0.inode == fingerprint.inode
                        && state.0.mtime_nsec == fingerprint.mtime_nsec {
                        Some((state.1.copy(), size))
                    } else {
                        None
                    }
                },
                None => None,
            },
            None => None,
        }
    }

    /// Whether the group holds the data of a hash.
    pub fn has_data(&self, hash: &crate::hash::Hash) -> (r: bool)
        ensures
            r == self@.hashes.contains(to_hex(hash@)),
    {
        self.hashes.contains(hash.to_string().as_str())
    }

    /// Records the data of a file that the new backup holds: later files with the same
    /// data refer to it.
    pub fn add_data(&mut self, hash: &crate::hash::Hash)
        ensures
            final(self)@ == (DedupIndexView { hashes: old(self)@.hashes.insert(to_hex(hash@)), ..old(self)@ }),
    {
        self.hashes.insert(hash.to_string());
    }
}

impl DedupIndex {
    /// The metadata of a backed up file: a file whose data the new backup holds (`unique`)
    /// has its data recorded, so that later files with the same data refer to it. Fails
    /// for a path that can not stand in metadata.
    pub fn record_file(
        &mut self,
        path: &str,
        size: u64,
        hash: crate::hash::Hash,
        fingerprint: Fingerprint,
        unique: bool,
    ) -> (r: Result<MetadataItem, String>)
        ensures
            final(self)@ == (if unique {
                DedupIndexView { hashes: old(self)@.hashes.insert(to_hex(hash@)), ..old(self)@ }
            } else {
                old(self)@
            }),
            r is Ok <==> crate::metadata::valid_metadata_path(path@),
            r matches Ok(item) ==> item@ == (MetadataItemView { path: path@, size, hash: hash@, unique, fingerprint }),
            r matches Err(e) ==> e@ == "invalid path"@,
    {
        if unique {
            self.add_data(&hash);
        }
        MetadataItem::new(path, size, hash, fingerprint, unique)
    }
}

/// The index after the files of some metadata items were recorded in order (see
/// `DedupIndex::record_file`).
pub open spec fn after_records(index: DedupIndexView, items: Seq<MetadataItemView>) -> DedupIndexView
    decreases items.len(),
{
    if items.len() == 0 {
        index
    } else {
        let before = after_records(index, items.drop_last());
        if items.last().unique {
            DedupIndexView { hashes: before.hashes.insert(to_hex(items.last().hash)), ..before }
        } else {
            before
        }
    }
}

/// Over a whole backup, the data that the index knows is that of the group's backups it was
/// made from and that of the unique files recorded so far: a file whose data an earlier
/// file of the same backup brought is found by its hash (see `DedupIndex::has_data`). The
/// state of the last backup's files does not change.
pub proof fn lemma_recorded_backup_data(index: DedupIndexView, items: Seq<MetadataItemView>)
    ensures
        after_records(index, items).hashes == index.hashes + unique_hashes(items),
        after_records(index, items).last_state == index.last_state,
    decreases items.len(),
{
    if items.len() == 0 {
        assert(index.hashes + Set::<Seq<char>>::empty() =~= index.hashes);
    } else {
        lemma_recorded_backup_data(index, items.drop_last());
        let rest = unique_hashes(items.drop_last());
        if items.last().unique {
            assert(index.hashes + rest.insert(to_hex(items.last().hash)) =~= (index.hashes + rest).insert(to_hex(items.last().hash)));
        }
    }
}

/// A file that turned out shorter than it was when its size was taken: a warning.
pub fn truncation_warning(path: &str, bytes_read: u64, size: u64, log: &mut Vec<LogRecord>)
    ensures
        bytes_read == size ==> final(log)@ == old(log)@,
        bytes_read != size ==> final(log)@.len() == old(log)@.len() + 1 && final(log)@.drop_last() == old(log)@
            && final(log)@.last().level == Level::Warn
            && final(log)@.last().message@ == debug_quoted(path@) + " has been truncated during backup."@,
{
    if bytes_read != size {
        let mut m = debug_str(path);
        m.append(" has been truncated during backup.");
        crate::logging::log(log, Level::Warn, m);
    }
}

/// Data recorded once is found again.
pub proof fn lemma_recorded_data_is_found(index: DedupIndexView, hash: Seq<u8>)
    ensures
        (DedupIndexView { hashes: index.hashes.insert(to_hex(hash)), ..index }).hashes.contains(to_hex(hash)),
{
}

/// The index of a group: the metadata of each of its backups is read from the provider; a
/// backup whose metadata can not be read is logged, its data left out, and spoils the
/// result. Returns the index and whether all metadata could be read.
pub fn load_backups_metadata<P: ReadProvider + ?Sized>(provider: &P, group: &BackupGroup, log: &mut Vec<LogRecord>) -> (r: (DedupIndex, bool))
    ensures
        extends(final(log)@, old(log)@),
        exists|loaded: LoadedView| {
            &&& loaded.len() == group.backups@.len()
            &&& #[trigger] index_spec(loaded) == r.0@
            &&& r.1 == (forall|i: int| 0 <= i < loaded.len() ==> loaded[i] is Ok)
            &&& read_from(loaded, group.backups@)
        },
{
    let mut loaded: Vec<Result<Vec<MetadataItem>, String>> = Vec::new();
    let mut ok = true;
    let mut i: usize = 0;
    while i < group.backups.len()
        invariant
            i <= group.backups@.len(),
            loaded@.len() == i,
            ok == (forall|j: int| 0 <= j < i ==> loaded_view(loaded@)[j] is Ok),
            read_from(loaded_view(loaded@), group.backups@),
            extends(log@, old(log)@),
        decreases group.backups@.len() - i,
    {
        let backup = &group.backups[i];
        let result = backup.metadata_items(provider);
        let ghost before = loaded@;
        match &result {
            Ok(_) => {},
            Err(e) => {
                let mut m = String::from_str("Failed to load ");
                m.append(debug_str(backup.name.as_str()).as_str());
                m.append(" backup metadata: ");
                m.append(e.as_str());
                crate::logging::log(log, Level::Error, m);
                ok = false;
            },
        }
        let ghost is_ok = result is Ok;
        loaded.push(result);
        proof {
            assert(loaded_view(loaded@)[i as int] is Ok == is_ok);
            assert(loaded_view(loaded@).drop_last() =~= loaded_view(before));
            assert forall|j: int| 0 <= j < i implies #[trigger] loaded_view(loaded@)[j] == loaded_view(before)[j] by {
                assert(loaded_view(loaded@).drop_last()[j] == loaded_view(loaded@)[j]);
            }
            assert forall|j: int| 0 <= j < loaded_view(loaded@).len() implies read_as(#[trigger] loaded_view(loaded@)[j], group.backups@[j]) by {
                if j < i {
                    assert(loaded_view(loaded@)[j] == loaded_view(before)[j]);
                }
            }
        }
        i += 1;
    }
    (DedupIndex::from_loaded(&loaded), ok)
}

/// What reading the metadata of a backup can give: the items of some metadata file, or an
/// error (always for a backup without a metadata file).
pub open spec fn read_as(loaded: Result<Seq<MetadataItemView>, ()>, backup: Backup) -> bool {
    &&& loaded matches Ok(items) ==> readable_items(items)
    &&& backup@.metadata_path is None ==> loaded is Err
}

/// What reading the metadata of some backups gave, in their order (see `read_as`).
pub open spec fn read_from(loaded: LoadedView, backups: Seq<Backup>) -> bool {
    forall|j: int| 0 <= j < loaded.len() ==> read_as(#[trigger] loaded[j], backups[j])
}

/// The message of an archive path that is not absolute.
pub open spec fn invalid_archive_path(path: Seq<char>) -> Seq<char> {
    "An attempt to add an invalid path to data archive: "@ + debug_quoted(path)
}

/// The path of a file in the data archive: its absolute path without the leading slashes.
pub open spec fn tar_path_spec(path: Seq<char>) -> Option<Seq<char>> {
    if path.len() > 0 && path[0] == '/' {
        Some(path.skip(leading_slashes(path)))
    } else {
        None
    }
}

/// The number of slashes that a path starts with.
pub open spec fn leading_slashes(path: Seq<char>) -> int
    decreases path.len(),
{
    if path.len() > 0 && path[0] == '/' { 1 + leading_slashes(path.drop_first()) } else { 0 }
}

/// The path of a file in the data archive (see `tar_path_spec`).
pub fn tar_path(path: &str) -> (r: Result<String, String>)
    ensures
        match tar_path_spec(path@) {
            Some(p) => r matches Ok(s) && s@ == p,
            None => r matches Err(e) && e@ == invalid_archive_path(path@),
        },
{
    let chars = crate::text::chars_of(path);
    if chars.len() == 0 || chars[0] != '/' {
        return Err(crate::paths::message_with_path("An attempt to add an invalid path to data archive: ", path));
    }
    let mut i: usize = 0;
    proof {
        assert(chars@.skip(0) =~= chars@);
    }
    while i < chars.len() && chars[i] == '/'
        invariant
            i <= chars@.len(),
            chars@ == path@,
            leading_slashes(path@) == i + leading_slashes(chars@.skip(i as int)),
        decreases chars@.len() - i,
    {
        proof {
            assert(chars@.skip(i as int).drop_first() =~= chars@.skip(i + 1));
        }
        i += 1;
    }
    let rest = crate::text::sub_vec(chars.as_slice(), i, chars.len());
    assert(rest@ =~= path@.skip(leading_slashes(path@)));
    Ok(crate::text::string_of(rest.as_slice()))
}

/// The type of a file met on the walk.
#[derive(Clone, Copy, Debug, PartialEq, Eq, Structural)]
pub enum FsType {
    File,
    Directory,
    Symlink,
    /// A device, a pipe or a socket.
    Special,
    Other,
}

/// What the walk does with a path.
#[derive(Clone, Copy, Debug, PartialEq, Eq, Structural)]
pub enum WalkAction {
    BackupFile,
    BackupDirectory,
    BackupSymlink,
    Skip,
}

/// The message of a path that can not be backed up.
pub open spec fn path_error_message(path: Seq<char>, cause: Seq<char>) -> Seq<char> {
    "Failed to backup "@ + debug_quoted(path) + ": "@ + cause + "."@
}

/// The message of a path that changed its type while it was backed up.
pub open spec fn type_change_message(path: Seq<char>) -> Seq<char> {
    "Skipping "@ + debug_quoted(path) + ": it changed its type during backing up."@
}

/// The state of the walk over the backed up paths: the paths of the items so far (which
/// must not overlap), the parent directories already in the archive, and whether nothing
/// went wrong.
pub struct BackupWalk {
    roots: Vec<String>,
    root_parents: StringHashSet,
    ok: bool,
}

/// A walk as values.
pub struct BackupWalkView {
    pub roots: Seq<Seq<char>>,
    pub root_parents: Set<Seq<char>>,
    pub ok: bool,
}

/// Whether two paths overlap: one of them lies under the other.
pub open spec fn overlaps(a: Seq<char>, b: Seq<char>) -> bool {
    starts_with_spec(a, b) || starts_with_spec(b, a)
}

/// Whether no two of some paths overlap.
pub open spec fn disjoint_roots(roots: Seq<Seq<char>>) -> bool {
    forall|i: int, j: int| 0 <= i < j < roots.len() ==> !overlaps(#[trigger] roots[i], #[trigger] roots[j])
}

/// Taking a path that overlaps none of the paths taken keeps them from overlapping.
pub proof fn lemma_taken_paths_never_overlap(roots: Seq<Seq<char>>, path: Seq<char>)
    requires
        disjoint_roots(roots),
        !(exists|i: int| 0 <= i < roots.len() && overlaps(path, #[trigger] roots[i])),
    ensures
        disjoint_roots(roots.push(path)),
{
    let nv = roots.push(path);
    assert forall|a: int, b: int| 0 <= a < b < nv.len() implies !overlaps(#[trigger] nv[a], #[trigger] nv[b]) by {
        if b == nv.len() - 1 {
            assert(nv[a] == roots[a]);
            if overlaps(nv[a], nv[b]) {
                assert(overlaps(path, roots[a]));
            }
        } else {
            assert(nv[a] == roots[a] && nv[b] == roots[b]);
        }
    }
}

impl View for BackupWalk {
    type V = BackupWalkView;

    closed spec fn view(&self) -> BackupWalkView {
        BackupWalkView {
            roots: self.roots@.map_values(|r: String| r@),
            root_parents: self.root_parents@,
            ok: self.ok,
        }
    }
}

/// The parent directories of a path to put into the archive before it, from the highest:
/// for each component but the last, the path up to it (the root itself left out); `None`
/// if the first of those components is not the root or another is not a name.
pub open spec fn parent_dirs_spec(path: Seq<char>) -> Option<Seq<Seq<char>>> {
    let cs = components(path);
    if cs.len() <= 1 {
        Some(seq![])
    } else if cs[0] == Component::RootDir && crate::paths::all_normal_from(cs.drop_last(), 1) {
        Some(Seq::new((cs.len() - 2) as nat, |k: int| crate::paths::join_all(seq!['/'], crate::paths::names(cs.subrange(1, k + 2)))))
    } else {
        None
    }
}

/// The paths of `ps` that are not `known`, in order.
pub open spec fn not_known(ps: Seq<Seq<char>>, known: Set<Seq<char>>) -> Seq<Seq<char>>
    decreases ps.len(),
{
    if ps.len() == 0 {
        seq![]
    } else {
        let r = not_known(ps.drop_last(), known);
        if known.contains(ps.last()) { r } else { r.push(ps.last()) }
    }
}

impl BackupWalk {
    #[verifier::type_invariant]
    spec fn roots_disjoint(self) -> bool {
        disjoint_roots(self.roots@.map_values(|r: String| r@))
    }

    /// A walk at its start.
    pub fn new() -> (r: BackupWalk)
        ensures
            r@ == (BackupWalkView { roots: seq![], root_parents: Set::empty(), ok: true }),
    {
        let r = BackupWalk { roots: Vec::new(), root_parents: StringHashSet::new(), ok: true };
        assert(r.roots@.map_values(|x: String| x@) =~= Seq::<Seq<char>>::empty());
        r
    }

    /// Whether nothing went wrong so far.
    pub fn ok(&self) -> (r: bool)
        ensures
            r == self@.ok,
    {
        self.ok
    }

    /// Takes the path of a new item: it must not overlap the paths taken before.
    pub fn prepare(&mut self, path: &str) -> (r: Result<(), String>)
        ensures
            (exists|i: int| 0 <= i < old(self)@.roots.len() && overlaps(path@, #[trigger] old(self)@.roots[i]))
                ==> (r matches Err(e) && e@ == "it intersects with previously backed up path"@ && final(self)@ == old(self)@),
            !(exists|i: int| 0 <= i < old(self)@.roots.len() && overlaps(path@, #[trigger] old(self)@.roots[i]))
                ==> (r is Ok && final(self)@ == (BackupWalkView { roots: old(self)@.roots.push(path@), ..old(self)@ })),
    {
        proof {
            use_type_invariant(&*self);
        }
        let ghost rv = self.roots@.map_values(|r: String| r@);
        let mut i: usize = 0;
        while i < self.roots.len()
            invariant
                i <= self.roots@.len(),
                rv == self.roots@.map_values(|r: String| r@),
                forall|j: int| 0 <= j < i ==> !overlaps(path@, #[trigger] rv[j]),
            decreases self.roots@.len() - i,
        {
            let root = self.roots[i].as_str();
            if crate::paths::path_starts_with(path, root) || crate::paths::path_starts_with(root, path) {
                proof {
                    assert(overlaps(path@, rv[i as int]));
                }
                return Err(String::from_str("it intersects with previously backed up path"));
            }
            i += 1;
        }
        let mut roots = Vec::new();
        std::mem::swap(&mut roots, &mut self.roots);
        roots.push(String::from_str(path));
        proof {
            assert(roots@.map_values(|r: String| r@) =~= rv.push(path@));
            lemma_taken_paths_never_overlap(rv, path@);
        }
        self.roots = roots;
        Ok(())
    }

    /// Logs an error that spoils the backup.
    pub fn error(&mut self, message: String, log: &mut Vec<LogRecord>)
        ensures
            final(self)@ == (BackupWalkView { ok: false, ..old(self)@ }),
            final(log)@.len() == old(log)@.len() + 1,
            final(log)@.drop_last() == old(log)@,
            final(log)@.last().level == Level::Error,
            final(log)@.last().message@ == message@,
    {
        proof {
            use_type_invariant(&*self);
        }
        crate::logging::log(log, Level::Error, message);
        self.ok = false;
    }

    /// A path that can not be backed up (for the given reason): an error.
    pub fn path_error(&mut self, path: &str, cause: &str, log: &mut Vec<LogRecord>)
        ensures
            final(self)@ == (BackupWalkView { ok: false, ..old(self)@ }),
            final(log)@.len() == old(log)@.len() + 1,
            final(log)@.drop_last() == old(log)@,
            final(log)@.last().level == Level::Error,
            final(log)@.last().message@ == path_error_message(path@, cause@),
    {
        let mut m = String::from_str("Failed to backup ");
        m.append(debug_str(path).as_str());
        m.append(": ");
        m.append(cause);
        m.append(".");
        self.error(m, log);
    }

    /// A path that changed its type while it was backed up: an error for an item's own
    /// path, else a warning.
    pub fn type_change(&mut self, path: &str, top_level: bool, log: &mut Vec<LogRecord>)
        ensures
            final(self)@ == (BackupWalkView { ok: old(self)@.ok && !top_level, ..old(self)@ }),
            final(log)@.len() == old(log)@.len() + 1,
            final(log)@.drop_last() == old(log)@,
            final(log)@.last().level == (if top_level { Level::Error } else { Level::Warn }),
            final(log)@.last().message@ == type_change_message(path@),
    {
        let mut m = String::from_str("Skipping ");
        m.append(debug_str(path).as_str());
        m.append(": it changed its type during backing up.");
        if top_level {
            self.error(m, log);
        } else {
            crate::logging::log(log, Level::Warn, m);
        }
    }

    /// A path that could not be read: a type change if the error tells one; a path that
    /// was deleted is only a warning, unless it is an item's own path; else an error.
    pub fn access_error(&mut self, path: &str, top_level: bool, type_changed: bool, not_found: bool, cause: &str, log: &mut Vec<LogRecord>)
        ensures
            type_changed ==> final(self)@ == (BackupWalkView { ok: old(self)@.ok && !top_level, ..old(self)@ })
                && final(log)@.last().message@ == type_change_message(path@),
            !type_changed && not_found && !top_level ==> final(self)@ == old(self)@
                && final(log)@.last().level == Level::Warn
                && final(log)@.last().message@ == "Failed to backup "@ + debug_quoted(path@) + ": it was deleted during backing up."@,
            !type_changed && !(not_found && !top_level) ==> final(self)@ == (BackupWalkView { ok: false, ..old(self)@ })
                && final(log)@.last().level == Level::Error
                && final(log)@.last().message@ == path_error_message(path@, cause@),
            final(log)@.len() == old(log)@.len() + 1,
            final(log)@.drop_last() == old(log)@,
    {
        if type_changed {
            self.type_change(path, top_level, log);
            return;
        }
        if not_found && !top_level {
            let mut m = String::from_str("Failed to backup ");
            m.append(debug_str(path).as_str());
            m.append(": it was deleted during backing up.");
            crate::logging::log(log, Level::Warn, m);
            return;
        }
        self.path_error(path, cause, log);
    }

    /// What to do with a path of the given type: files, directories and symbolic links are
    /// backed up; other special files are skipped with a warning inside an item, and any
    /// other type is an error.
    pub fn entry_action(&mut self, path: &str, fs_type: FsType, top_level: bool, log: &mut Vec<LogRecord>) -> (r: WalkAction)
        ensures
            r == (match fs_type {
                FsType::File => WalkAction::BackupFile,
                FsType::Directory => WalkAction::BackupDirectory,
                FsType::Symlink => WalkAction::BackupSymlink,
                _ => WalkAction::Skip,
            }),
            fs_type == FsType::Special && !top_level ==> final(self)@ == old(self)@
                && final(log)@ == old(log)@.push(LogRecord { level: Level::Warn, message: final(log)@.last().message })
                && final(log)@.last().message@ == "Skipping "@ + debug_quoted(path@) + ": unsupported file type."@,
            (fs_type == FsType::Other || (fs_type == FsType::Special && top_level)) ==>
                final(self)@ == (BackupWalkView { ok: false, ..old(self)@ })
                && final(log)@.len() == old(log)@.len() + 1
                && final(log)@.last().message@ == path_error_message(path@, "unsupported file type"@),
            (fs_type == FsType::File || fs_type == FsType::Directory || fs_type == FsType::Symlink) ==>
                final(self)@ == old(self)@ && final(log)@ == old(log)@,
            extends(final(log)@, old(log)@),
    {
        match fs_type {
            FsType::File => WalkAction::BackupFile,
            FsType::Directory => WalkAction::BackupDirectory,
            FsType::Symlink => WalkAction::BackupSymlink,
            FsType::Special if !top_level => {
                let mut m = String::from_str("Skipping ");
                m.append(debug_str(path).as_str());
                m.append(": unsupported file type.");
                crate::logging::log(log, Level::Warn, m);
                proof {
                    assert(log@ =~= old(log)@.push(LogRecord { level: Level::Warn, message: log@.last().message }));
                }
                WalkAction::Skip
            },
            _ => {
                self.path_error(path, "unsupported file type", log);
                WalkAction::Skip
            },
        }
    }

    /// The parent directories of an item's path that are not in the archive yet, from the
    /// highest (see `parent_dirs_spec`); `None`, with an error, for a path that has no such
    /// list.
    pub fn parents_to_add(&mut self, path: &str, log: &mut Vec<LogRecord>) -> (r: Option<Vec<String>>)
        ensures
            match parent_dirs_spec(path@) {
                None => r is None && final(self)@ == (BackupWalkView { ok: false, ..old(self)@ })
                    && final(log)@.len() == old(log)@.len() + 1
                    && final(log)@.last().message@ == path_error_message(path@, "invalid path"@),
                Some(ps) => r matches Some(v) && v@.map_values(|s: String| s@) == not_known(ps, old(self)@.root_parents)
                    && final(self)@ == old(self)@ && final(log)@ == old(log)@,
            },
            extends(final(log)@, old(log)@),
    {
        let cs = crate::paths::path_components(path);
        let ghost cv = components(path@);
        let n = cs.len();
        if n <= 1 {
            let out: Vec<String> = Vec::new();
            assert(out@.map_values(|s: String| s@) =~= not_known(seq![], self@.root_parents));
            return Some(out);
        }
        proof {
            assert(crate::paths::parts_view(cs@)[0] == cs@[0]@);
        }
        let rooted = match &cs[0] {
            crate::paths::PathPart::RootDir => true,
            _ => false,
        };
        if !rooted {
            self.path_error(path, "invalid path", log);
            return None;
        }
        let ghost known = self@.root_parents;
        let ghost all = Seq::new((n - 2) as nat, |k: int| crate::paths::join_all(seq!['/'], crate::paths::names(cv.subrange(1, k + 2))));
        let mut out: Vec<String> = Vec::new();
        let mut current: Vec<char> = Vec::new();
        current.push('/');
        let mut i: usize = 1;
        proof {
            assert(cv.subrange(1, 1) =~= Seq::<Component>::empty());
            assert(crate::paths::names(cv.subrange(1, 1)) =~= Seq::<Seq<char>>::empty());
            assert(current@ =~= seq!['/']);
            assert(all.take(0) =~= Seq::<Seq<char>>::empty());
            assert(out@.map_values(|s: String| s@) =~= not_known(all.take(0), known));
        }
        while i < n - 1
            invariant
                1 <= i <= n - 1,
                n == cs@.len(),
                n >= 2,
                crate::paths::parts_view(cs@) == cv,
                cv == components(path@),
                cv[0] == Component::RootDir,
                forall|j: int| 1 <= j < i ==> crate::paths::is_normal(#[trigger] cv[j]),
                current@ == crate::paths::join_all(seq!['/'], crate::paths::names(cv.subrange(1, i as int))),
                self@ == old(self)@,
                log@ == old(log)@,
                known == old(self)@.root_parents,
                all == Seq::new((n - 2) as nat, |k: int| crate::paths::join_all(seq!['/'], crate::paths::names(cv.subrange(1, k + 2)))),
                out@.map_values(|s: String| s@) == not_known(all.take(i - 1), known),
            decreases n - i,
        {
            proof {
                assert(crate::paths::parts_view(cs@)[i as int] == cs@[i as int]@);
            }
            let name: Vec<char> = match &cs[i] {
                crate::paths::PathPart::Normal(name) => crate::text::sub_vec(name.as_slice(), 0, name.len()),
                _ => {
                    proof {
                        assert(cv.drop_last()[i as int] == cv[i as int]);
                        assert(!crate::paths::is_normal(cv[i as int]));
                        assert(!crate::paths::all_normal_from(cv.drop_last(), 1));
                    }
                    self.path_error(path, "invalid path", log);
                    return None;
                },
            };
            proof {
                match cs@[i as int] {
                    crate::paths::PathPart::Normal(nm) => {
                        assert(nm@.subrange(0, nm@.len() as int) =~= nm@);
                    },
                    _ => {},
                }
                assert(name@ == crate::paths::name_of(cv[i as int]));
                let t = cv.subrange(1, i + 1);
                assert(t.drop_last() =~= cv.subrange(1, i as int));
                assert(crate::paths::names(t).drop_last() =~= crate::paths::names(cv.subrange(1, i as int)));
                assert(crate::paths::names(t).last() == name@);
            }
            crate::paths::push_part(&mut current, name.as_slice());
            let parent = crate::text::string_of(current.as_slice());
            proof {
                assert(all[i - 1] == parent@);
                assert(all.take(i as int).drop_last() =~= all.take(i - 1));
                assert(all.take(i as int).last() == parent@);
            }
            if !self.root_parents.contains(parent.as_str()) {
                let ghost before = out@.map_values(|s: String| s@);
                out.push(parent);
                proof {
                    assert(out@.map_values(|s: String| s@) =~= before.push(all[i - 1]));
                }
            }
            i += 1;
        }
        proof {
            assert(all.take(i - 1) =~= all);
            assert(crate::paths::all_normal_from(cv.drop_last(), 1));
        }
        Some(out)
    }

    /// The outcome of a command run before or after an item (`name` tells which) at
    /// `path`: `Ok(true)` if it succeeded, `Ok(false)` if it exited with an error, or the
    /// error of running it. A failure is an error.
    pub fn command_outcome(&mut self, path: &str, name: &str, outcome: Result<bool, String>, log: &mut Vec<LogRecord>)
        ensures
            outcome == Ok::<bool, String>(true) ==> final(self)@ == old(self)@ && final(log)@ == old(log)@,
            outcome == Ok::<bool, String>(false) ==> final(self)@ == (BackupWalkView { ok: false, ..old(self)@ })
                && final(log)@.len() == old(log)@.len() + 1 && final(log)@.drop_last() == old(log)@
                && final(log)@.last().level == Level::Error
                && final(log)@.last().message@ == "`"@ + name@ + "` command for "@ + debug_quoted(path@) + " exited with error."@,
            outcome matches Err(e) ==> final(self)@ == (BackupWalkView { ok: false, ..old(self)@ })
                && final(log)@.len() == old(log)@.len() + 1 && final(log)@.drop_last() == old(log)@
                && final(log)@.last().level == Level::Error
                && final(log)@.last().message@ == "Failed to execute `"@ + name@ + "` command for "@ + debug_quoted(path@) + ": "@ + e@ + "."@,
    {
        match outcome {
            Ok(true) => {},
            Ok(false) => {
                let mut m = String::from_str("`");
                m.append(name);
                m.append("` command for ");
                m.append(debug_str(path).as_str());
                m.append(" exited with error.");
                self.error(m, log);
            },
            Err(e) => {
                let mut m = String::from_str("Failed to execute `");
                m.append(name);
                m.append("` command for ");
                m.append(debug_str(path).as_str());
                m.append(": ");
                m.append(e.as_str());
                m.append(".");
                self.error(m, log);
            },
        }
    }

    /// A parent directory that is now in the archive.
    pub fn add_parent(&mut self, parent: &str)
        ensures
            final(self)@ == (BackupWalkView { root_parents: old(self)@.root_parents.insert(parent@), ..old(self)@ }),
    {
        proof {
            use_type_invariant(&*self);
        }
        let mut set = StringHashSet::new();
        std::mem::swap(&mut set, &mut self.root_parents);
        set.insert(String::from_str(parent));
        self.root_parents = set;
    }

    /// Whether a directory goes into the archive: all but the root as an item's own path.
    pub fn includes_directory(path: &str, top_level: bool) -> (r: bool)
        ensures
            r == (!top_level || components(path@) != seq![Component::RootDir]),
    {
        !top_level || !crate::restoring::restorer::is_root_path(path)
    }

    /// A file with more than one link: a warning.
    pub fn hard_links(path: &str, links: u64, log: &mut Vec<LogRecord>)
        requires
            links > 1,
        ensures
            final(log)@ == old(log)@.push(LogRecord { level: Level::Warn, message: final(log)@.last().message }),
            final(log)@.last().message@ == debug_quoted(path@) + " has "@ + crate::text::decimal((links - 1) as nat) + " hard links."@,
    {
        let mut m = debug_str(path);
        m.append(" has ");
        m.append(crate::text::u64_to_string(links - 1).as_str());
        m.append(" hard links.");
        crate::logging::log(log, Level::Warn, m);
        proof {
            assert(log@ =~= old(log)@.push(LogRecord { level: Level::Warn, message: log@.last().message }));
        }
    }
}

} // verus!
