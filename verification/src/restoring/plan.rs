//! The plan of a restore: which files to take from which backup of the group, newest
//! first (a file that a backup holds as extern is restored from the older backup that holds
//! its data).

use vstd::prelude::*;

use crate::logging::{Level, LogRecord, extends};
use crate::metadata::{MetadataItem, MetadataItemView, MetadataReader, items_view, metadata_results};
use crate::storage::backup::{Backup, readable_items};
use crate::storage::backup_group::BackupGroup;
use crate::storage::provider::ReadProvider;
use crate::text::{copy_string, debug_str, str_eq};

verus! {

/// The position of the last entry of the given key, or -1.
pub open spec fn key_index<K, V>(s: Seq<(K, V)>, k: K) -> int
    decreases s.len(),
{
    if s.len() == 0 {
        -1
    } else if s.last().0 == k {
        s.len() - 1
    } else {
        key_index(s.drop_last(), k)
    }
}

/// The value of a key, if there is an entry of it.
pub open spec fn lookup<K, V>(s: Seq<(K, V)>, k: K) -> Option<V> {
    let i = key_index(s, k);
    if i >= 0 { Some(s[i].1) } else { None }
}

/// The entries with the value of a key set (replacing the entry of the key, or added).
pub open spec fn upsert<K, V>(s: Seq<(K, V)>, k: K, v: V) -> Seq<(K, V)> {
    let i = key_index(s, k);
    if i >= 0 { s.update(i, (k, v)) } else { s.push((k, v)) }
}

/// The entries without the one of a key.
pub open spec fn take_key<K, V>(s: Seq<(K, V)>, k: K) -> Seq<(K, V)> {
    let i = key_index(s, k);
    if i >= 0 { s.remove(i) } else { s }
}

/// The position of an entry of a key lies within the entries and holds the key.
pub proof fn lemma_key_index<K, V>(s: Seq<(K, V)>, k: K)
    ensures
        -1 <= key_index(s, k) < s.len(),
        key_index(s, k) >= 0 ==> s[key_index(s, k)].0 == k,
        key_index(s, k) < 0 ==> forall|j: int| 0 <= j < s.len() ==> (#[trigger] s[j]).0 != k,
    decreases s.len(),
{
    if s.len() > 0 {
        lemma_key_index(s.drop_last(), k);
        if s.last().0 != k && key_index(s, k) < 0 {
            assert forall|j: int| 0 <= j < s.len() implies (#[trigger] s[j]).0 != k by {
                if j < s.len() - 1 {
                    assert(s[j] == s.drop_last()[j]);
                }
            }
        }
    }
}

/// A file to restore from a backup: its data, and the paths to restore it at.
pub struct RestoringFile {
    pub hash: crate::hash::Hash,
    pub size: u64,
    pub paths: Vec<String>,
}

/// A file to restore as values.
pub type RestoringFileView = (Seq<u8>, u64, Seq<Seq<char>>);

impl View for RestoringFile {
    type V = RestoringFileView;

    open spec fn view(&self) -> RestoringFileView {
        (self.hash@, self.size, self.paths@.map_values(|p: String| p@))
    }
}

/// Files that are still to be found, by the hash of their data: the paths that need it.
pub type ToFind = Seq<(Seq<u8>, Seq<Seq<char>>)>;

/// Files to restore from a backup, by their path in it.
pub type FilesToRestore = Seq<(Seq<char>, RestoringFileView)>;

/// What a step of the plan has found so far.
pub struct StepView {
    pub files: FilesToRestore,
    pub to_find: ToFind,
    /// The paths of extern files that the step restores, in the order found.
    pub externs: Seq<Seq<char>>,
}

/// Whether a file of a backup holds its own data (an empty file always does).
pub open spec fn holds_data(f: MetadataItemView) -> bool {
    f.unique || f.size == 0
}

/// The extern files of the restored backup, by the hash of their data.
pub open spec fn collect_to_find(items: Seq<MetadataItemView>) -> ToFind
    decreases items.len(),
{
    if items.len() == 0 {
        seq![]
    } else {
        let tf = collect_to_find(items.drop_last());
        let f = items.last();
        if holds_data(f) {
            tf
        } else {
            upsert(tf, f.hash, match lookup(tf, f.hash) {
                Some(ps) => ps.push(f.path),
                None => seq![f.path],
            })
        }
    }
}

/// The files of the restored backup that hold their data.
pub open spec fn own_files(items: Seq<MetadataItemView>) -> Seq<MetadataItemView>
    decreases items.len(),
{
    if items.len() == 0 {
        seq![]
    } else if holds_data(items.last()) {
        own_files(items.drop_last()).push(items.last())
    } else {
        own_files(items.drop_last())
    }
}

/// Restoring the files of the restored backup that hold their data: each is restored at its
/// own path and at the paths of the extern files of the same data.
pub open spec fn restore_own(s: StepView, own: Seq<MetadataItemView>) -> StepView
    decreases own.len(),
{
    if own.len() == 0 {
        s
    } else {
        let s0 = restore_own(s, own.drop_last());
        let f = own.last();
        let ps = match lookup(s0.to_find, f.hash) {
            Some(ps) => ps,
            None => seq![],
        };
        StepView {
            files: upsert(s0.files, f.path, (f.hash, f.size, ps.push(f.path))),
            to_find: take_key(s0.to_find, f.hash),
            externs: s0.externs + ps,
        }
    }
}

/// The first step: the restored backup's own files, and the data it still has to find.
pub open spec fn first_step_spec(items: Seq<MetadataItemView>) -> StepView {
    restore_own(StepView { files: seq![], to_find: collect_to_find(items), externs: seq![] }, own_files(items))
}

/// A step of an older backup: each of its unique files whose data is still to be found is
/// restored at the paths that need it.
pub open spec fn older_step_spec(s: StepView, items: Seq<MetadataItemView>) -> StepView
    decreases items.len(),
{
    if items.len() == 0 {
        s
    } else {
        let s0 = older_step_spec(s, items.drop_last());
        let f = items.last();
        if f.unique && lookup(s0.to_find, f.hash) is Some {
            let ps = lookup(s0.to_find, f.hash)->Some_0;
            StepView {
                files: upsert(s0.files, f.path, (f.hash, f.size, ps)),
                to_find: take_key(s0.to_find, f.hash),
                externs: s0.externs + ps,
            }
        } else {
            s0
        }
    }
}

/// The state of a step as kept.
pub struct Step {
    pub files: Vec<(String, RestoringFile)>,
    pub to_find: Vec<(crate::hash::Hash, Vec<String>)>,
    pub externs: Vec<String>,
}

/// Paths as values.
pub open spec fn paths_view(v: Seq<String>) -> Seq<Seq<char>> {
    v.map_values(|p: String| p@)
}

impl View for Step {
    type V = StepView;

    open spec fn view(&self) -> StepView {
        StepView {
            files: self.files@.map_values(|e: (String, RestoringFile)| (e.0@, e.1@)),
            to_find: self.to_find@.map_values(|e: (crate::hash::Hash, Vec<String>)| (e.0@, paths_view(e.1@))),
            externs: paths_view(self.externs@),
        }
    }
}

/// A copy of some paths.
fn copy_paths(v: &Vec<String>) -> (r: Vec<String>)
    ensures
        paths_view(r@) == paths_view(v@),
{
    let mut r: Vec<String> = Vec::new();
    let mut i: usize = 0;
    while i < v.len()
        invariant
            i <= v@.len(),
            paths_view(r@) == paths_view(v@).take(i as int),
        decreases v@.len() - i,
    {
        let c = copy_string(v[i].as_str());
        let ghost before = paths_view(r@);
        r.push(c);
        assert(paths_view(r@) =~= before.push(c@));
        i += 1;
        assert(paths_view(r@) =~= paths_view(v@).take(i as int));
    }
    assert(paths_view(v@).take(i as int) =~= paths_view(v@));
    r
}

impl Step {
    /// The position of the entry of a hash among the data to find.
    fn find_hash(&self, h: &crate::hash::Hash) -> (r: Option<usize>)
        ensures
            match r {
                Some(i) => key_index(self@.to_find, h@) == i,
                None => key_index(self@.to_find, h@) == -1,
            },
    {
        let mut k = self.to_find.len();
        let ghost tf = self@.to_find;
        assert(tf.take(k as int) =~= tf);
        while k > 0
            invariant
                k <= tf.len(),
                tf == self@.to_find,
                key_index(tf, h@) == key_index(tf.take(k as int), h@),
            decreases k,
        {
            proof {
                let t = tf.take(k as int);
                assert(t.drop_last() =~= tf.take(k - 1));
                assert(t.last() == tf[k - 1]);
            }
            assert(tf[k - 1].0 == self.to_find@[k - 1].0@);
            if self.to_find[k - 1].0.equals(h) {
                return Some(k - 1);
            }
            k -= 1;
        }
        None
    }

    /// The position of the entry of a path among the files to restore.
    fn find_path(&self, path: &str) -> (r: Option<usize>)
        ensures
            match r {
                Some(i) => key_index(self@.files, path@) == i,
                None => key_index(self@.files, path@) == -1,
            },
    {
        let mut k = self.files.len();
        let ghost fs = self@.files;
        assert(fs.take(k as int) =~= fs);
        while k > 0
            invariant
                k <= fs.len(),
                fs == self@.files,
                key_index(fs, path@) == key_index(fs.take(k as int), path@),
            decreases k,
        {
            proof {
                let t = fs.take(k as int);
                assert(t.drop_last() =~= fs.take(k - 1));
                assert(t.last() == fs[k - 1]);
            }
            assert(fs[k - 1].0 == self.files@[k - 1].0@);
            if str_eq(self.files[k - 1].0.as_str(), path) {
                return Some(k - 1);
            }
            k -= 1;
        }
        None
    }

    /// Sets the file to restore at a path.
    fn put_file(&mut self, path: &str, file: RestoringFile)
        ensures
            final(self)@ == (StepView { files: upsert(old(self)@.files, path@, file@), ..old(self)@ }),
    {
        let ghost s = self@;
        proof {
            lemma_key_index(s.files, path@);
        }
        match self.find_path(path) {
            Some(i) => {
                self.files.set(i, (copy_string(path), file));
                assert(self@.files =~= s.files.update(i as int, (path@, file@)));
            },
            None => {
                self.files.push((copy_string(path), file));
                assert(self@.files =~= s.files.push((path@, file@)));
            },
        }
        assert(self@.to_find =~= s.to_find);
    }

    /// Takes out the paths that need the data of a hash, if any do.
    fn take_paths(&mut self, h: &crate::hash::Hash) -> (r: Option<Vec<String>>)
        ensures
            match r {
                Some(v) => lookup(old(self)@.to_find, h@) == Some(paths_view(v@)),
                None => lookup(old(self)@.to_find, h@) is None,
            },
            final(self)@ == (StepView { to_find: take_key(old(self)@.to_find, h@), ..old(self)@ }),
    {
        let ghost s = self@;
        proof {
            lemma_key_index(s.to_find, h@);
        }
        match self.find_hash(h) {
            Some(i) => {
                let (_, paths) = self.to_find.remove(i);
                assert(self@.to_find =~= s.to_find.remove(i as int));
                assert(self@.files =~= s.files);
                Some(paths)
            },
            None => {
                proof {
                    lemma_key_index(s.to_find, h@);
                }
                None
            },
        }
    }

    /// Adds a path that needs the data of a hash.
    fn add_extern(&mut self, h: &crate::hash::Hash, path: &str)
        ensures
            final(self)@ == (StepView {
                to_find: upsert(old(self)@.to_find, h@, match lookup(old(self)@.to_find, h@) {
                    Some(ps) => ps.push(path@),
                    None => seq![path@],
                }),
                ..old(self)@
            }),
    {
        let ghost s = self@;
        proof {
            lemma_key_index(s.to_find, h@);
        }
        match self.find_hash(h) {
            Some(i) => {
                let mut paths = copy_paths(&self.to_find[i].1);
                let c = copy_string(path);
                let ghost before = paths_view(paths@);
                paths.push(c);
                assert(paths_view(paths@) =~= before.push(path@));
                self.to_find.set(i, (h.copy(), paths));
                assert(self@.to_find =~= s.to_find.update(i as int, (h@, s.to_find[i as int].1.push(path@))));
            },
            None => {
                let mut paths: Vec<String> = Vec::new();
                paths.push(copy_string(path));
                assert(paths_view(paths@) =~= seq![path@]);
                self.to_find.push((h.copy(), paths));
                assert(self@.to_find =~= s.to_find.push((h@, seq![path@])));
            },
        }
        assert(self@.files =~= s.files);
    }

    /// Adds paths to the extern files that the step restores.
    fn add_externs(&mut self, paths: &Vec<String>)
        ensures
            final(self)@ == (StepView { externs: old(self)@.externs + paths_view(paths@), ..old(self)@ }),
    {
        let ghost s = self@;
        let mut i: usize = 0;
        while i < paths.len()
            invariant
                i <= paths@.len(),
                self@ == (StepView { externs: s.externs + paths_view(paths@).take(i as int), ..s }),
            decreases paths@.len() - i,
        {
            let c = copy_string(paths[i].as_str());
            let ghost before = self@.externs;
            self.externs.push(c);
            assert(self@.externs =~= before.push(c@));
            i += 1;
            assert(self@.externs =~= s.externs + paths_view(paths@).take(i as int));
            assert(self@.files =~= s.files);
            assert(self@.to_find =~= s.to_find);
        }
        assert(paths_view(paths@).take(i as int) =~= paths_view(paths@));
    }
}

/// The first step of a restore: the files of the restored backup (see `first_step_spec`).
pub fn first_step(items: &Vec<MetadataItem>) -> (r: Step)
    ensures
        r@ == first_step_spec(items_view(items@)),
{
    let ghost iv = items_view(items@);
    let mut step = Step { files: Vec::new(), to_find: Vec::new(), externs: Vec::new() };
    assert(step@.files =~= seq![]);
    assert(step@.to_find =~= seq![]);
    assert(step@.externs =~= seq![]);
    let mut i: usize = 0;
    while i < items.len()
        invariant
            i <= items@.len(),
            iv == items_view(items@),
            step@ == (StepView { files: seq![], to_find: collect_to_find(iv.take(i as int)), externs: seq![] }),
        decreases items@.len() - i,
    {
        let f = &items[i];
        proof {
            assert(iv.take(i + 1).drop_last() =~= iv.take(i as int));
            assert(iv.take(i + 1).last() == f@);
        }
        if !(f.unique || f.size == 0) {
            step.add_extern(&f.hash, f.path.as_str());
        }
        i += 1;
    }
    assert(iv.take(i as int) =~= iv);
    let ghost start = step@;
    let mut j: usize = 0;
    let ghost mut own: Seq<MetadataItemView> = seq![];
    while j < items.len()
        invariant
            j <= items@.len(),
            iv == items_view(items@),
            own == own_files(iv.take(j as int)),
            step@ == restore_own(start, own),
        decreases items@.len() - j,
    {
        let f = &items[j];
        proof {
            assert(iv.take(j + 1).drop_last() =~= iv.take(j as int));
            assert(iv.take(j + 1).last() == f@);
        }
        if f.unique || f.size == 0 {
            let ghost s0 = step@;
            let paths = match step.take_paths(&f.hash) {
                Some(paths) => paths,
                None => Vec::new(),
            };
            step.add_externs(&paths);
            let mut all = copy_paths(&paths);
            let c = copy_string(f.path.as_str());
            let ghost before = paths_view(all@);
            all.push(c);
            assert(paths_view(all@) =~= before.push(f.path@));
            let file = RestoringFile { hash: f.hash.copy(), size: f.size, paths: all };
            step.put_file(f.path.as_str(), file);
            proof {
                let ps = match lookup(s0.to_find, f@.hash) {
                    Some(ps) => ps,
                    None => seq![],
                };
                assert(paths_view(paths@) == ps) by {
                    if lookup(s0.to_find, f@.hash) is None {
                        assert(paths_view(paths@) =~= seq![]);
                    }
                }
                own = own.push(f@);
                assert(own.drop_last() =~= own_files(iv.take(j as int)));
            }
        }
        j += 1;
    }
    assert(iv.take(j as int) =~= iv);
    step
}

/// A step of an older backup (see `older_step_spec`), given the data still to find.
pub fn older_step(items: &Vec<MetadataItem>, to_find: Vec<(crate::hash::Hash, Vec<String>)>) -> (r: Step)
    ensures
        r@ == older_step_spec(StepView {
            files: seq![],
            to_find: to_find@.map_values(|e: (crate::hash::Hash, Vec<String>)| (e.0@, paths_view(e.1@))),
            externs: seq![],
        }, items_view(items@)),
{
    let ghost iv = items_view(items@);
    let mut step = Step { files: Vec::new(), to_find, externs: Vec::new() };
    let ghost start = step@;
    assert(start.files =~= seq![]);
    assert(start.externs =~= seq![]);
    let mut i: usize = 0;
    while i < items.len()
        invariant
            i <= items@.len(),
            iv == items_view(items@),
            step@ == older_step_spec(start, iv.take(i as int)),
        decreases items@.len() - i,
    {
        let f = &items[i];
        proof {
            assert(iv.take(i + 1).drop_last() =~= iv.take(i as int));
            assert(iv.take(i + 1).last() == f@);
        }
        if f.unique {
            let ghost s0 = step@;
            match step.take_paths(&f.hash) {
                Some(paths) => {
                    step.add_externs(&paths);
                    let file = RestoringFile { hash: f.hash.copy(), size: f.size, paths };
                    step.put_file(f.path.as_str(), file);
                },
                None => {},
            }
        }
        i += 1;
    }
    assert(iv.take(i as int) =~= iv);
    step
}

/// A step of a restore: the files to take from a backup.
pub struct RestoreStep {
    pub backup: Backup,
    pub files: Vec<(String, RestoringFile)>,
}

/// The plan of a restore: its steps, newest backup first; the extern files that older
/// backups restore; the files whose data no backup holds.
pub struct RestorePlan {
    pub steps: Vec<RestoreStep>,
    pub extern_files: Vec<String>,
    pub missing_files: Vec<String>,
}

/// How far planning a restore got.
pub struct PlanView {
    /// The backup name and the files of each step.
    pub steps: Seq<(Seq<char>, FilesToRestore)>,
    pub externs: Seq<Seq<char>>,
    pub to_find: ToFind,
    /// Whether the restored backup was met.
    pub started: bool,
    /// Whether all data was found.
    pub done: bool,
}

/// Planning a restore over the backups of a group, newest first, given the items of each
/// backup's metadata (read only when needed): backups newer than the restored one are
/// skipped; the restored backup gives the first step; each older one gives a step of the
/// data it holds that is still to be found, until all is found.
pub open spec fn plan_fold(names: Seq<Seq<char>>, metas: Seq<Seq<MetadataItemView>>, target: Seq<char>) -> PlanView
    decreases names.len(),
{
    if names.len() == 0 {
        PlanView { steps: seq![], externs: seq![], to_find: seq![], started: false, done: false }
    } else {
        let n = names.len() - 1;
        let p = plan_fold(names.drop_last(), metas.take(n), target);
        let name = names[n];
        let items = metas[n];
        if p.done {
            p
        } else if !p.started {
            if name != target {
                p
            } else {
                let s = first_step_spec(items);
                PlanView { steps: seq![(name, s.files)], externs: s.externs, to_find: s.to_find, started: true, done: false }
            }
        } else if p.to_find.len() == 0 {
            PlanView { done: true, ..p }
        } else {
            let s = older_step_spec(StepView { files: seq![], to_find: p.to_find, externs: seq![] }, items);
            PlanView {
                steps: if s.files.len() > 0 { p.steps.push((name, s.files)) } else { p.steps },
                externs: p.externs + s.externs,
                to_find: s.to_find,
                ..p
            }
        }
    }
}

/// Before the restored backup is met, planning has found nothing.
pub proof fn lemma_not_started(names: Seq<Seq<char>>, metas: Seq<Seq<MetadataItemView>>, target: Seq<char>)
    ensures
        !plan_fold(names, metas, target).started ==> plan_fold(names, metas, target)
            == (PlanView { steps: seq![], externs: seq![], to_find: seq![], started: false, done: false }),
    decreases names.len(),
{
    if names.len() > 0 {
        lemma_not_started(names.drop_last(), metas.take(names.len() - 1), target);
    }
}

/// All paths of the data still to find.
pub open spec fn all_paths(tf: ToFind) -> Seq<Seq<char>>
    decreases tf.len(),
{
    if tf.len() == 0 {
        seq![]
    } else {
        all_paths(tf.drop_last()) + tf.last().1
    }
}

/// The names of the backups of some steps, with their files.
pub open spec fn steps_view(steps: Seq<RestoreStep>) -> Seq<(Seq<char>, FilesToRestore)> {
    steps.map_values(|s: RestoreStep| (s.backup.name@, s.files@.map_values(|e: (String, RestoringFile)| (e.0@, e.1@))))
}

/// The backup names of a group, newest first.
pub open spec fn names_newest_first(group: BackupGroup) -> Seq<Seq<char>> {
    group.backups@.map_values(|b: Backup| b.name@).reverse()
}

/// The items of a backup's metadata (failing on the first item that can not be read).
fn read_items<P: ReadProvider + ?Sized>(backup: &Backup, provider: &P) -> (r: Result<Vec<MetadataItem>, String>)
    ensures
        r matches Ok(items) ==> readable_items(items_view(items@)),
        r matches Err(e) ==> "Error while reading "@.is_prefix_of(e@),
{
    match backup.metadata_items(provider) {
        Ok(items) => Ok(items),
        Err(e) => Err(metadata_error(backup.path.as_str(), e.as_str())),
    }
}

/// The message of a metadata that can not be read.
fn metadata_error(path: &str, e: &str) -> (r: String)
    ensures
        r@ == "Error while reading "@ + crate::text::debug_quoted(path@) + " backup metadata: "@ + e@,
        "Error while reading "@.is_prefix_of(r@),
{
    let mut m = String::from_str("Error while reading ");
    m.append(debug_str(path).as_str());
    m.append(" backup metadata: ");
    m.append(e);
    proof {
        reveal_strlit("Error while reading ");
        assert(m@.take(20) =~= "Error while reading "@);
    }
    m
}

/// Moves the paths of some data still to find to the end of a list.
fn append_all_paths(tf: Vec<(crate::hash::Hash, Vec<String>)>, out: &mut Vec<String>)
    ensures
        paths_view(final(out)@) == paths_view(old(out)@) + all_paths(tf@.map_values(|e: (crate::hash::Hash, Vec<String>)| (e.0@, paths_view(e.1@)))),
{
    let ghost tv = tf@.map_values(|e: (crate::hash::Hash, Vec<String>)| (e.0@, paths_view(e.1@)));
    let ghost out0 = paths_view(out@);
    let mut i: usize = 0;
    assert(all_paths(tv.take(0)) =~= seq![]);
    assert(out0 + seq![] =~= out0);
    while i < tf.len()
        invariant
            i <= tf@.len(),
            tv == tf@.map_values(|e: (crate::hash::Hash, Vec<String>)| (e.0@, paths_view(e.1@))),
            paths_view(out@) == out0 + all_paths(tv.take(i as int)),
        decreases tf@.len() - i,
    {
        let paths = &tf[i].1;
        let mut j: usize = 0;
        let ghost mid = paths_view(out@);
        while j < paths.len()
            invariant
                j <= paths@.len(),
                paths_view(out@) == mid + paths_view(paths@).take(j as int),
            decreases paths@.len() - j,
        {
            let c = copy_string(paths[j].as_str());
            let ghost before = paths_view(out@);
            out.push(c);
            assert(paths_view(out@) =~= before.push(c@));
            j += 1;
            assert(paths_view(out@) =~= mid + paths_view(paths@).take(j as int));
        }
        proof {
            assert(paths_view(paths@).take(j as int) =~= paths_view(paths@));
            assert(tv.take(i + 1).drop_last() =~= tv.take(i as int));
            assert(tv.take(i + 1).last() == tv[i as int]);
            assert(paths_view(out@) =~= out0 + all_paths(tv.take(i + 1)));
        }
        i += 1;
    }
    assert(tv.take(i as int) =~= tv);
}

/// The data still to find, as values.
pub open spec fn to_find_view(tf: Seq<(crate::hash::Hash, Vec<String>)>) -> ToFind {
    tf.map_values(|e: (crate::hash::Hash, Vec<String>)| (e.0@, paths_view(e.1@)))
}

/// Whether planning wants the items of the next backup, of the given name: not once all
/// data was found; before the restored backup is met, only for it; after, while data is
/// still to be found.
pub open spec fn wants_spec(p: PlanView, name: Seq<char>, target: Seq<char>) -> bool {
    !p.done && if p.started { p.to_find.len() > 0 } else { name == target }
}

/// Whether some items are read from an older backup's metadata as planning needs them:
/// its first items, in order, up to the point where no data is left to find (or all of
/// them).
pub open spec fn older_read(items: Seq<MetadataItemView>, to_find: ToFind) -> bool {
    exists|data: Seq<u8>| {
        let rs = #[trigger] metadata_results(data);
        &&& items.len() <= rs.len()
        &&& forall|j: int| 0 <= j < items.len() ==> rs[j] == Ok::<MetadataItemView, ()>(#[trigger] items[j])
        &&& items.len() == rs.len()
            || older_step_spec(StepView { files: seq![], to_find, externs: seq![] }, items).to_find.len() == 0
    }
}

/// Whether the items given for a backup are read as planning needs them: none where it does
/// not want them (see `wants_spec`); those of its metadata file for the restored backup;
/// the first ones of it for an older backup (see `older_read`).
pub open spec fn read_as_needed(items: Seq<MetadataItemView>, p: PlanView, name: Seq<char>, target: Seq<char>) -> bool {
    if !wants_spec(p, name, target) {
        items == Seq::<MetadataItemView>::empty()
    } else if p.started {
        older_read(items, p.to_find)
    } else {
        readable_items(items)
    }
}

/// Whether the items given for each backup are read as planning needs them (see
/// `read_as_needed`).
pub open spec fn metas_read(names: Seq<Seq<char>>, metas: Seq<Seq<MetadataItemView>>, target: Seq<char>) -> bool {
    &&& metas.len() == names.len()
    &&& forall|k: int| 0 <= k < metas.len()
        ==> read_as_needed(#[trigger] metas[k], plan_fold(names.take(k), metas.take(k), target), names[k], target)
}

/// Planning a restore, backup by backup, newest first (see `plan_fold`).
pub struct Planner {
    target: String,
    steps: Vec<RestoreStep>,
    to_find: Vec<(crate::hash::Hash, Vec<String>)>,
    extern_files: Vec<String>,
    done: bool,
    names: Ghost<Seq<Seq<char>>>,
    metas: Ghost<Seq<Seq<MetadataItemView>>>,
}

impl Planner {
    /// The backup names given so far.
    pub closed spec fn names(&self) -> Seq<Seq<char>> {
        self.names@
    }

    /// The items given so far, backup by backup.
    pub closed spec fn metas(&self) -> Seq<Seq<MetadataItemView>> {
        self.metas@
    }

    /// The name of the restored backup.
    pub closed spec fn target(&self) -> Seq<char> {
        self.target@
    }

    /// The planning so far.
    pub open spec fn plan(&self) -> PlanView {
        plan_fold(self.names(), self.metas(), self.target())
    }

    /// Whether the planner holds the planning of the backups given so far.
    pub closed spec fn wf(self) -> bool {
        let pv = plan_fold(self.names@, self.metas@, self.target@);
        &&& self.names@.len() == self.metas@.len()
        &&& steps_view(self.steps@) == pv.steps
        &&& paths_view(self.extern_files@) == pv.externs
        &&& to_find_view(self.to_find@) == pv.to_find
        &&& pv.started == (self.steps@.len() > 0)
        &&& self.done == pv.done
    }

    /// Planning the restore of the backup of the given name, with no backup given yet.
    pub fn new(target: &str) -> (r: Planner)
        ensures
            r.wf(),
            r.names() == Seq::<Seq<char>>::empty(),
            r.metas() == Seq::<Seq<MetadataItemView>>::empty(),
            r.target() == target@,
    {
        let r = Planner {
            target: String::from_str(target),
            steps: Vec::new(),
            to_find: Vec::new(),
            extern_files: Vec::new(),
            done: false,
            names: Ghost(Seq::empty()),
            metas: Ghost(Seq::empty()),
        };
        assert(steps_view(r.steps@) =~= seq![]);
        assert(paths_view(r.extern_files@) =~= seq![]);
        assert(to_find_view(r.to_find@) =~= seq![]);
        r
    }

    /// Whether planning wants the items of the next backup (see `wants_spec`).
    pub fn wants(&self, backup_name: &str) -> (r: bool)
        requires
            self.wf(),
        ensures
            r == wants_spec(self.plan(), backup_name@, self.target()),
    {
        proof {
            lemma_not_started(self.names@, self.metas@, self.target@);
        }
        if self.done {
            false
        } else if self.steps.len() > 0 {
            self.to_find.len() > 0
        } else {
            str_eq(backup_name, self.target.as_str())
        }
    }

    /// Whether the restored backup was met.
    pub fn started(&self) -> (r: bool)
        requires
            self.wf(),
        ensures
            r == self.plan().started,
    {
        self.steps.len() > 0
    }

    /// Plans with the next backup, an older one than the restored backup whose items
    /// planning wants, reading its metadata (whose file is at `path`) item by item only as
    /// long as data is left to find (see `older_read`). An item that can not be read is an
    /// error.
    pub fn step_older(self, backup: Backup, reader: MetadataReader, path: &str) -> (r: Result<Planner, String>)
        requires
            self.wf(),
            self.plan().started,
            wants_spec(self.plan(), backup.name@, self.target()),
            exists|data: Seq<u8>| reader.remaining() == #[trigger] metadata_results(data),
        ensures
            r matches Ok(p) ==> {
                &&& p.wf()
                &&& p.target() == self.target()
                &&& p.names() == self.names().push(backup.name@)
                &&& p.metas().len() == self.metas().len() + 1
                &&& p.metas().drop_last() == self.metas()
                &&& older_read(p.metas().last(), self.plan().to_find)
            },
            r matches Err(e) ==> "Error while reading "@.is_prefix_of(e@),
    {
        let mut this = self;
        let mut reader = reader;
        let ghost data = choose|data: Seq<u8>| reader.remaining() == #[trigger] metadata_results(data);
        let ghost rs = metadata_results(data);
        let ghost names0 = this.names@;
        let ghost metas0 = this.metas@;
        let ghost pv = plan_fold(names0, metas0, this.target@);
        let mut to_find: Vec<(crate::hash::Hash, Vec<String>)> = Vec::new();
        std::mem::swap(&mut to_find, &mut this.to_find);
        let mut step = Step { files: Vec::new(), to_find, externs: Vec::new() };
        let ghost start = step@;
        assert(start.files =~= seq![]);
        assert(start.externs =~= seq![]);
        assert(start == StepView { files: seq![], to_find: pv.to_find, externs: seq![] });
        let ghost mut prefix: Seq<MetadataItemView> = seq![];
        assert(rs.skip(0) =~= rs);
        let total = reader.len_remaining();
        let mut i: usize = 0;
        while i < total && step.to_find.len() > 0
            invariant
                i <= total == rs.len(),
                reader.remaining() == rs.skip(i as int),
                prefix.len() == i,
                forall|j: int| 0 <= j < i ==> rs[j] == Ok::<MetadataItemView, ()>(#[trigger] prefix[j]),
                step@ == older_step_spec(start, prefix),
            decreases total - i,
        {
            proof {
                assert(rs.skip(i as int)[0] == rs[i as int]);
                assert(rs.skip(i as int).drop_first() =~= rs.skip(i + 1));
            }
            let f = match reader.next_item() {
                Some(Ok(item)) => item,
                Some(Err(e)) => return Err(metadata_error(path, e.as_str())),
                None => {
                    proof {
                        assert(false);
                    }
                    return Err(metadata_error(path, ""));
                },
            };
            let ghost prefix0 = prefix;
            proof {
                prefix = prefix.push(f@);
                assert(prefix.drop_last() =~= prefix0);
                assert(prefix.last() == f@);
                assert forall|j: int| 0 <= j < i + 1 implies rs[j] == Ok::<MetadataItemView, ()>(#[trigger] prefix[j]) by {
                    if j < i {
                        assert(prefix[j] == prefix0[j]);
                    }
                }
            }
            if f.unique {
                match step.take_paths(&f.hash) {
                    Some(paths) => {
                        step.add_externs(&paths);
                        let file = RestoringFile { hash: f.hash.copy(), size: f.size, paths };
                        step.put_file(f.path.as_str(), file);
                    },
                    None => {},
                }
            }
            i += 1;
        }
        proof {
            assert(older_read(prefix, pv.to_find));
        }
        let ghost name = backup.name@;
        let ghost k = names0.len() as int;
        let ghost names1 = names0.push(name);
        let ghost metas1 = metas0.push(prefix);
        proof {
            assert(names1.drop_last() =~= names0);
            assert(metas1.take(k) =~= metas0);
            assert(names1[k] == name);
            assert(metas1[k] == prefix);
            lemma_not_started(names0, metas0, this.target@);
        }
        let Step { files, to_find: rest, externs } = step;
        let mut extern_files: Vec<String> = Vec::new();
        std::mem::swap(&mut extern_files, &mut this.extern_files);
        let mut j: usize = 0;
        let ghost ext0 = paths_view(extern_files@);
        while j < externs.len()
            invariant
                j <= externs@.len(),
                paths_view(extern_files@) == ext0 + paths_view(externs@).take(j as int),
            decreases externs@.len() - j,
        {
            let c = copy_string(externs[j].as_str());
            let ghost before = paths_view(extern_files@);
            extern_files.push(c);
            assert(paths_view(extern_files@) =~= before.push(c@));
            j += 1;
            assert(paths_view(extern_files@) =~= ext0 + paths_view(externs@).take(j as int));
        }
        assert(paths_view(externs@).take(j as int) =~= paths_view(externs@));
        let mut steps: Vec<RestoreStep> = Vec::new();
        std::mem::swap(&mut steps, &mut this.steps);
        if files.len() > 0 {
            let ghost sv = steps_view(steps@);
            steps.push(RestoreStep { backup, files });
            assert(steps_view(steps@) =~= sv.push((names1[k], files@.map_values(|e: (String, RestoringFile)| (e.0@, e.1@)))));
        }
        let r = Planner {
            target: this.target,
            steps,
            to_find: rest,
            extern_files,
            done: false,
            names: Ghost(names1),
            metas: Ghost(metas1),
        };
        proof {
            assert(r.metas().drop_last() =~= metas0);
        }
        Ok(r)
    }

    /// Plans with the next backup, given its items (read where planning wants them; none
    /// are read elsewhere).
    pub fn step(&mut self, backup: Backup, items: Vec<MetadataItem>)
        requires
            old(self).wf(),
        ensures
            final(self).wf(),
            final(self).names() == old(self).names().push(backup.name@),
            final(self).metas() == old(self).metas().push(items_view(items@)),
            final(self).target() == old(self).target(),
    {
        proof {
            lemma_not_started(self.names@, self.metas@, self.target@);
        }
        let ghost names0 = self.names@;
        let ghost metas0 = self.metas@;
        let ghost k = names0.len() as int;
        let ghost target = self.target@;
        let ghost names1 = names0.push(backup.name@);
        let ghost metas1 = metas0.push(items_view(items@));
        proof {
            assert(names1.drop_last() =~= names0);
            assert(metas1.take(k) =~= metas0);
            assert(names1[k] == backup.name@);
            assert(metas1[k] == items_view(items@));
        }
        if self.done {
            self.names = Ghost(names1);
            self.metas = Ghost(metas1);
            return;
        }
        if self.steps.len() == 0 && !str_eq(backup.name.as_str(), self.target.as_str()) {
            self.names = Ghost(names1);
            self.metas = Ghost(metas1);
            return;
        }
        if self.steps.len() > 0 && self.to_find.len() == 0 {
            self.names = Ghost(names1);
            self.metas = Ghost(metas1);
            self.done = true;
            return;
        }
        let first = self.steps.len() == 0;
        let mut current: Vec<(crate::hash::Hash, Vec<String>)> = Vec::new();
        std::mem::swap(&mut current, &mut self.to_find);
        let step = if first { first_step(&items) } else { older_step(&items, current) };
        let Step { files, to_find: rest, externs } = step;
        let mut extern_files: Vec<String> = Vec::new();
        std::mem::swap(&mut extern_files, &mut self.extern_files);
        let mut j: usize = 0;
        let ghost ext0 = paths_view(extern_files@);
        while j < externs.len()
            invariant
                j <= externs@.len(),
                paths_view(extern_files@) == ext0 + paths_view(externs@).take(j as int),
            decreases externs@.len() - j,
        {
            let c = copy_string(externs[j].as_str());
            let ghost before = paths_view(extern_files@);
            extern_files.push(c);
            assert(paths_view(extern_files@) =~= before.push(c@));
            j += 1;
            assert(paths_view(extern_files@) =~= ext0 + paths_view(externs@).take(j as int));
        }
        assert(paths_view(externs@).take(j as int) =~= paths_view(externs@));
        if first {
            assert(ext0 =~= seq![]);
        }
        let mut steps: Vec<RestoreStep> = Vec::new();
        std::mem::swap(&mut steps, &mut self.steps);
        if first || files.len() > 0 {
            let ghost sv = steps_view(steps@);
            steps.push(RestoreStep { backup, files });
            assert(steps_view(steps@) =~= sv.push((names1[k], files@.map_values(|e: (String, RestoringFile)| (e.0@, e.1@)))));
            if first {
                assert(sv =~= seq![]);
            }
        }
        *self = Planner {
            target: self.target.clone(),
            steps,
            to_find: rest,
            extern_files,
            done: false,
            names: Ghost(names1),
            metas: Ghost(metas1),
        };
    }

    /// The plan: an error if the restored backup was never met; else its steps, the extern
    /// files restored from older backups, and the files whose data no backup holds (listed
    /// in the log, where they spoil the restore).
    pub fn finish(self, log: &mut Vec<LogRecord>) -> (r: Result<(RestorePlan, bool), String>)
        requires
            self.wf(),
        ensures
            extends(final(log)@, old(log)@),
            !self.plan().started ==> (r matches Err(e) && e@ == "The backup doesn't exist"@),
            self.plan().started ==> (r matches Ok((plan, ok)) && {
                let pv = self.plan();
                &&& steps_view(plan.steps@) == pv.steps
                &&& paths_view(plan.extern_files@) == pv.externs
                &&& paths_view(plan.missing_files@) == all_paths(pv.to_find)
                &&& ok == (all_paths(pv.to_find).len() == 0)
            }),
    {
        let Planner { target, steps, to_find, extern_files, done, names, metas } = self;
        if steps.len() == 0 {
            return Err(String::from_str("The backup doesn't exist"));
        }
        let mut missing_files: Vec<String> = Vec::new();
        append_all_paths(to_find, &mut missing_files);
        let ok = missing_files.len() == 0;
        if !ok {
            crate::logging::log(log, Level::Error, String::from_str("The following files aren't recoverable (missing extern data):"));
            let mut i: usize = 0;
            while i < missing_files.len()
                invariant
                    extends(log@, old(log)@),
                decreases missing_files@.len() - i,
            {
                let mut m = String::from_str("* ");
                m.append(missing_files[i].as_str());
                crate::logging::log(log, Level::Error, m);
                i += 1;
            }
        }
        Ok((RestorePlan { steps, extern_files, missing_files }, ok))
    }
}

/// Giving a backup its items as planning wants them keeps the items given as planning
/// wants them.
proof fn lemma_metas_read_push(
    names: Seq<Seq<char>>,
    metas: Seq<Seq<MetadataItemView>>,
    target: Seq<char>,
    name: Seq<char>,
    items: Seq<MetadataItemView>,
)
    requires
        metas_read(names, metas, target),
        read_as_needed(items, plan_fold(names, metas, target), name, target),
    ensures
        metas_read(names.push(name), metas.push(items), target),
{
    let n1 = names.push(name);
    let m1 = metas.push(items);
    let k = names.len() as int;
    assert forall|j: int| 0 <= j < m1.len()
        implies read_as_needed(#[trigger] m1[j], plan_fold(n1.take(j), m1.take(j), target), n1[j], target) by {
        if j < k {
            assert(n1.take(j) =~= names.take(j));
            assert(m1.take(j) =~= metas.take(j));
            assert(m1[j] == metas[j]);
            assert(n1[j] == names[j]);
        } else {
            assert(n1.take(j) =~= names);
            assert(m1.take(j) =~= metas);
        }
    }
}

/// Gives the planner the next backup, with the items of its metadata read as planning
/// needs them (see `read_as_needed`); an error where they can not be read.
fn plan_with_backup<P: ReadProvider + ?Sized>(planner: Planner, backup: Backup, provider: &P) -> (r: Result<Planner, String>)
    requires
        planner.wf(),
        metas_read(planner.names(), planner.metas(), planner.target()),
    ensures
        r matches Ok(p) ==> {
            &&& p.wf()
            &&& p.target() == planner.target()
            &&& p.names() == planner.names().push(backup.name@)
            &&& p.metas().drop_last() == planner.metas()
            &&& p.metas().len() == planner.metas().len() + 1
            &&& metas_read(p.names(), p.metas(), p.target())
        },
        r matches Err(e) ==> "Error while reading "@.is_prefix_of(e@),
        r is Err ==> wants_spec(planner.plan(), backup.name@, planner.target()),
{
    let ghost names0 = planner.names();
    let ghost metas0 = planner.metas();
    let ghost target = planner.target();
    let ghost bname = backup.name@;
    let mut planner = planner;
    let wanted = planner.wants(backup.name.as_str());
    let started = planner.started();
    let ghost items_given: Seq<MetadataItemView>;
    if wanted && started {
        let reader = match backup.read_metadata(provider) {
            Ok(reader) => reader,
            Err(e) => {
                let e = metadata_error(backup.path.as_str(), e.as_str());
                return Err(e);
            },
        };
        let path = copy_string(backup.path.as_str());
        planner = match planner.step_older(backup, reader, path.as_str()) {
            Ok(p) => p,
            Err(e) => {
                return Err(e);
            },
        };
        proof {
            items_given = planner.metas().last();
        }
    } else {
        let items = if wanted {
            match read_items(&backup, provider) {
                Ok(items) => items,
                Err(e) => {
                    return Err(e);
                },
            }
        } else {
            Vec::new()
        };
        proof {
            if !wanted {
                assert(items_view(items@) =~= Seq::<MetadataItemView>::empty());
            }
            items_given = items_view(items@);
        }
        planner.step(backup, items);
        proof {
            assert(planner.metas().drop_last() =~= metas0);
        }
    }
    proof {
        lemma_metas_read_push(names0, metas0, target, bname, items_given);
        assert(planner.metas() =~= metas0.push(items_given));
    }
    Ok(planner)
}

impl RestorePlan {
    /// Plans restoring a backup of a group (see `plan_fold`): the backups are given to a
    /// `Planner` newest first, each with the items of its metadata where the planner wants
    /// them (see `metas_read`). Files whose data no backup holds are logged, and spoil the
    /// restore.
    pub fn new<P: ReadProvider + ?Sized>(
        provider: &P,
        group: BackupGroup,
        backup_name: &str,
        log: &mut Vec<LogRecord>,
    ) -> (r: Result<(RestorePlan, bool), String>)
        ensures
            extends(final(log)@, old(log)@),
            !names_newest_first(group).contains(backup_name@) ==> (r matches Err(e) && e@ == "The backup doesn't exist"@),
            names_newest_first(group).contains(backup_name@) ==> !(r matches Err(e) && e@ == "The backup doesn't exist"@),
            r matches Err(e) ==> (e@ == "The backup doesn't exist"@ || "Error while reading "@.is_prefix_of(e@)),
            r matches Ok((plan, ok)) ==> exists|metas: Seq<Seq<MetadataItemView>>| {
                let pv = #[trigger] plan_fold(names_newest_first(group), metas, backup_name@);
                &&& metas_read(names_newest_first(group), metas, backup_name@)
                &&& pv.started
                &&& steps_view(plan.steps@) == pv.steps
                &&& paths_view(plan.extern_files@) == pv.externs
                &&& paths_view(plan.missing_files@) == all_paths(pv.to_find)
                &&& ok == (all_paths(pv.to_find).len() == 0)
            },
    {
        crate::logging::log(log, Level::Info, String::from_str("Building restoring plan..."));
        let ghost names = names_newest_first(group);
        let ghost count = group.backups@.len();
        let mut backups = group.backups;
        let mut planner = Planner::new(backup_name);
        while backups.len() > 0
            invariant
                count == names.len(),
                names == group.backups@.map_values(|b: Backup| b.name@).reverse(),
                backups@.len() <= count,
                backups@.map_values(|b: Backup| b.name@) == group.backups@.map_values(|b: Backup| b.name@).take(backups@.len() as int),
                planner.names() == names.take(count - backups@.len()),
                planner.target() == backup_name@,
                planner.wf(),
                metas_read(planner.names(), planner.metas(), backup_name@),
                extends(log@, old(log)@),
                !planner.plan().started ==> !planner.names().contains(backup_name@),
                planner.plan().started ==> names.contains(backup_name@),
            decreases backups@.len(),
        {
            let ghost k: int = count - backups@.len();
            let ghost bnames0 = backups@.map_values(|b: Backup| b.name@);
            let ghost names0 = planner.names();
            let ghost metas0 = planner.metas();
            let ghost pv0 = planner.plan();
            let backup = backups.pop().unwrap();
            let ghost bname = backup.name@;
            proof {
                assert(bnames0.last() == backup.name@);
                assert(names[k] == group.backups@.map_values(|b: Backup| b.name@)[count - 1 - k]);
                assert(names.take(k + 1).drop_last() =~= names.take(k));
                assert(names.take(k + 1)[k] == backup.name@);
                assert(backups@.map_values(|b: Backup| b.name@) =~= bnames0.drop_last());
                lemma_not_started(names0, metas0, backup_name@);
            }
            planner = match plan_with_backup(planner, backup, provider) {
                Ok(p) => p,
                Err(e) => {
                    proof {
                        if !pv0.started {
                            assert(names[k] == backup_name@);
                        }
                        reveal_strlit("Error while reading ");
                        reveal_strlit("The backup doesn't exist");
                        assert(e@[0] == "Error while reading "@[0]);
                    }
                    return Err(e);
                },
            };
            proof {
                let n1 = planner.names();
                let m1 = planner.metas();
                assert(n1 =~= names.take(k + 1));
                lemma_not_started(n1, m1, backup_name@);
                assert(n1.drop_last() =~= names0);
                assert(m1.take(k) =~= metas0);
                if !planner.plan().started {
                    assert(!n1.contains(backup_name@)) by {
                        if n1.contains(backup_name@) {
                            let j = choose|j: int| 0 <= j < n1.len() && #[trigger] n1[j] == backup_name@;
                            if j < k {
                                assert(names0[j] == backup_name@);
                            }
                        }
                    }
                }
                if planner.plan().started && !pv0.started {
                    assert(bname == backup_name@);
                    assert(names[k] == backup_name@);
                }
            }
        }
        proof {
            assert(names.take(count as int) =~= names);
        }
        planner.finish(log)
    }
}

/// The paths of the data still to find are those of its entries.
pub proof fn lemma_all_paths(tf: ToFind, p: Seq<char>)
    ensures
        all_paths(tf).contains(p) <==> exists|i: int, j: int|
            0 <= i < tf.len() && 0 <= j < tf[i].1.len() && #[trigger] tf[i].1[j] == p,
    decreases tf.len(),
{
    if tf.len() > 0 {
        let init = tf.drop_last();
        lemma_all_paths(init, p);
        let a = all_paths(init);
        let b = tf.last().1;
        if all_paths(tf).contains(p) {
            let k = choose|k: int| 0 <= k < all_paths(tf).len() && all_paths(tf)[k] == p;
            if k < a.len() {
                assert(a[k] == p);
                let (i, j) = choose|i: int, j: int| 0 <= i < init.len() && 0 <= j < init[i].1.len() && #[trigger] init[i].1[j] == p;
                assert(tf[i] == init[i]);
            } else {
                assert(b[k - a.len()] == p);
                assert(tf[tf.len() - 1].1[k - a.len()] == p);
            }
        }
        if exists|i: int, j: int| 0 <= i < tf.len() && 0 <= j < tf[i].1.len() && #[trigger] tf[i].1[j] == p {
            let (i, j) = choose|i: int, j: int| 0 <= i < tf.len() && 0 <= j < tf[i].1.len() && #[trigger] tf[i].1[j] == p;
            if i < tf.len() - 1 {
                assert(init[i] == tf[i]);
                assert(init[i].1[j] == p);
                assert(a.contains(p));
                let k = choose|k: int| 0 <= k < a.len() && a[k] == p;
                assert(all_paths(tf)[k] == p);
            } else {
                assert(all_paths(tf)[a.len() + j] == p);
            }
        }
    }
}

/// Whether a path is accounted for by a step: restored as extern, or still to be found.
pub open spec fn accounted(s: StepView, p: Seq<char>) -> bool {
    s.externs.contains(p) || all_paths(s.to_find).contains(p)
}

/// Taking the paths of a hash out of the data to find keeps each path either among the
/// taken ones or among the rest.
pub proof fn lemma_take_keeps(tf: ToFind, h: Seq<u8>, p: Seq<char>)
    requires
        all_paths(tf).contains(p),
    ensures
        all_paths(take_key(tf, h)).contains(p) || (lookup(tf, h) matches Some(ps) && ps.contains(p)),
{
    lemma_all_paths(tf, p);
    lemma_key_index(tf, h);
    let (i, j) = choose|i: int, j: int| 0 <= i < tf.len() && 0 <= j < tf[i].1.len() && #[trigger] tf[i].1[j] == p;
    let k = key_index(tf, h);
    if k >= 0 {
        let t = take_key(tf, h);
        if i == k {
            assert(tf[k].1[j] == p);
        } else {
            let i2 = if i < k { i } else { i - 1 };
            assert(t[i2] == tf[i]);
            assert(t[i2].1[j] == p);
            lemma_all_paths(t, p);
        }
    } else {
        lemma_all_paths(take_key(tf, h), p);
        assert(take_key(tf, h)[i].1[j] == p);
    }
}

/// Restoring own files accounts for what was accounted for.
pub proof fn lemma_restore_own_accounts(s: StepView, own: Seq<MetadataItemView>, p: Seq<char>)
    requires
        accounted(s, p),
    ensures
        accounted(restore_own(s, own), p),
    decreases own.len(),
{
    if own.len() > 0 {
        lemma_restore_own_accounts(s, own.drop_last(), p);
        let s0 = restore_own(s, own.drop_last());
        let f = own.last();
        let ps = match lookup(s0.to_find, f.hash) { Some(ps) => ps, None => seq![] };
        let s1 = restore_own(s, own);
        if s0.externs.contains(p) {
            let k = choose|k: int| 0 <= k < s0.externs.len() && s0.externs[k] == p;
            assert(s1.externs[k] == p);
        } else {
            lemma_take_keeps(s0.to_find, f.hash, p);
            if !all_paths(s1.to_find).contains(p) {
                let k = choose|k: int| 0 <= k < ps.len() && ps[k] == p;
                assert(s1.externs[s0.externs.len() + k] == p);
            }
        }
    }
}

/// A step of an older backup accounts for what was accounted for.
pub proof fn lemma_older_step_accounts(s: StepView, items: Seq<MetadataItemView>, p: Seq<char>)
    requires
        accounted(s, p),
    ensures
        accounted(older_step_spec(s, items), p),
    decreases items.len(),
{
    if items.len() > 0 {
        lemma_older_step_accounts(s, items.drop_last(), p);
        let s0 = older_step_spec(s, items.drop_last());
        let f = items.last();
        let s1 = older_step_spec(s, items);
        if f.unique && lookup(s0.to_find, f.hash) is Some {
            let ps = lookup(s0.to_find, f.hash)->Some_0;
            if s0.externs.contains(p) {
                let k = choose|k: int| 0 <= k < s0.externs.len() && s0.externs[k] == p;
                assert(s1.externs[k] == p);
            } else {
                lemma_take_keeps(s0.to_find, f.hash, p);
                if !all_paths(s1.to_find).contains(p) {
                    let k = choose|k: int| 0 <= k < ps.len() && ps[k] == p;
                    assert(s1.externs[s0.externs.len() + k] == p);
                }
            }
        }
    }
}

/// The data to find holds the path of every extern file of the restored backup.
pub proof fn lemma_collect_holds_externs(items: Seq<MetadataItemView>, k: int)
    requires
        0 <= k < items.len(),
        !holds_data(items[k]),
    ensures
        all_paths(collect_to_find(items)).contains(items[k].path),
    decreases items.len(),
{
    let tf0 = collect_to_find(items.drop_last());
    let f = items.last();
    let p = items[k].path;
    lemma_key_index(tf0, f.hash);
    if k < items.len() - 1 {
        assert(items.drop_last()[k] == items[k]);
        lemma_collect_holds_externs(items.drop_last(), k);
        if !holds_data(f) {
            // Adding a path keeps the others.
            lemma_all_paths(tf0, p);
            let (i, j) = choose|i: int, j: int| 0 <= i < tf0.len() && 0 <= j < tf0[i].1.len() && #[trigger] tf0[i].1[j] == p;
            let tf1 = collect_to_find(items);
            let ki = key_index(tf0, f.hash);
            if ki >= 0 && i == ki {
                assert(tf1[i].1[j] == p);
            } else {
                assert(tf1[i] == tf0[i]);
                assert(tf1[i].1[j] == p);
            }
            lemma_all_paths(tf1, p);
        }
    } else {
        let tf1 = collect_to_find(items);
        let ki = key_index(tf0, f.hash);
        if ki >= 0 {
            let ps = tf0[ki].1;
            assert(tf1[ki].1[ps.len() as int] == p);
        } else {
            assert(tf1[tf0.len() as int].1[0] == p);
        }
        lemma_all_paths(tf1, p);
    }
}

/// The accounting of a started plan: its extern files and the data it still has to find.
pub open spec fn plan_accounts(pv: PlanView, p: Seq<char>) -> bool {
    pv.externs.contains(p) || all_paths(pv.to_find).contains(p)
}

/// A restore accounts for every file of the restored backup that does not hold its own
/// data: it is restored from the data of an older backup (an extern file of the plan), or
/// reported as missing (its data is still to be found at the end).
pub proof fn lemma_restore_accounts_for_all_files(names: Seq<Seq<char>>, metas: Seq<Seq<MetadataItemView>>, target: Seq<char>)
    requires
        metas.len() == names.len(),
    ensures
        plan_fold(names, metas, target).started ==> exists|k: int| 0 <= k < names.len() && names[k] == target
            && forall|j: int| 0 <= j < metas[k].len() && !holds_data(#[trigger] metas[k][j])
                ==> plan_accounts(plan_fold(names, metas, target), metas[k][j].path),
    decreases names.len(),
{
    if names.len() > 0 {
        let n = names.len() - 1;
        let init_names = names.drop_last();
        let init_metas = metas.take(n);
        lemma_restore_accounts_for_all_files(init_names, init_metas, target);
        let p0 = plan_fold(init_names, init_metas, target);
        let pv = plan_fold(names, metas, target);
        if p0.done {
            if p0.started {
                let k = choose|k: int| 0 <= k < init_names.len() && init_names[k] == target
                    && forall|j: int| 0 <= j < init_metas[k].len() && !holds_data(#[trigger] init_metas[k][j])
                        ==> plan_accounts(p0, init_metas[k][j].path);
                assert(names[k] == target && metas[k] == init_metas[k]);
            }
        } else if !p0.started {
            if names[n] == target {
                let items = metas[n];
                assert forall|j: int| 0 <= j < metas[n].len() && !holds_data(#[trigger] metas[n][j])
                    implies plan_accounts(pv, metas[n][j].path) by {
                    lemma_collect_holds_externs(items, j);
                    let start = StepView { files: seq![], to_find: collect_to_find(items), externs: seq![] };
                    lemma_restore_own_accounts(start, own_files(items), items[j].path);
                }
            }
        } else if p0.to_find.len() == 0 {
            let k = choose|k: int| 0 <= k < init_names.len() && init_names[k] == target
                && forall|j: int| 0 <= j < init_metas[k].len() && !holds_data(#[trigger] init_metas[k][j])
                    ==> plan_accounts(p0, init_metas[k][j].path);
            assert(names[k] == target && metas[k] == init_metas[k]);
        } else {
            let k = choose|k: int| 0 <= k < init_names.len() && init_names[k] == target
                && forall|j: int| 0 <= j < init_metas[k].len() && !holds_data(#[trigger] init_metas[k][j])
                    ==> plan_accounts(p0, init_metas[k][j].path);
            assert(names[k] == target && metas[k] == init_metas[k]);
            let start = StepView { files: seq![], to_find: p0.to_find, externs: seq![] };
            let st = older_step_spec(start, metas[n]);
            assert forall|j: int| 0 <= j < metas[k].len() && !holds_data(#[trigger] metas[k][j])
                implies plan_accounts(pv, metas[k][j].path) by {
                let p = metas[k][j].path;
                assert(init_metas[k][j] == metas[k][j]);
                assert(plan_accounts(p0, p));
                if p0.externs.contains(p) {
                    let i = choose|i: int| 0 <= i < p0.externs.len() && p0.externs[i] == p;
                    assert(pv.externs[i] == p);
                } else {
                    lemma_older_step_accounts(start, metas[n], p);
                    if st.externs.contains(p) {
                        let i = choose|i: int| 0 <= i < st.externs.len() && st.externs[i] == p;
                        assert(pv.externs[p0.externs.len() + i] == p);
                    }
                }
            }
        }
    }
}


/// Whether a path is that of an extern file (one that does not hold its data) of the given
/// data among some items.
pub open spec fn extern_item(items: Seq<MetadataItemView>, p: Seq<char>, h: Seq<u8>) -> bool {
    exists|j: int| 0 <= j < items.len() && !holds_data(#[trigger] items[j]) && items[j].path == p && items[j].hash == h
}

/// Whether every path of the data to find is that of an extern file of that data.
pub open spec fn finds_externs(tf: ToFind, items: Seq<MetadataItemView>) -> bool {
    forall|i: int, k: int| 0 <= i < tf.len() && 0 <= k < tf[i].1.len() ==> extern_item(items, #[trigger] tf[i].1[k], tf[i].0)
}

/// Whether every extern file that a step reports as restored is among the paths of a file
/// of the step restored from the data of that extern file.
pub open spec fn writes_externs(s: StepView, items: Seq<MetadataItemView>) -> bool {
    forall|p: Seq<char>| #[trigger] s.externs.contains(p) ==> exists|i: int|
        0 <= i < s.files.len() && (#[trigger] s.files[i]).1.2.contains(p) && extern_item(items, p, s.files[i].1.0)
}

/// Whether every path at which a file of a step is restored, other than its own (last) one,
/// is reported as an extern file that the step restores.
pub open spec fn reports_written(s: StepView) -> bool {
    forall|i: int, k: int| 0 <= i < s.files.len() && 0 <= k < s.files[i].1.2.len() - 1
        ==> s.externs.contains(#[trigger] s.files[i].1.2[k])
}

/// Whether each file of a step is restored (last) at its own path.
pub open spec fn own_path_last(files: FilesToRestore) -> bool {
    forall|i: int| 0 <= i < files.len() ==> (#[trigger] files[i]).1.2.len() > 0 && files[i].1.2.last() == files[i].0
}

/// Whether no two items have the same path.
pub open spec fn distinct_paths(items: Seq<MetadataItemView>) -> bool {
    forall|i: int, j: int| 0 <= i < j < items.len() ==> (#[trigger] items[i]).path != (#[trigger] items[j]).path
}

proof fn lemma_upsert_from<K, V>(s: Seq<(K, V)>, k: K, v: V)
    ensures
        forall|i: int| 0 <= i < upsert(s, k, v).len() ==> #[trigger] upsert(s, k, v)[i] == (k, v)
            || exists|j: int| 0 <= j < s.len() && upsert(s, k, v)[i] == s[j],
        key_index(s, k) < 0 ==> upsert(s, k, v) == s.push((k, v)),
{
    lemma_key_index(s, k);
    let u = upsert(s, k, v);
    assert forall|i: int| 0 <= i < u.len() implies #[trigger] u[i] == (k, v)
        || exists|j: int| 0 <= j < s.len() && u[i] == s[j] by {
        if i < s.len() && u[i] != (k, v) {
            assert(u[i] == s[i]);
        }
    }
}

proof fn lemma_take_from<K, V>(s: Seq<(K, V)>, k: K)
    ensures
        forall|i: int| 0 <= i < take_key(s, k).len() ==> exists|j: int| 0 <= j < s.len() && #[trigger] take_key(s, k)[i] == s[j],
{
    lemma_key_index(s, k);
    let t = take_key(s, k);
    let x = key_index(s, k);
    assert forall|i: int| 0 <= i < t.len() implies exists|j: int| 0 <= j < s.len() && #[trigger] t[i] == s[j] by {
        if x >= 0 && i >= x {
            assert(t[i] == s[i + 1]);
        } else {
            assert(t[i] == s[i]);
        }
    }
}

/// The data to find of the restored backup holds only paths of its extern files.
proof fn lemma_collect_finds_externs(items: Seq<MetadataItemView>)
    ensures
        finds_externs(collect_to_find(items), items),
    decreases items.len(),
{
    if items.len() > 0 {
        let init = items.drop_last();
        let f = items.last();
        lemma_collect_finds_externs(init);
        let tf0 = collect_to_find(init);
        let m = items.len() - 1;
        assert(items[m] == f);
        assert forall|p: Seq<char>, h: Seq<u8>| extern_item(init, p, h) implies extern_item(items, p, h) by {
            let j = choose|j: int| 0 <= j < init.len() && !holds_data(#[trigger] init[j]) && init[j].path == p && init[j].hash == h;
            assert(items[j] == init[j]);
        }
        if !holds_data(f) {
            let v = match lookup(tf0, f.hash) { Some(ps) => ps.push(f.path), None => seq![f.path] };
            let tf = collect_to_find(items);
            lemma_upsert_from(tf0, f.hash, v);
            lemma_key_index(tf0, f.hash);
            assert forall|i: int, k: int| 0 <= i < tf.len() && 0 <= k < tf[i].1.len() implies extern_item(items, #[trigger] tf[i].1[k], tf[i].0) by {
                if tf[i] == (f.hash, v) {
                    if k == v.len() - 1 {
                        assert(v[k] == f.path);
                    } else {
                        let x = key_index(tf0, f.hash);
                        assert(v[k] == tf0[x].1[k]);
                        assert(extern_item(init, tf0[x].1[k], tf0[x].0));
                    }
                } else {
                    let j = choose|j: int| 0 <= j < tf0.len() && tf[i] == tf0[j];
                    assert(extern_item(init, tf0[j].1[k], tf0[j].0));
                }
            }
        }
    }
}

/// Restoring own files (with paths of their own) writes every extern file that it reports,
/// from the data of that file, and restores each at its own path last.
/// Whether a path is that of a file among some files to restore or of one of some items.
pub open spec fn key_from(p: Seq<char>, files: FilesToRestore, own: Seq<MetadataItemView>) -> bool {
    (exists|j: int| 0 <= j < files.len() && p == (#[trigger] files[j]).0)
        || (exists|j: int| 0 <= j < own.len() && p == (#[trigger] own[j]).path)
}

proof fn lemma_restore_own_writes(s: StepView, own: Seq<MetadataItemView>, items: Seq<MetadataItemView>)
    requires
        finds_externs(s.to_find, items),
        writes_externs(s, items),
        reports_written(s),
        own_path_last(s.files),
        distinct_paths(own),
        forall|i: int, j: int| 0 <= i < s.files.len() && 0 <= j < own.len() ==> (#[trigger] s.files[i]).0 != (#[trigger] own[j]).path,
    ensures
        finds_externs(restore_own(s, own).to_find, items),
        writes_externs(restore_own(s, own), items),
        reports_written(restore_own(s, own)),
        own_path_last(restore_own(s, own).files),
        forall|i: int| 0 <= i < restore_own(s, own).files.len() ==> key_from((#[trigger] restore_own(s, own).files[i]).0, s.files, own),
    decreases own.len(),
{
    if own.len() > 0 {
        let init = own.drop_last();
        let f = own.last();
        let m = own.len() - 1;
        assert(own[m] == f);
        assert forall|i: int, j: int| 0 <= i < j < init.len() implies (#[trigger] init[i]).path != (#[trigger] init[j]).path by {
            assert(init[i] == own[i] && init[j] == own[j]);
        }
        assert forall|i: int, j: int| 0 <= i < s.files.len() && 0 <= j < init.len() implies (#[trigger] s.files[i]).0 != (#[trigger] init[j]).path by {
            assert(init[j] == own[j]);
        }
        lemma_restore_own_writes(s, init, items);
        let s0 = restore_own(s, init);
        let r = restore_own(s, own);
        lemma_key_index(s0.files, f.path);
        assert(key_index(s0.files, f.path) < 0) by {
            let x = key_index(s0.files, f.path);
            if x >= 0 {
                assert(s0.files[x].0 == f.path);
                assert(key_from(s0.files[x].0, s.files, init));
                if exists|j: int| 0 <= j < s.files.len() && s0.files[x].0 == (#[trigger] s.files[j]).0 {
                    let j = choose|j: int| 0 <= j < s.files.len() && s0.files[x].0 == (#[trigger] s.files[j]).0;
                    assert(s.files[j].0 != own[m].path);
                } else {
                    let j = choose|j: int| 0 <= j < init.len() && s0.files[x].0 == (#[trigger] init[j]).path;
                    assert(init[j] == own[j]);
                    assert(own[j].path != own[m].path);
                }
            }
        }
        let ps = match lookup(s0.to_find, f.hash) { Some(ps) => ps, None => seq![] };
        let entry = (f.path, (f.hash, f.size, ps.push(f.path)));
        lemma_upsert_from(s0.files, f.path, (f.hash, f.size, ps.push(f.path)));
        assert(r.files == s0.files.push(entry));
        lemma_key_index(s0.to_find, f.hash);
        lemma_take_from(s0.to_find, f.hash);
        assert forall|i: int, k: int| 0 <= i < r.to_find.len() && 0 <= k < r.to_find[i].1.len() implies extern_item(items, #[trigger] r.to_find[i].1[k], r.to_find[i].0) by {
            let j = choose|j: int| 0 <= j < s0.to_find.len() && r.to_find[i] == s0.to_find[j];
            assert(extern_item(items, s0.to_find[j].1[k], s0.to_find[j].0));
        }
        assert forall|p: Seq<char>| #[trigger] r.externs.contains(p) implies exists|i: int|
            0 <= i < r.files.len() && (#[trigger] r.files[i]).1.2.contains(p) && extern_item(items, p, r.files[i].1.0) by {
            let q = choose|q: int| 0 <= q < r.externs.len() && r.externs[q] == p;
            if q < s0.externs.len() {
                assert(s0.externs[q] == p);
                assert(s0.externs.contains(p));
                let i = choose|i: int| 0 <= i < s0.files.len() && (#[trigger] s0.files[i]).1.2.contains(p) && extern_item(items, p, s0.files[i].1.0);
                assert(r.files[i] == s0.files[i]);
            } else {
                let k = q - s0.externs.len();
                assert(ps[k] == p);
                let x = key_index(s0.to_find, f.hash);
                assert(x >= 0);
                assert(ps == s0.to_find[x].1);
                assert(extern_item(items, s0.to_find[x].1[k], s0.to_find[x].0));
                let n = s0.files.len() as int;
                assert(r.files[n] == entry);
                assert(ps.push(f.path)[k] == p);
            }
        }
        assert forall|i: int, k: int| 0 <= i < r.files.len() && 0 <= k < r.files[i].1.2.len() - 1
            implies r.externs.contains(#[trigger] r.files[i].1.2[k]) by {
            if i < s0.files.len() {
                assert(r.files[i] == s0.files[i]);
                let x = s0.files[i].1.2[k];
                assert(s0.externs.contains(x));
                let q = choose|q: int| 0 <= q < s0.externs.len() && s0.externs[q] == x;
                assert(r.externs[q] == x);
            } else {
                assert(r.files[i] == entry);
                assert(ps.push(f.path)[k] == ps[k]);
                assert(r.externs[s0.externs.len() + k] == ps[k]);
            }
        }
        assert forall|i: int| 0 <= i < r.files.len() implies (#[trigger] r.files[i]).1.2.len() > 0 && r.files[i].1.2.last() == r.files[i].0 by {
            if i < s0.files.len() {
                assert(r.files[i] == s0.files[i]);
            }
        }
        assert forall|i: int| 0 <= i < r.files.len() implies key_from((#[trigger] r.files[i]).0, s.files, own) by {
            if i < s0.files.len() {
                assert(r.files[i] == s0.files[i]);
                assert(key_from(s0.files[i].0, s.files, init));
                if !(exists|j: int| 0 <= j < s.files.len() && s0.files[i].0 == (#[trigger] s.files[j]).0) {
                    let j = choose|j: int| 0 <= j < init.len() && s0.files[i].0 == (#[trigger] init[j]).path;
                    assert(init[j] == own[j]);
                }
            } else {
                assert(r.files[i].0 == own[m].path);
            }
        }
    } else {
        assert forall|i: int| 0 <= i < restore_own(s, own).files.len() implies key_from((#[trigger] restore_own(s, own).files[i]).0, s.files, own) by {
            assert(restore_own(s, own).files[i].0 == s.files[i].0);
        }
    }
}

/// The files of the restored backup that hold their data are some of its items, in order.
proof fn lemma_own_files_distinct(items: Seq<MetadataItemView>)
    requires
        distinct_paths(items),
    ensures
        distinct_paths(own_files(items)),
        forall|i: int| 0 <= i < own_files(items).len() ==> exists|j: int| 0 <= j < items.len() && #[trigger] own_files(items)[i] == items[j],
    decreases items.len(),
{
    if items.len() > 0 {
        let init = items.drop_last();
        let m = items.len() - 1;
        assert forall|i: int, j: int| 0 <= i < j < init.len() implies (#[trigger] init[i]).path != (#[trigger] init[j]).path by {
            assert(init[i] == items[i] && init[j] == items[j]);
        }
        lemma_own_files_distinct(init);
        let o0 = own_files(init);
        let o = own_files(items);
        assert forall|i: int| 0 <= i < o0.len() implies exists|j: int| 0 <= j < m && #[trigger] o0[i] == items[j] by {
            let j = choose|j: int| 0 <= j < init.len() && o0[i] == init[j];
            assert(init[j] == items[j]);
        }
        if holds_data(items.last()) {
            assert forall|i: int| 0 <= i < o.len() implies exists|j: int| 0 <= j < items.len() && #[trigger] o[i] == items[j] by {
                if i < o0.len() {
                    assert(o[i] == o0[i]);
                } else {
                    assert(o[i] == items[m]);
                }
            }
            assert forall|i: int, j: int| 0 <= i < j < o.len() implies (#[trigger] o[i]).path != (#[trigger] o[j]).path by {
                if j < o0.len() {
                    assert(o[i] == o0[i] && o[j] == o0[j]);
                } else {
                    assert(o[i] == o0[i]);
                    let a = choose|a: int| 0 <= a < m && o0[i] == items[a];
                    assert(items[a].path != items[m].path);
                }
            }
        } else {
            assert forall|i: int| 0 <= i < o.len() implies exists|j: int| 0 <= j < items.len() && #[trigger] o[i] == items[j] by {
                let j = choose|j: int| 0 <= j < m && o0[i] == items[j];
            }
        }
    }
}

/// The first step of a restore (of a backup whose files have paths of their own) writes
/// every extern file that it reports as restored: the file is among the paths of a file of
/// the step that is restored from the data of that extern file. Each file of the step is
/// restored (last) at its own path, and at no other path than extern files it reports.
pub proof fn lemma_first_step_writes_externs(items: Seq<MetadataItemView>)
    requires
        distinct_paths(items),
    ensures
        writes_externs(first_step_spec(items), items),
        reports_written(first_step_spec(items)),
        own_path_last(first_step_spec(items).files),
        finds_externs(first_step_spec(items).to_find, items),
{
    let start = StepView { files: seq![], to_find: collect_to_find(items), externs: seq![] };
    lemma_collect_finds_externs(items);
    lemma_own_files_distinct(items);
    lemma_restore_own_writes(start, own_files(items), items);
}


/// A step of an older backup (whose files have paths of their own) writes every extern file
/// that it reports, from the data of that file.
proof fn lemma_older_step_writes(s: StepView, items: Seq<MetadataItemView>, target: Seq<MetadataItemView>)
    requires
        finds_externs(s.to_find, target),
        writes_externs(s, target),
        distinct_paths(items),
        forall|i: int, j: int| 0 <= i < s.files.len() && 0 <= j < items.len() ==> (#[trigger] s.files[i]).0 != (#[trigger] items[j]).path,
    ensures
        finds_externs(older_step_spec(s, items).to_find, target),
        writes_externs(older_step_spec(s, items), target),
        forall|i: int| 0 <= i < older_step_spec(s, items).files.len() ==> key_from((#[trigger] older_step_spec(s, items).files[i]).0, s.files, items),
    decreases items.len(),
{
    if items.len() > 0 {
        let init = items.drop_last();
        let f = items.last();
        let m = items.len() - 1;
        assert(items[m] == f);
        assert forall|i: int, j: int| 0 <= i < j < init.len() implies (#[trigger] init[i]).path != (#[trigger] init[j]).path by {
            assert(init[i] == items[i] && init[j] == items[j]);
        }
        assert forall|i: int, j: int| 0 <= i < s.files.len() && 0 <= j < init.len() implies (#[trigger] s.files[i]).0 != (#[trigger] init[j]).path by {
            assert(init[j] == items[j]);
        }
        lemma_older_step_writes(s, init, target);
        let s0 = older_step_spec(s, init);
        let r = older_step_spec(s, items);
        assert forall|i: int| 0 <= i < s0.files.len() implies key_from((#[trigger] s0.files[i]).0, s.files, items) by {
            assert(key_from(s0.files[i].0, s.files, init));
            if !(exists|j: int| 0 <= j < s.files.len() && s0.files[i].0 == (#[trigger] s.files[j]).0) {
                let j = choose|j: int| 0 <= j < init.len() && s0.files[i].0 == (#[trigger] init[j]).path;
                assert(init[j] == items[j]);
            }
        }
        if f.unique && lookup(s0.to_find, f.hash) is Some {
            let ps = lookup(s0.to_find, f.hash)->Some_0;
            lemma_key_index(s0.files, f.path);
            assert(key_index(s0.files, f.path) < 0) by {
                let x = key_index(s0.files, f.path);
                if x >= 0 {
                    assert(key_from(s0.files[x].0, s.files, init));
                    if exists|j: int| 0 <= j < s.files.len() && s0.files[x].0 == (#[trigger] s.files[j]).0 {
                        let j = choose|j: int| 0 <= j < s.files.len() && s0.files[x].0 == (#[trigger] s.files[j]).0;
                        assert(s.files[j].0 != items[m].path);
                    } else {
                        let j = choose|j: int| 0 <= j < init.len() && s0.files[x].0 == (#[trigger] init[j]).path;
                        assert(init[j] == items[j]);
                        assert(items[j].path != items[m].path);
                    }
                }
            }
            let entry = (f.path, (f.hash, f.size, ps));
            lemma_upsert_from(s0.files, f.path, (f.hash, f.size, ps));
            assert(r.files == s0.files.push(entry));
            lemma_key_index(s0.to_find, f.hash);
            lemma_take_from(s0.to_find, f.hash);
            assert forall|i: int, k: int| 0 <= i < r.to_find.len() && 0 <= k < r.to_find[i].1.len() implies extern_item(target, #[trigger] r.to_find[i].1[k], r.to_find[i].0) by {
                let j = choose|j: int| 0 <= j < s0.to_find.len() && r.to_find[i] == s0.to_find[j];
                assert(extern_item(target, s0.to_find[j].1[k], s0.to_find[j].0));
            }
            assert forall|p: Seq<char>| #[trigger] r.externs.contains(p) implies exists|i: int|
                0 <= i < r.files.len() && (#[trigger] r.files[i]).1.2.contains(p) && extern_item(target, p, r.files[i].1.0) by {
                let q = choose|q: int| 0 <= q < r.externs.len() && r.externs[q] == p;
                if q < s0.externs.len() {
                    assert(s0.externs[q] == p);
                    assert(s0.externs.contains(p));
                    let i = choose|i: int| 0 <= i < s0.files.len() && (#[trigger] s0.files[i]).1.2.contains(p) && extern_item(target, p, s0.files[i].1.0);
                    assert(r.files[i] == s0.files[i]);
                } else {
                    let k = q - s0.externs.len();
                    assert(ps[k] == p);
                    let x = key_index(s0.to_find, f.hash);
                    assert(ps == s0.to_find[x].1);
                    assert(extern_item(target, s0.to_find[x].1[k], s0.to_find[x].0));
                    assert(r.files[s0.files.len() as int] == entry);
                }
            }
            assert forall|i: int| 0 <= i < r.files.len() implies key_from((#[trigger] r.files[i]).0, s.files, items) by {
                if i < s0.files.len() {
                    assert(r.files[i] == s0.files[i]);
                } else {
                    assert(r.files[i].0 == items[m].path);
                }
            }
        }
    } else {
        assert forall|i: int| 0 <= i < older_step_spec(s, items).files.len() implies key_from((#[trigger] older_step_spec(s, items).files[i]).0, s.files, items) by {
            assert(older_step_spec(s, items).files[i].0 == s.files[i].0);
        }
    }
}

/// Whether every extern file that a plan restores is among the paths of a file of one of its
/// steps, restored from the data of that extern file (of the given restored backup).
pub open spec fn plan_writes_externs(pv: PlanView, target: Seq<MetadataItemView>) -> bool {
    forall|p: Seq<char>| #[trigger] pv.externs.contains(p) ==> exists|i: int, j: int|
        0 <= i < pv.steps.len() && 0 <= j < pv.steps[i].1.len() && (#[trigger] pv.steps[i].1[j]).1.2.contains(p)
            && extern_item(target, p, pv.steps[i].1[j].1.0)
}

/// A restore plan (of backups whose files have paths of their own) writes every extern file
/// that it reports as restored: each is among the paths of a file of one of its steps that is
/// restored from the data of that extern file of the restored backup.
pub proof fn lemma_plan_writes_externs(names: Seq<Seq<char>>, metas: Seq<Seq<MetadataItemView>>, target: Seq<char>)
    requires
        metas.len() == names.len(),
        forall|k: int| 0 <= k < metas.len() ==> distinct_paths(#[trigger] metas[k]),
    ensures
        plan_fold(names, metas, target).started ==> exists|k: int| 0 <= k < names.len() && names[k] == target && {
            let pv = plan_fold(names, metas, target);
            &&& plan_writes_externs(pv, metas[k])
            &&& finds_externs(pv.to_find, metas[k])
        },
    decreases names.len(),
{
    if names.len() > 0 {
        let n = names.len() - 1;
        let ni = names.drop_last();
        let mi = metas.take(n);
        assert forall|k: int| 0 <= k < mi.len() implies distinct_paths(#[trigger] mi[k]) by {
            assert(mi[k] == metas[k]);
        }
        lemma_plan_writes_externs(ni, mi, target);
        let p0 = plan_fold(ni, mi, target);
        let pv = plan_fold(names, metas, target);
        let items = metas[n];
        assert(distinct_paths(metas[n]));
        if p0.started {
            let k = choose|k: int| 0 <= k < ni.len() && ni[k] == target && {
                &&& plan_writes_externs(p0, mi[k])
                &&& finds_externs(p0.to_find, mi[k])
            };
            assert(names[k] == target && metas[k] == mi[k]);
            let t = metas[k];
            if p0.done || p0.to_find.len() == 0 {
                assert(pv.externs == p0.externs && pv.steps == p0.steps && pv.to_find == p0.to_find);
                assert(plan_writes_externs(pv, t));
            }
            if !p0.done && p0.to_find.len() > 0 {
                let start = StepView { files: seq![], to_find: p0.to_find, externs: seq![] };
                lemma_older_step_writes(start, items, t);
                let st = older_step_spec(start, items);
                assert forall|p: Seq<char>| #[trigger] pv.externs.contains(p) implies exists|i: int, j: int|
                    0 <= i < pv.steps.len() && 0 <= j < pv.steps[i].1.len() && (#[trigger] pv.steps[i].1[j]).1.2.contains(p)
                        && extern_item(t, p, pv.steps[i].1[j].1.0) by {
                    let q = choose|q: int| 0 <= q < pv.externs.len() && pv.externs[q] == p;
                    if q < p0.externs.len() {
                        assert(p0.externs[q] == p);
                        assert(p0.externs.contains(p));
                        let (i, j) = choose|i: int, j: int|
                            0 <= i < p0.steps.len() && 0 <= j < p0.steps[i].1.len() && (#[trigger] p0.steps[i].1[j]).1.2.contains(p)
                                && extern_item(t, p, p0.steps[i].1[j].1.0);
                        assert(pv.steps[i] == p0.steps[i]);
                        assert(pv.steps[i].1[j] == p0.steps[i].1[j]);
                    } else {
                        assert(st.externs[q - p0.externs.len()] == p);
                        assert(st.externs.contains(p));
                        let j = choose|j: int| 0 <= j < st.files.len() && (#[trigger] st.files[j]).1.2.contains(p) && extern_item(t, p, st.files[j].1.0);
                        let i = p0.steps.len() as int;
                        assert(st.files.len() > 0);
                        assert(pv.steps == p0.steps.push((names[n], st.files)));
                        assert(pv.steps[i] == (names[n], st.files));
                        assert(pv.steps[i].1[j] == st.files[j]);
                    }
                }
            }
        } else if names[n] == target {
            lemma_not_started(ni, mi, target);
            lemma_first_step_writes_externs(items);
            let fs = first_step_spec(items);
            assert forall|p: Seq<char>| #[trigger] pv.externs.contains(p) implies exists|i: int, j: int|
                0 <= i < pv.steps.len() && 0 <= j < pv.steps[i].1.len() && (#[trigger] pv.steps[i].1[j]).1.2.contains(p)
                    && extern_item(items, p, pv.steps[i].1[j].1.0) by {
                assert(fs.externs.contains(p));
                let j = choose|j: int| 0 <= j < fs.files.len() && (#[trigger] fs.files[j]).1.2.contains(p) && extern_item(items, p, fs.files[j].1.0);
                assert(pv.steps[0] == (names[n], fs.files));
                assert(pv.steps[0].1[j] == fs.files[j]);
            }
            assert(names[n] == target && metas[n] == items);
            assert(plan_writes_externs(pv, metas[n]));
            assert(finds_externs(pv.to_find, metas[n]));
        }
    }
}

} // verus!
