//! What the restorer decides on its own: what each entry of a backup's data archive
//! becomes, which extern files are pending, restored or missing, how restored data is
//! checked, and which directories are created on the way.

use vstd::prelude::*;
use vstd::hash_set::StringHashSet;

use crate::logging::{Level, LogRecord, extends};
use crate::paths::{Component, components, restore_path_spec};
use crate::text::{debug_quoted, debug_str};

verus! {

/// The kind of an archive entry.
#[derive(Clone, Copy, Debug, PartialEq, Eq, Structural)]
pub enum EntryKind {
    Directory,
    Regular,
    Symlink,
    Other,
}

/// What to do with an archive entry.
#[derive(Clone, Copy, Debug, PartialEq, Eq, Structural)]
pub enum EntryAction {
    /// Nothing.
    Skip,
    /// Create the directory (unless it was created before), then set its metadata at the end.
    Directory { create: bool },
    /// Restore the file's data at its paths.
    RestoreFiles,
    /// Set the file's metadata at the end (its data comes from another backup).
    ScheduleMetadata,
    /// Create the symbolic link.
    Symlink,
}

/// What the restorer knows of extern files and created directories.
pub struct RestoreState {
    /// Extern files whose data is still to come from an older backup.
    pub pending: StringHashSet,
    /// Extern files whose data has been restored.
    pub restored: StringHashSet,
    /// Extern files whose data no backup holds.
    pub missing: StringHashSet,
    /// Directories created on the way to a file before their archive entry came.
    pub pre_created: StringHashSet,
}

/// The action of an entry, as values.
pub open spec fn entry_action_spec(
    kind: EntryKind,
    in_step: bool,
    is_target: bool,
    pending: bool,
    restored: bool,
    pre_created: bool,
) -> EntryAction {
    match kind {
        EntryKind::Directory => if is_target { EntryAction::Directory { create: !pre_created } } else { EntryAction::Skip },
        EntryKind::Regular => if in_step {
            EntryAction::RestoreFiles
        } else if is_target && (pending || restored) {
            EntryAction::ScheduleMetadata
        } else {
            EntryAction::Skip
        },
        EntryKind::Symlink => if is_target { EntryAction::Symlink } else { EntryAction::Skip },
        EntryKind::Other => EntryAction::Skip,
    }
}

/// Whether an entry is wrong: data for a file that is extern, or a file that the plan does
/// not know of.
pub open spec fn entry_problem_spec(
    kind: EntryKind,
    size: u64,
    in_step: bool,
    is_target: bool,
    pending: bool,
    restored: bool,
    missing: bool,
) -> bool {
    kind == EntryKind::Regular && !in_step && is_target
        && (if pending || restored { size != 0 } else { !missing })
}

/// The set of some paths.
fn set_of(paths: Vec<String>) -> (r: StringHashSet)
    ensures
        r@ == paths@.map_values(|p: String| p@).to_set(),
{
    let mut r = StringHashSet::new();
    let ghost pv = paths@.map_values(|p: String| p@);
    let mut i: usize = 0;
    assert(pv.take(0).to_set() =~= Set::<Seq<char>>::empty());
    while i < paths.len()
        invariant
            i <= paths.len(),
            pv == paths@.map_values(|p: String| p@),
            r@ == pv.take(i as int).to_set(),
        decreases paths.len() - i,
    {
        r.insert(crate::text::copy_string(paths[i].as_str()));
        proof {
            assert(pv.take(i + 1) =~= pv.take(i as int).push(pv[i as int]));
            assert(pv.take(i + 1).to_set() =~= pv.take(i as int).to_set().insert(pv[i as int])) by {
                broadcast use vstd::seq_lib::group_seq_properties;
            }
        }
        i = i + 1;
    }
    assert(pv.take(i as int) =~= pv);
    r
}

impl RestoreState {
    /// A state with the extern files of a plan pending and its missing files known.
    pub fn new(pending: Vec<String>, missing: Vec<String>) -> (r: RestoreState)
        ensures
            r.pending@ == pending@.map_values(|p: String| p@).to_set(),
            r.missing@ == missing@.map_values(|p: String| p@).to_set(),
            r.restored@ == Set::<Seq<char>>::empty(),
            r.pre_created@ == Set::<Seq<char>>::empty(),
    {
        RestoreState { pending: set_of(pending), restored: StringHashSet::new(), missing: set_of(missing), pre_created: StringHashSet::new() }
    }

    /// Decides on an archive entry of the given kind and size at `file_path`: `in_step` if
    /// the step restores its data, `is_target` for the restored backup itself. A directory
    /// created on the way is taken out of the created ones. Problems are logged; returns the
    /// action and whether nothing was wrong, or an error for an unsupported entry.
    pub fn on_entry(
        &mut self,
        kind: EntryKind,
        size: u64,
        file_path: &str,
        in_step: bool,
        is_target: bool,
        log: &mut Vec<LogRecord>,
    ) -> (r: Result<(EntryAction, bool), String>)
        ensures
            extends(final(log)@, old(log)@),
            kind == EntryKind::Other ==> (r matches Err(e) && e@ == "Got an unsupported archive entry: "@ + debug_quoted(file_path@)),
            kind != EntryKind::Other ==> r == Ok::<(EntryAction, bool), String>((
                entry_action_spec(kind, in_step, is_target, old(self).pending@.contains(file_path@),
                    old(self).restored@.contains(file_path@), old(self).pre_created@.contains(file_path@)),
                !entry_problem_spec(kind, size, in_step, is_target, old(self).pending@.contains(file_path@),
                    old(self).restored@.contains(file_path@), old(self).missing@.contains(file_path@)),
            )),
            final(self).pending@ == old(self).pending@,
            final(self).restored@ == old(self).restored@,
            final(self).missing@ == old(self).missing@,
            final(self).pre_created@ == (if kind == EntryKind::Directory && is_target {
                old(self).pre_created@.remove(file_path@)
            } else {
                old(self).pre_created@
            }),
    {
        match kind {
            EntryKind::Directory => {
                if !is_target {
                    return Ok((EntryAction::Skip, true));
                }
                let was_created = self.pre_created.remove(file_path);
                Ok((EntryAction::Directory { create: !was_created }, true))
            },
            EntryKind::Regular => {
                if in_step {
                    return Ok((EntryAction::RestoreFiles, true));
                }
                if !is_target {
                    return Ok((EntryAction::Skip, true));
                }
                if self.pending.contains(file_path) || self.restored.contains(file_path) {
                    let mut ok = true;
                    if size != 0 {
                        let mut m = String::from_str("The backup archive has data for ");
                        m.append(debug_str(file_path).as_str());
                        m.append(" file which is expected to be external.");
                        crate::logging::log(log, Level::Error, m);
                        ok = false;
                    }
                    Ok((EntryAction::ScheduleMetadata, ok))
                } else if !self.missing.contains(file_path) {
                    let mut m = String::from_str("The backup archive contains an unexpected ");
                    m.append(debug_str(file_path).as_str());
                    m.append(" file. Ignore it.");
                    crate::logging::log(log, Level::Error, m);
                    Ok((EntryAction::Skip, false))
                } else {
                    Ok((EntryAction::Skip, true))
                }
            },
            EntryKind::Symlink => {
                if is_target { Ok((EntryAction::Symlink, true)) } else { Ok((EntryAction::Skip, true)) }
            },
            EntryKind::Other => {
                let mut m = String::from_str("Got an unsupported archive entry: ");
                m.append(debug_str(file_path).as_str());
                Err(m)
            },
        }
    }

    /// An extern file whose data was restored: no longer pending.
    pub fn mark_restored(&mut self, path: &str)
        ensures
            final(self).pending@ == old(self).pending@.remove(path@),
            final(self).restored@ == old(self).restored@.insert(path@),
            final(self).missing@ == old(self).missing@,
            final(self).pre_created@ == old(self).pre_created@,
    {
        self.pending.remove(path);
        self.restored.insert(String::from_str(path));
    }

    /// Directories created on the way to a file.
    pub fn add_pre_created(&mut self, paths: Vec<String>)
        ensures
            final(self).pre_created@ == old(self).pre_created@ + paths@.map_values(|p: String| p@).to_set(),
            final(self).pending@ == old(self).pending@,
            final(self).restored@ == old(self).restored@,
            final(self).missing@ == old(self).missing@,
    {
        let ghost start = self.pre_created@;
        let ghost pv = paths@.map_values(|p: String| p@);
        let mut i: usize = 0;
        assert(start + pv.take(0).to_set() =~= start);
        while i < paths.len()
            invariant
                i <= paths.len(),
                pv == paths@.map_values(|p: String| p@),
                self.pre_created@ == start + pv.take(i as int).to_set(),
                self.pending@ == old(self).pending@,
                self.restored@ == old(self).restored@,
                self.missing@ == old(self).missing@,
            decreases paths.len() - i,
        {
            let p = crate::text::copy_string(paths[i].as_str());
            self.pre_created.insert(p);
            proof {
                assert(pv.take(i + 1) =~= pv.take(i as int).push(pv[i as int]));
                assert(pv.take(i + 1).to_set() =~= pv.take(i as int).to_set().insert(pv[i as int])) by {
                    broadcast use vstd::seq_lib::group_seq_properties;
                }
                assert(self.pre_created@ =~= start + pv.take(i + 1).to_set());
            }
            i = i + 1;
        }
        proof {
            assert(pv.take(i as int) =~= pv);
        }
    }
}

/// What restoring data found wrong, if anything: its size or its hash.
pub open spec fn restored_check_spec(bytes_read: u64, hash: Seq<u8>, size: u64, expected: Seq<u8>, paths: Seq<char>) -> Option<Seq<char>> {
    if bytes_read != size {
        Some("Failed to restore "@ + paths + ": got an unexpected data size: "@ + crate::text::decimal(bytes_read as nat)
            + " vs "@ + crate::text::decimal(size as nat))
    } else if hash != expected {
        Some("Failed to restore "@ + paths + ": the restored data has an unexpected hash: "@ + crate::hash::to_hex(hash)
            + " vs "@ + crate::hash::to_hex(expected))
    } else {
        None
    }
}

/// Checks restored data: its size and hash must be those of the plan.
pub fn check_restored(bytes_read: u64, hash: &crate::hash::Hash, size: u64, expected: &crate::hash::Hash, paths: &str) -> (r: Result<(), String>)
    ensures
        match restored_check_spec(bytes_read, hash@, size, expected@, paths@) {
            None => r is Ok,
            Some(e) => r matches Err(m) && m@ == e,
        },
{
    if bytes_read != size {
        let mut m = String::from_str("Failed to restore ");
        m.append(paths);
        m.append(": got an unexpected data size: ");
        m.append(crate::text::u64_to_string(bytes_read).as_str());
        m.append(" vs ");
        m.append(crate::text::u64_to_string(size).as_str());
        return Err(m);
    }
    if !hash.equals(expected) {
        let mut m = String::from_str("Failed to restore ");
        m.append(paths);
        m.append(": the restored data has an unexpected hash: ");
        m.append(hash.to_string().as_str());
        m.append(" vs ");
        m.append(expected.to_string().as_str());
        return Err(m);
    }
    Ok(())
}

/// The parent of a path (`Path::parent`, for paths of names): without its last component;
/// `None` for the root or a path without components.
pub open spec fn parent_spec(path: Seq<char>) -> Option<Seq<char>> {
    let cs = components(path);
    if cs.len() == 0 || (cs.len() == 1 && cs[0] == Component::RootDir) {
        None
    } else {
        Some(crate::paths::join_all(if cs[0] == Component::RootDir { seq!['/'] } else { seq![] },
            crate::paths::names(cs.drop_last().skip(if cs[0] == Component::RootDir { 1int } else { 0int }))))
    }
}

/// The next step of restoring the directories of a file.
pub enum DirectoryStep {
    /// Try to create this directory (the restore path of the given file's parent).
    TryCreate { path: String, restore_path: String },
    /// Create these directories, in order, and report the given ones as restored.
    Finish { to_create: Vec<String>, restored: Vec<String> },
}

/// The outcome of creating a directory.
#[derive(Clone, Copy, Debug, PartialEq, Eq, Structural)]
pub enum CreateOutcome {
    Created,
    /// Its parent does not exist yet.
    NotFound,
    AlreadyExists,
    Failed,
}

/// A directory step as values.
pub enum DirectoryStepView {
    TryCreate { path: Seq<char>, restore_path: Seq<char> },
    Finish { to_create: Seq<Seq<char>>, restored: Seq<Seq<char>> },
}

/// The value of a directory step.
pub open spec fn step_view(s: DirectoryStep) -> DirectoryStepView {
    match s {
        DirectoryStep::TryCreate { path, restore_path } => DirectoryStepView::TryCreate { path: path@, restore_path: restore_path@ },
        DirectoryStep::Finish { to_create, restored } => DirectoryStepView::Finish {
            to_create: crate::sync::strings_view(to_create@),
            restored: crate::sync::strings_view(restored@),
        },
    }
}

/// Restoring the directories that lead to a file: going up from it, each missing directory
/// is created, the highest first.
pub struct RestoreDirectories {
    restore_dir: String,
    file_path: String,
    current: String,
    restored: Vec<String>,
    to_create: Vec<String>,
}

/// The state of a directory walk, as values.
pub struct RestoreDirectoriesView {
    pub restore_dir: Seq<char>,
    pub file_path: Seq<char>,
    /// The path reached so far (the file itself at the start).
    pub current: Seq<char>,
    /// The directories found missing, lowest first.
    pub restored: Seq<Seq<char>>,
    /// Their restore paths, lowest first.
    pub to_create: Seq<Seq<char>>,
}

impl View for RestoreDirectories {
    type V = RestoreDirectoriesView;

    closed spec fn view(&self) -> RestoreDirectoriesView {
        RestoreDirectoriesView {
            restore_dir: self.restore_dir@,
            file_path: self.file_path@,
            current: self.current@,
            restored: crate::sync::strings_view(self.restored@),
            to_create: crate::sync::strings_view(self.to_create@),
        }
    }
}

/// The step that ends a walk: the directories to create, highest first, and those restored.
pub open spec fn finish_spec(v: RestoreDirectoriesView) -> DirectoryStepView {
    DirectoryStepView::Finish { to_create: v.to_create.reverse(), restored: v.restored }
}

/// A walk after its end.
pub open spec fn finished_spec(v: RestoreDirectoriesView) -> RestoreDirectoriesView {
    RestoreDirectoriesView { restored: Seq::empty(), ..v }
}

impl RestoreDirectories {
    /// The next step: the parent of the current path is tried (the root ends the walk).
    pub fn next(&mut self) -> (r: Result<DirectoryStep, String>)
        ensures
            match parent_spec(old(self)@.current) {
                None => r matches Err(e) && e@ == "Invalid restoring file path: "@ + debug_quoted(old(self)@.file_path)
                    && final(self)@ == old(self)@,
                Some(p) => if components(p) == seq![Component::RootDir] {
                    r matches Ok(st) && step_view(st) == finish_spec(old(self)@)
                        && final(self)@ == finished_spec(old(self)@)
                } else {
                    match restore_path_spec(old(self)@.restore_dir, p) {
                        None => r matches Err(e) && e@ == "Invalid restoring file path: "@ + debug_quoted(p)
                            && final(self)@ == old(self)@,
                        Some(rp) => r matches Ok(st)
                            && step_view(st) == (DirectoryStepView::TryCreate { path: p, restore_path: rp })
                            && final(self)@ == (RestoreDirectoriesView { current: p, ..old(self)@ }),
                    }
                },
            },
    {
        let parent = match parent_of(self.current.as_str()) {
            Some(p) => p,
            None => {
                let mut m = String::from_str("Invalid restoring file path: ");
                m.append(debug_str(self.file_path.as_str()).as_str());
                return Err(m);
            },
        };
        if is_root_path(parent.as_str()) {
            return Ok(self.finish());
        }
        let restore_path = match crate::paths::get_restore_path(self.restore_dir.as_str(), parent.as_str()) {
            Ok(p) => p,
            Err(e) => return Err(e),
        };
        let path = String::from_str(parent.as_str());
        self.current = parent;
        Ok(DirectoryStep::TryCreate { path, restore_path })
    }

    /// Takes the outcome of creating the current directory at `restore_path`: created, the
    /// walk ends; its parent missing, it is created later and the walk goes up; existing,
    /// the walk ends; failed, the error names it with `error`.
    pub fn on_outcome(&mut self, outcome: CreateOutcome, restore_path: &str, error: &str) -> (r: Result<Option<DirectoryStep>, String>)
        ensures
            match outcome {
                CreateOutcome::Created => {
                    let v = RestoreDirectoriesView { restored: old(self)@.restored.push(old(self)@.current), ..old(self)@ };
                    r matches Ok(Some(st)) && step_view(st) == finish_spec(v) && final(self)@ == finished_spec(v)
                },
                CreateOutcome::NotFound => r matches Ok(None) && final(self)@ == (RestoreDirectoriesView {
                    restored: old(self)@.restored.push(old(self)@.current),
                    to_create: old(self)@.to_create.push(restore_path@),
                    ..old(self)@
                }),
                CreateOutcome::AlreadyExists => r matches Ok(Some(st)) && step_view(st) == finish_spec(old(self)@)
                    && final(self)@ == finished_spec(old(self)@),
                CreateOutcome::Failed => r matches Err(e) && e@ == "Unable to create "@ + debug_quoted(restore_path@) + ": "@ + error@
                    && final(self)@ == old(self)@,
            },
    {
        match outcome {
            CreateOutcome::Created => {
                let ghost before = self.restored@;
                self.restored.push(String::from_str(self.current.as_str()));
                proof {
                    assert(crate::sync::strings_view(self.restored@) =~= crate::sync::strings_view(before).push(self.current@));
                }
                Ok(Some(self.finish()))
            },
            CreateOutcome::NotFound => {
                let ghost before = self.restored@;
                let ghost before_c = self.to_create@;
                self.restored.push(String::from_str(self.current.as_str()));
                self.to_create.push(String::from_str(restore_path));
                proof {
                    assert(crate::sync::strings_view(self.restored@) =~= crate::sync::strings_view(before).push(self.current@));
                    assert(crate::sync::strings_view(self.to_create@) =~= crate::sync::strings_view(before_c).push(restore_path@));
                }
                Ok(None)
            },
            CreateOutcome::AlreadyExists => Ok(Some(self.finish())),
            CreateOutcome::Failed => {
                let mut m = String::from_str("Unable to create ");
                m.append(debug_str(restore_path).as_str());
                m.append(": ");
                m.append(error);
                Err(m)
            },
        }
    }

    /// The end of the walk: the directories to create, highest first.
    fn finish(&mut self) -> (r: DirectoryStep)
        ensures
            step_view(r) == finish_spec(old(self)@),
            final(self)@ == finished_spec(old(self)@),
    {
        let mut to_create: Vec<String> = Vec::new();
        let mut k = self.to_create.len();
        let ghost src = crate::sync::strings_view(self.to_create@);
        while k > 0
            invariant
                k <= src.len(),
                src == crate::sync::strings_view(self.to_create@),
                crate::sync::strings_view(to_create@) == src.skip(k as int).reverse(),
            decreases k,
        {
            let c = String::from_str(self.to_create[k - 1].as_str());
            let ghost before = crate::sync::strings_view(to_create@);
            to_create.push(c);
            proof {
                assert(src[k - 1] == c@);
                assert(crate::sync::strings_view(to_create@) =~= before.push(c@));
                assert(src.skip(k - 1).reverse() =~= src.skip(k as int).reverse().push(src[k - 1]));
            }
            k -= 1;
        }
        assert(src.skip(0) =~= src);
        let mut restored: Vec<String> = Vec::new();
        std::mem::swap(&mut restored, &mut self.restored);
        proof {
            assert(crate::sync::strings_view(self.restored@) =~= Seq::<Seq<char>>::empty());
        }
        DirectoryStep::Finish { to_create, restored }
    }
}

/// Starts restoring the directories that lead to a file under a restore directory: the
/// program then takes the walk's steps and creates what the last one names.
pub fn restore_directories(restore_dir: &str, file_path: &str) -> (r: RestoreDirectories)
    ensures
        r@ == (RestoreDirectoriesView {
            restore_dir: restore_dir@,
            file_path: file_path@,
            current: file_path@,
            restored: Seq::empty(),
            to_create: Seq::empty(),
        }),
{
    let r = RestoreDirectories {
        restore_dir: String::from_str(restore_dir),
        file_path: String::from_str(file_path),
        current: String::from_str(file_path),
        restored: Vec::new(),
        to_create: Vec::new(),
    };
    proof {
        assert(crate::sync::strings_view(r.restored@) =~= Seq::<Seq<char>>::empty());
        assert(crate::sync::strings_view(r.to_create@) =~= Seq::<Seq<char>>::empty());
    }
    r
}

/// Whether a path is the root.
pub fn is_root_path(path: &str) -> (r: bool)
    ensures
        r == (components(path@) == seq![Component::RootDir]),
{
    let cs = crate::paths::path_components(path);
    if cs.len() != 1 {
        proof {
            if components(path@) == seq![Component::RootDir] {
                assert(crate::paths::parts_view(cs@).len() == 1);
            }
        }
        return false;
    }
    proof {
        assert(crate::paths::parts_view(cs@)[0] == cs@[0]@);
    }
    let r = match &cs[0] {
        crate::paths::PathPart::RootDir => true,
        _ => false,
    };
    proof {
        if r {
            assert(components(path@) =~= seq![Component::RootDir]);
        } else {
            if components(path@) == seq![Component::RootDir] {
                assert(crate::paths::parts_view(cs@)[0] == Component::RootDir);
            }
        }
    }
    r
}

/// The parent of a path (see `parent_spec`).
pub fn parent_of(path: &str) -> (r: Option<String>)
    ensures
        match parent_spec(path@) {
            Some(p) => r matches Some(s) && s@ == p,
            None => r is None,
        },
{
    let cs = crate::paths::path_components(path);
    let ghost cv = components(path@);
    let n = cs.len();
    if n == 0 {
        return None;
    }
    proof {
        assert(crate::paths::parts_view(cs@)[0] == cs@[0]@);
    }
    let absolute = match &cs[0] {
        crate::paths::PathPart::RootDir => true,
        _ => false,
    };
    if n == 1 && absolute {
        return None;
    }
    let mut out: Vec<char> = Vec::new();
    if absolute {
        out.push('/');
    }
    let start: usize = if absolute { 1 } else { 0 };
    let ghost base: Seq<char> = if absolute { seq!['/'] } else { seq![] };
    let ghost mids = cv.drop_last().skip(start as int);
    assert(out@ =~= base);
    let mut i = start;
    assert(mids.take(0) =~= Seq::<Component>::empty());
    assert(crate::paths::names(mids.take(0)) =~= Seq::<Seq<char>>::empty());
    while i < n - 1
        invariant
            start <= i <= n - 1,
            n == cs@.len(),
            crate::paths::parts_view(cs@) == cv,
            mids == cv.drop_last().skip(start as int),
            out@ == crate::paths::join_all(base, crate::paths::names(mids.take(i - start))),
        decreases n - 1 - i,
    {
        proof {
            assert(crate::paths::parts_view(cs@)[i as int] == cs@[i as int]@);
            assert(mids[i - start] == cv[i as int]);
            let t = mids.take(i - start + 1);
            assert(t.drop_last() =~= mids.take(i - start));
            assert(crate::paths::names(t).drop_last() =~= crate::paths::names(mids.take(i - start)));
        }
        let name: Vec<char> = match &cs[i] {
            crate::paths::PathPart::Normal(name) => crate::text::sub_vec(name.as_slice(), 0, name.len()),
            _ => Vec::new(),
        };
        proof {
            assert(name@ == crate::paths::name_of(cv[i as int])) by {
                match cs@[i as int] {
                    crate::paths::PathPart::Normal(nm) => {
                        assert(nm@.subrange(0, nm@.len() as int) =~= nm@);
                    },
                    _ => {
                        assert(name@ =~= Seq::<char>::empty());
                    },
                }
            }
        }
        crate::paths::push_part(&mut out, name.as_slice());
        i += 1;
        proof {
            assert(crate::paths::names(mids.take(i - start)).last() == name@);
        }
    }
    assert(mids.take(i - start) =~= mids);
    Some(crate::text::string_of(out.as_slice()))
}

} // verus!

verus! {

/// Paths as they show in messages: each quoted, separated by commas.
pub open spec fn quoted_paths_spec(paths: Seq<Seq<char>>) -> Seq<char>
    decreases paths.len(),
{
    if paths.len() == 0 {
        seq![]
    } else if paths.len() == 1 {
        debug_quoted(paths[0])
    } else {
        quoted_paths_spec(paths.drop_last()) + ", "@ + debug_quoted(paths.last())
    }
}

/// Paths as they show in messages (see `quoted_paths_spec`).
pub fn quoted_paths(paths: &Vec<String>) -> (r: String)
    ensures
        r@ == quoted_paths_spec(paths@.map_values(|p: String| p@)),
{
    let ghost pv = paths@.map_values(|p: String| p@);
    let mut r = String::new();
    let mut i: usize = 0;
    assert(pv.take(0) =~= Seq::<Seq<char>>::empty());
    while i < paths.len()
        invariant
            i <= paths@.len(),
            pv == paths@.map_values(|p: String| p@),
            r@ == quoted_paths_spec(pv.take(i as int)),
        decreases paths@.len() - i,
    {
        proof {
            assert(pv.take(i + 1).drop_last() =~= pv.take(i as int));
            assert(pv.take(i + 1).last() == pv[i as int]);
        }
        if i > 0 {
            r.append(", ");
        }
        r.append(debug_str(paths[i].as_str()).as_str());
        proof {
            if i == 0 {
                assert(r@ =~= debug_quoted(pv[0]));
            }
        }
        i += 1;
    }
    assert(pv.take(i as int) =~= pv);
    r
}

/// The paths of a list that a set holds, in order.
pub open spec fn held(paths: Seq<Seq<char>>, set: Set<Seq<char>>) -> Seq<Seq<char>>
    decreases paths.len(),
{
    if paths.len() == 0 {
        seq![]
    } else {
        let r = held(paths.drop_last(), set);
        if set.contains(paths.last()) { r.push(paths.last()) } else { r }
    }
}

/// The metadata changes to make at the end of a restore: those scheduled, last first,
/// except for files whose data is missing.
pub open spec fn to_apply_spec(scheduled: Seq<(Seq<char>, crate::restoring::file_metadata::FileMetadata)>, pending: Set<Seq<char>>)
    -> Seq<(Seq<char>, crate::restoring::file_metadata::FileMetadata)>
    decreases scheduled.len(),
{
    if scheduled.len() == 0 {
        seq![]
    } else {
        let rest = to_apply_spec(scheduled.drop_last(), pending);
        if pending.contains(scheduled.last().0) { rest } else { seq![scheduled.last()] + rest }
    }
}

/// The lines that list some paths after a heading.
pub open spec fn listing_lines(heading: Seq<char>, paths: Seq<Seq<char>>) -> Seq<Seq<char>> {
    seq![heading] + paths.map_values(|p: Seq<char>| "* "@ + p)
}

/// The heading of extern files whose data is missing.
pub open spec fn missing_data_heading() -> Seq<char> {
    "Failed to restore the following files (missing extern data):"@
}

/// The heading of directories that were created on the way and never met in an archive.
pub open spec fn unknown_permissions_heading() -> Seq<char> {
    "The following directories have been unexpectedly restored without known permissions:"@
}

fn log_listing(heading: &str, paths: &Vec<String>, set: &StringHashSet, log: &mut Vec<LogRecord>)
    ensures
        final(log)@.len() == old(log)@.len() + 1 + held(paths@.map_values(|p: String| p@), set@).len(),
        extends(final(log)@, old(log)@),
        forall|j: int| old(log)@.len() <= j < final(log)@.len() ==> (#[trigger] final(log)@[j]).level == Level::Error,
        final(log)@.subrange(old(log)@.len() as int, final(log)@.len() as int).map_values(|r: LogRecord| r.message@)
            == listing_lines(heading@, held(paths@.map_values(|p: String| p@), set@)),
{
    let ghost pv = paths@.map_values(|p: String| p@);
    let ghost start = log@.len();
    crate::logging::log(log, Level::Error, String::from_str(heading));
    let mut i: usize = 0;
    proof {
        assert(pv.take(0) =~= Seq::<Seq<char>>::empty());
        assert(log@.subrange(start as int, log@.len() as int).map_values(|r: LogRecord| r.message@)
            =~= listing_lines(heading@, held(pv.take(0), set@)));
    }
    while i < paths.len()
        invariant
            i <= paths@.len(),
            pv == paths@.map_values(|p: String| p@),
            start == old(log)@.len(),
            log@.len() == start + 1 + held(pv.take(i as int), set@).len(),
            extends(log@, old(log)@),
            forall|j: int| start <= j < log@.len() ==> (#[trigger] log@[j]).level == Level::Error,
            log@.subrange(start as int, log@.len() as int).map_values(|r: LogRecord| r.message@)
                == listing_lines(heading@, held(pv.take(i as int), set@)),
        decreases paths@.len() - i,
    {
        proof {
            assert(pv.take(i + 1).drop_last() =~= pv.take(i as int));
            assert(pv.take(i + 1).last() == pv[i as int]);
        }
        if set.contains(paths[i].as_str()) {
            let ghost before = log@;
            let mut m = String::from_str("* ");
            m.append(paths[i].as_str());
            crate::logging::log(log, Level::Error, m);
            proof {
                assert forall|j: int| start <= j < log@.len() implies (#[trigger] log@[j]).level == Level::Error by {
                    if j < log@.len() - 1 {
                        assert(log@[j] == before[j]);
                    }
                }
                let ls = held(pv.take(i as int), set@);
                assert(held(pv.take(i + 1), set@) == ls.push(pv[i as int]));
                assert(listing_lines(heading@, ls.push(pv[i as int])) =~= listing_lines(heading@, ls).push("* "@ + pv[i as int]));
                assert(log@.last().message@ == "* "@ + pv[i as int]);
                assert(log@.subrange(start as int, log@.len() as int)
                    =~= before.subrange(start as int, before.len() as int).push(log@.last()));
                assert(log@.subrange(start as int, log@.len() as int).map_values(|r: LogRecord| r.message@)
                    =~= before.subrange(start as int, before.len() as int).map_values(|r: LogRecord| r.message@).push(log@.last().message@));
                assert(log@.subrange(start as int, log@.len() as int).map_values(|r: LogRecord| r.message@)
                    =~= listing_lines(heading@, held(pv.take(i + 1), set@)));
            }
        }
        i += 1;
    }
    assert(pv.take(i as int) =~= pv);
}

/// The end of a restore: the metadata changes to make (last scheduled first, none for files
/// whose data is missing), given the plan's extern files, the directories created on the
/// way (in order) and the scheduled changes. Extern files still pending and directories
/// created on the way but never met are listed as errors, and spoil the restore.
pub fn finish_restore(
    state: &RestoreState,
    extern_files: &Vec<String>,
    created: &Vec<String>,
    scheduled: &Vec<(String, crate::restoring::file_metadata::FileMetadata)>,
    log: &mut Vec<LogRecord>,
) -> (r: (Vec<(String, crate::restoring::file_metadata::FileMetadata)>, bool))
    ensures
        r.0@.map_values(|e: (String, crate::restoring::file_metadata::FileMetadata)| (e.0@, e.1))
            == to_apply_spec(scheduled@.map_values(|e: (String, crate::restoring::file_metadata::FileMetadata)| (e.0@, e.1)), state.pending@),
        r.1 == (held(extern_files@.map_values(|p: String| p@), state.pending@).len() == 0
            && held(created@.map_values(|p: String| p@), state.pre_created@).len() == 0),
        extends(final(log)@, old(log)@),
        final(log)@.subrange(old(log)@.len() as int, final(log)@.len() as int).map_values(|r: LogRecord| r.message@) == ({
            let e = held(extern_files@.map_values(|p: String| p@), state.pending@);
            let c = held(created@.map_values(|p: String| p@), state.pre_created@);
            (if e.len() > 0 { listing_lines(missing_data_heading(), e) } else { seq![] })
                + (if c.len() > 0 { listing_lines(unknown_permissions_heading(), c) } else { seq![] })
        }),
{
    let ghost sv = scheduled@.map_values(|e: (String, crate::restoring::file_metadata::FileMetadata)| (e.0@, e.1));
    let mut to_apply: Vec<(String, crate::restoring::file_metadata::FileMetadata)> = Vec::new();
    let mut k = scheduled.len();
    proof {
        assert(sv.take(k as int) =~= sv);
    }
    let ghost tail_view: Seq<(Seq<char>, crate::restoring::file_metadata::FileMetadata)> = seq![];
    assert(to_apply@.map_values(|e: (String, crate::restoring::file_metadata::FileMetadata)| (e.0@, e.1)) =~= seq![]);
    while k > 0
        invariant
            k <= sv.len(),
            sv == scheduled@.map_values(|e: (String, crate::restoring::file_metadata::FileMetadata)| (e.0@, e.1)),
            to_apply_spec(sv, state.pending@) == to_apply@.map_values(
                |e: (String, crate::restoring::file_metadata::FileMetadata)| (e.0@, e.1)) + to_apply_spec(sv.take(k as int), state.pending@),
        decreases k,
    {
        let entry = &scheduled[k - 1];
        proof {
            assert(sv.take(k as int).drop_last() =~= sv.take(k - 1));
            assert(sv.take(k as int).last() == sv[k - 1]);
        }
        if !state.pending.contains(entry.0.as_str()) {
            let ghost before = to_apply@.map_values(|e: (String, crate::restoring::file_metadata::FileMetadata)| (e.0@, e.1));
            to_apply.push((crate::text::copy_string(entry.0.as_str()), entry.1));
            proof {
                assert(to_apply@.map_values(|e: (String, crate::restoring::file_metadata::FileMetadata)| (e.0@, e.1))
                    =~= before.push(sv[k - 1]));
            }
        }
        k -= 1;
    }
    proof {
        assert(sv.take(0) =~= seq![]);
    }
    let mut ok = true;
    let ghost l0 = log@;
    let missing = count_held(extern_files, &state.pending);
    if missing > 0 {
        log_listing("Failed to restore the following files (missing extern data):", extern_files, &state.pending, log);
        ok = false;
    }
    let ghost l1 = log@;
    let unknown = count_held(created, &state.pre_created);
    if unknown > 0 {
        log_listing("The following directories have been unexpectedly restored without known permissions:", created, &state.pre_created, log);
        ok = false;
    }
    proof {
        reveal_strlit("Failed to restore the following files (missing extern data):");
        reveal_strlit("The following directories have been unexpectedly restored without known permissions:");
        let f = |r: LogRecord| r.message@;
        assert(log@.subrange(l0.len() as int, log@.len() as int)
            =~= l1.subrange(l0.len() as int, l1.len() as int) + log@.subrange(l1.len() as int, log@.len() as int));
        assert(l1.subrange(l0.len() as int, l1.len() as int) =~= log@.subrange(l0.len() as int, l1.len() as int));
        assert((l1.subrange(l0.len() as int, l1.len() as int) + log@.subrange(l1.len() as int, log@.len() as int)).map_values(f)
            =~= l1.subrange(l0.len() as int, l1.len() as int).map_values(f) + log@.subrange(l1.len() as int, log@.len() as int).map_values(f));
        if missing == 0 {
            assert(l1.subrange(l0.len() as int, l1.len() as int).map_values(f) =~= seq![]);
        }
        if unknown == 0 {
            assert(log@.subrange(l1.len() as int, log@.len() as int).map_values(f) =~= seq![]);
        }
    }
    (to_apply, ok)
}

fn count_held(paths: &Vec<String>, set: &StringHashSet) -> (r: usize)
    ensures
        r == held(paths@.map_values(|p: String| p@), set@).len(),
{
    let ghost pv = paths@.map_values(|p: String| p@);
    let mut n: usize = 0;
    let mut i: usize = 0;
    assert(pv.take(0) =~= Seq::<Seq<char>>::empty());
    while i < paths.len()
        invariant
            i <= paths@.len(),
            pv == paths@.map_values(|p: String| p@),
            n == held(pv.take(i as int), set@).len(),
            n <= i,
        decreases paths@.len() - i,
    {
        proof {
            assert(pv.take(i + 1).drop_last() =~= pv.take(i as int));
            assert(pv.take(i + 1).last() == pv[i as int]);
        }
        if set.contains(paths[i].as_str()) {
            n += 1;
        }
        i += 1;
    }
    assert(pv.take(i as int) =~= pv);
    n
}

} // verus!

verus! {

/// Where a backup lies, from its canonical path (the root, then names): the storage root,
/// the group name and the backup name; `None` for a path with fewer than two names.
pub open spec fn backup_location_spec(path: Seq<char>) -> Option<(Seq<char>, Seq<char>, Seq<char>)> {
    let cs = components(path);
    if cs.len() >= 3 && cs[0] == Component::RootDir && crate::paths::all_normal_from(cs, 1) {
        Some((
            crate::paths::join_all(seq!['/'], crate::paths::names(cs.subrange(1, cs.len() - 2))),
            crate::paths::name_of(cs[cs.len() - 2]),
            crate::paths::name_of(cs[cs.len() - 1]),
        ))
    } else {
        None
    }
}

/// The storage root, group name and backup name of a backup to restore, from its canonical
/// path; the group and backup names must be those of local backups.
pub fn parse_backup_path(path: &str) -> (r: Result<(String, String, String), String>)
    ensures
        match backup_location_spec(path@) {
            None => r matches Err(e) && e@ == "Invalid backup path"@,
            Some((root, group, name)) => {
                let valid = crate::storage::traits::regex_compiles(crate::storage::traits::group_name_pattern())
                    && crate::storage::traits::regex_compiles(crate::storage::traits::local_name_pattern())
                    && crate::storage::traits::regex_is_match(crate::storage::traits::group_name_pattern(), group)
                    && crate::storage::traits::regex_is_match(crate::storage::traits::local_name_pattern(), name);
                &&& valid ==> (r matches Ok((x, y, z)) && x@ == root && y@ == group && z@ == name)
                &&& !valid ==> (r matches Err(e) && e@ == debug_quoted(path@) + " doesn't look like backup path"@)
            },
        },
{
    let cs = crate::paths::path_components(path);
    let ghost cv = components(path@);
    let n = cs.len();
    if n < 3 {
        return Err(String::from_str("Invalid backup path"));
    }
    proof {
        assert(crate::paths::parts_view(cs@)[0] == cs@[0]@);
    }
    let rooted = match &cs[0] {
        crate::paths::PathPart::RootDir => true,
        _ => false,
    };
    if !rooted {
        return Err(String::from_str("Invalid backup path"));
    }
    let mut root: Vec<char> = Vec::new();
    root.push('/');
    let mut i: usize = 1;
    proof {
        assert(cv.subrange(1, 1) =~= Seq::<Component>::empty());
        assert(crate::paths::names(cv.subrange(1, 1)) =~= Seq::<Seq<char>>::empty());
        assert(root@ =~= seq!['/']);
    }
    while i < n
        invariant
            1 <= i <= n,
            n == cs@.len(),
            n >= 3,
            crate::paths::parts_view(cs@) == cv,
            cv == components(path@),
            cv[0] == Component::RootDir,
            forall|j: int| 1 <= j < i ==> crate::paths::is_normal(#[trigger] cv[j]),
            i <= n - 2 ==> root@ == crate::paths::join_all(seq!['/'], crate::paths::names(cv.subrange(1, i as int))),
            i > n - 2 ==> root@ == crate::paths::join_all(seq!['/'], crate::paths::names(cv.subrange(1, n - 2))),
        decreases n - i,
    {
        proof {
            assert(crate::paths::parts_view(cs@)[i as int] == cs@[i as int]@);
        }
        let name: Vec<char> = match &cs[i] {
            crate::paths::PathPart::Normal(name) => crate::text::sub_vec(name.as_slice(), 0, name.len()),
            _ => {
                proof {
                    assert(!crate::paths::is_normal(cv[i as int]));
                }
                return Err(String::from_str("Invalid backup path"));
            },
        };
        if i < n - 2 {
            proof {
                match cs@[i as int] {
                    crate::paths::PathPart::Normal(nm) => {
                        assert(nm@.subrange(0, nm@.len() as int) =~= nm@);
                    },
                    _ => {},
                }
                let t = cv.subrange(1, i + 1);
                assert(t.drop_last() =~= cv.subrange(1, i as int));
                assert(crate::paths::names(t).drop_last() =~= crate::paths::names(cv.subrange(1, i as int)));
                assert(crate::paths::names(t).last() == name@);
            }
            crate::paths::push_part(&mut root, name.as_slice());
        }
        i += 1;
    }
    proof {
        assert(crate::paths::all_normal_from(cv, 1));
        assert(crate::paths::parts_view(cs@)[n - 2] == cs@[n - 2]@);
        assert(crate::paths::parts_view(cs@)[n - 1] == cs@[n - 1]@);
    }
    let group: Vec<char> = match &cs[n - 2] {
        crate::paths::PathPart::Normal(name) => crate::text::sub_vec(name.as_slice(), 0, name.len()),
        _ => Vec::new(),
    };
    let backup: Vec<char> = match &cs[n - 1] {
        crate::paths::PathPart::Normal(name) => crate::text::sub_vec(name.as_slice(), 0, name.len()),
        _ => Vec::new(),
    };
    proof {
        match cs@[n - 2] {
            crate::paths::PathPart::Normal(nm) => {
                assert(nm@.subrange(0, nm@.len() as int) =~= nm@);
            },
            _ => {},
        }
        match cs@[n - 1] {
            crate::paths::PathPart::Normal(nm) => {
                assert(nm@.subrange(0, nm@.len() as int) =~= nm@);
            },
            _ => {},
        }
    }
    let group = crate::text::string_of(group.as_slice());
    let backup = crate::text::string_of(backup.as_slice());
    let traits = crate::storage::traits::BackupTraits::get_for(crate::storage::provider::ProviderType::Local);
    let group_ok = match traits.is_group_name(group.as_str()) {
        Some(b) => b,
        None => false,
    };
    let name_ok = match traits.is_backup_name(backup.as_str()) {
        Some(b) => b,
        None => false,
    };
    if !group_ok || !name_ok {
        let mut m = debug_str(path);
        m.append(" doesn't look like backup path");
        return Err(m);
    }
    Ok((crate::text::string_of(root.as_slice()), group, backup))
}

} // verus!
