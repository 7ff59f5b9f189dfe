//! Backup storage: backup groups of backups on a provider.

pub mod backup;
pub mod backup_group;
pub mod provider;
pub mod traits;

use vstd::prelude::*;

use crate::logging::{Level, LogRecord, extends};
use crate::text::{chars_of, debug_quoted, debug_str, string_of};

use self::backup::Backup;
use self::backup_group::{
    BackupGroup, group_names, has_unexpected, names_of, names_sorted, read_group_as,
};
use self::provider::{FileType, FileView, ProviderType, ReadProvider, WriteProvider};
use self::traits::{BackupTraits, backup_file_type, backup_name_pattern, group_name_pattern};

verus! {

/// `s` without the slashes at its end (`str::trim_end_matches('/')`).
pub open spec fn trim_trailing_slashes(s: Seq<char>) -> Seq<char>
    decreases s.len(),
{
    if s.len() > 0 && s.last() == '/' {
        trim_trailing_slashes(s.drop_last())
    } else {
        s
    }
}

/// The extension of backup files on a kind of provider.
pub open spec fn backup_extension(t: ProviderType) -> Seq<char> {
    if t == ProviderType::Local { ""@ } else { ".tar.gpg"@ }
}

/// The file name of a backup: a temporary one starts with a dot.
pub open spec fn backup_file_name_spec(t: ProviderType, backup_name: Seq<char>, temporary: bool) -> Seq<char> {
    (if temporary { "."@ } else { ""@ }) + backup_name + backup_extension(t)
}

/// The message of a change to a read-only storage.
pub open spec fn read_only_message() -> Seq<char> {
    "An attempt to modify a read-only backup storage"@
}

/// Which backup group a new backup goes to.
#[derive(Clone, Copy, Debug, PartialEq, Eq, Structural)]
pub enum GroupChoice {
    /// The last group, which has room for it.
    UseLast,
    /// A new group of the given name.
    Create,
    /// None: a group of the new group's name exists but is not the last one with room.
    Exists,
}

/// Where a new backup goes: the last group, if there is one with fewer than `max_backups`
/// backups; else a new group, unless one of its name exists.
pub open spec fn group_choice_spec(groups: Seq<(Seq<char>, nat)>, max_backups: nat, new_name: Seq<char>) -> GroupChoice {
    if groups.len() > 0 && groups.last().1 < max_backups {
        GroupChoice::UseLast
    } else if exists|j: int| 0 <= j < groups.len() && (#[trigger] groups[j]).0 == new_name {
        GroupChoice::Exists
    } else {
        GroupChoice::Create
    }
}

/// The names and backup counts of some groups.
pub open spec fn group_sizes(groups: Seq<BackupGroup>) -> Seq<(Seq<char>, nat)> {
    groups.map_values(|g: BackupGroup| (g.name@, g.backups@.len()))
}

/// Chooses the backup group of a new backup (see `group_choice_spec`).
pub fn choose_backup_group(groups: &Vec<BackupGroup>, max_backups: usize, new_name: &str) -> (r: GroupChoice)
    ensures
        r == group_choice_spec(group_sizes(groups@), max_backups as nat, new_name@),
{
    let n = groups.len();
    assert(n > 0 ==> group_sizes(groups@).last() == (groups@[n - 1].name@, groups@[n - 1].backups@.len()));
    if n > 0 && groups[n - 1].backups.len() < max_backups {
        return GroupChoice::UseLast;
    }
    let mut i: usize = 0;
    while i < n
        invariant
            i <= n == groups@.len(),
            forall|j: int| 0 <= j < i ==> groups@[j].name@ != new_name@,
            !(group_sizes(groups@).len() > 0 && group_sizes(groups@).last().1 < max_backups),
        decreases n - i,
    {
        if crate::text::str_eq(groups[i].name.as_str(), new_name) {
            assert(group_sizes(groups@)[i as int].0 == new_name@);
            return GroupChoice::Exists;
        }
        i += 1;
    }
    assert forall|j: int| 0 <= j < group_sizes(groups@).len() implies (#[trigger] group_sizes(groups@)[j]).0 != new_name@ by {
        assert(groups@[j].name@ != new_name@);
    }
    GroupChoice::Create
}

/// The old backup groups to delete when there are more than `max_groups`: all but the last
/// `max_groups` ones; none if something is wrong with the groups.
pub open spec fn groups_to_delete_spec(count: nat, max_groups: nat, ok: bool) -> nat {
    if count <= max_groups || !ok { 0 } else { (count - max_groups) as nat }
}

/// The number of old backup groups to delete (see `groups_to_delete_spec`).
pub fn groups_to_delete(count: usize, max_groups: usize, ok: bool) -> (r: usize)
    ensures
        r == groups_to_delete_spec(count as nat, max_groups as nat, ok),
        r <= count,
{
    if count <= max_groups || !ok { 0 } else { count - max_groups }
}

/// `chrono::Local.datetime_from_str`: the time (in seconds since the epoch) that a name in
/// the given format stands for in the machine's time zone, or `None` if it stands for no
/// single local time. Nothing is promised of the result, which depends on the time zone.
#[verifier::external_body]
#[allow(deprecated)]
fn local_time_from_name(name: &str, format: &str) -> (r: Option<i64>) {
    chrono::TimeZone::datetime_from_str(&chrono::Local, name, format).ok().map(|t| t.timestamp())
}

/// The message of a backup name that stands for no time.
pub open spec fn invalid_backup_name_message(name: Seq<char>) -> Seq<char> {
    "Invalid backup name: "@ + debug_quoted(name)
}

/// A backup storage: a directory of backup groups on a provider.
pub struct Storage<P> {
    pub provider: P,
    pub path: String,
    pub writable: bool,
}

impl<P: ReadProvider> Storage<P> {
    /// A storage that can be changed.
    pub fn new_read_write(provider: P, path: &str) -> (r: Storage<P>)
        ensures
            r.path@ == path@,
            r.writable,
    {
        Storage { provider, path: String::from_str(path), writable: true }
    }

    /// A storage that can only be read.
    pub fn new_read_only(provider: P, path: &str) -> (r: Storage<P>)
        ensures
            r.path@ == path@,
            !r.writable,
    {
        Storage { provider, path: String::from_str(path), writable: false }
    }

    /// The name of the storage's provider.
    pub fn name(&self) -> &'static str {
        self.provider.name()
    }

    /// The path of a backup group.
    pub fn get_backup_group_path(&self, group_name: &str) -> (r: String)
        ensures
            r@ == trim_trailing_slashes(self.path@) + "/"@ + group_name@,
    {
        let chars = chars_of(self.path.as_str());
        let mut end = chars.len();
        assert(chars@.take(end as int) =~= chars@);
        while end > 0 && chars[end - 1] == '/'
            invariant
                end <= chars@.len(),
                trim_trailing_slashes(chars@.take(end as int)) == trim_trailing_slashes(self.path@),
                chars@ == self.path@,
            decreases end,
        {
            assert(chars@.take(end as int).drop_last() =~= chars@.take(end - 1));
            end -= 1;
        }
        let base = crate::text::sub_vec(chars.as_slice(), 0, end);
        assert(base@ =~= chars@.take(end as int));
        let base = string_of(base.as_slice());
        crate::text::slash_join(base.as_str(), group_name)
    }

    /// The file name of a backup on this storage.
    pub fn get_backup_file_name(&self, backup_name: &str, temporary: bool) -> (r: String)
        ensures
            r@ == backup_file_name_spec(self.provider.kind(), backup_name@, temporary),
    {
        let t = self.provider.type_();
        let traits = BackupTraits::get_for(t);
        let mut r = if temporary { String::from_str(".") } else { String::new() };
        r.append(backup_name);
        r.append(traits.extension);
        proof {
            reveal_strlit(".");
            reveal_strlit("");
            assert(r@ =~= backup_file_name_spec(t, backup_name@, temporary));
        }
        r
    }

    /// The path of a backup on this storage.
    pub fn get_backup_path(&self, group_name: &str, backup_name: &str, temporary: bool) -> (r: String)
        ensures
            r@ == trim_trailing_slashes(self.path@) + "/"@ + group_name@ + "/"@
                + backup_file_name_spec(self.provider.kind(), backup_name@, temporary),
    {
        let group_path = self.get_backup_group_path(group_name);
        let file_name = self.get_backup_file_name(backup_name, temporary);
        crate::text::slash_join(group_path.as_str(), file_name.as_str())
    }

    /// The time (in seconds since the epoch) when a backup was made, read from its name in
    /// the machine's time zone; an error if the name stands for no single local time.
    pub fn get_backup_time(&self, backup_name: &str) -> (r: Result<i64, String>)
        ensures
            r matches Err(e) ==> e@ == invalid_backup_name_message(backup_name@),
    {
        let traits = BackupTraits::get_for(self.provider.type_());
        match local_time_from_name(backup_name, traits.name_format) {
            Some(t) => Ok(t),
            None => {
                let mut m = String::from_str("Invalid backup name: ");
                m.append(debug_str(backup_name).as_str());
                Err(m)
            },
        }
    }

    /// Reads a backup group of the storage (see `BackupGroup::read`).
    pub fn get_backup_group(&self, name: &str, strict: bool, log: &mut Vec<LogRecord>) -> (r: Result<(BackupGroup, bool), String>)
        ensures
            extends(final(log)@, old(log)@),
            r matches Ok((g, ok)) ==> g.name@ == name@ && read_group_as(g, ok, name@, trim_trailing_slashes(self.path@) + "/"@ + name@, strict, self.provider.kind()),
    {
        let path = self.get_backup_group_path(name);
        BackupGroup::read(&self.provider, name, path.as_str(), strict, log)
    }

    /// The backup groups of the storage, in the order of their names, each inspected if
    /// `verify`; and whether nothing was wrong with them. Problems are logged.
    pub fn get_backup_groups(&self, verify: bool, log: &mut Vec<LogRecord>) -> (r: Result<(Vec<BackupGroup>, bool), String>)
        ensures
            extends(final(log)@, old(log)@),
            r matches Ok((groups, ok)) ==> exists|files: Seq<FileView>|
                #![trigger group_names(files, group_name_pattern())]
                {
                    &&& names_sorted(files)
                    &&& names_of(groups@) == group_names(files, group_name_pattern())
                    &&& ok ==> !has_unexpected(files, group_name_pattern())
                },
            r matches Ok((groups, ok)) ==> (verify && ok ==> all_inspected(groups@)),
    {
        let (mut groups, mut ok) = match BackupGroup::list(&self.provider, self.path.as_str(), log) {
            Ok(r) => r,
            Err(e) => return Err(e),
        };
        if verify && groups.len() > 0 {
            let mut m = String::from_str("Verifying backups on ");
            m.append(self.name());
            m.append("...");
            crate::logging::log(log, Level::Info, m);
            let mut rest = groups;
            let mut done: Vec<BackupGroup> = Vec::new();
            let ghost listed = names_of(rest@);
            let ghost ok0 = ok;
            while rest.len() > 0
                invariant
                    extends(log@, old(log)@),
                    names_of(done@) + names_of(rest@) == listed,
                    ok ==> ok0,
                    ok ==> all_inspected(done@),
                decreases rest@.len(),
            {
                let ghost rest0 = rest@;
                let ghost done0 = done@;
                let mut group = rest.remove(0);
                let group_ok = group.inspect(&self.provider, log);
                ok = ok && group_ok;
                done.push(group);
                proof {
                    assert(names_of(done@) =~= names_of(done0).push(group.name@));
                    assert(names_of(rest0) =~= seq![group.name@] + names_of(rest@));
                }
            }
            assert(names_of(rest@) =~= seq![]);
            assert(names_of(done@) =~= listed);
            groups = done;
        }
        Ok((groups, ok))
    }
}

impl<P: ReadProvider + WriteProvider> Storage<P> {
    /// Creates an empty backup group.
    pub fn create_backup_group(&self, name: &str, log: &mut Vec<LogRecord>) -> (r: Result<BackupGroup, String>)
        ensures
            extends(final(log)@, old(log)@),
            !self.writable ==> (r matches Err(e) && e@ == read_only_message()),
            r matches Ok(g) ==> g.name@ == name@ && g.backups@.len() == 0 && g.temporary_backups@.len() == 0,
    {
        if !self.writable {
            return Err(String::from_str("An attempt to modify a read-only backup storage"));
        }
        let mut m = String::from_str("Creating ");
        m.append(debug_str(name).as_str());
        m.append(" backup group on ");
        m.append(self.name());
        m.append("...");
        crate::logging::log(log, Level::Info, m);
        let path = self.get_backup_group_path(name);
        match self.provider.create_directory(path.as_str()) {
            Ok(()) => Ok(BackupGroup::new(name)),
            Err(e) => Err(e),
        }
    }

    /// Deletes a backup group with all its backups.
    pub fn delete_backup_group(&self, group_name: &str) -> (r: Result<(), String>)
        ensures
            !self.writable ==> (r matches Err(e) && e@ == read_only_message()),
    {
        if !self.writable {
            return Err(String::from_str("An attempt to modify a read-only backup storage"));
        }
        let path = self.get_backup_group_path(group_name);
        self.provider.delete(path.as_str())
    }

    /// Creates a new (temporary) backup directory for a backup of the given name, in the
    /// last backup group if it has fewer than `max_backups` backups, else in a new group of
    /// the given name.
    pub fn create_backup(
        &self,
        max_backups: usize,
        group_name: &str,
        backup_name: &str,
        log: &mut Vec<LogRecord>,
    ) -> (r: Result<(BackupGroup, Backup), String>)
        ensures
            extends(final(log)@, old(log)@),
            !self.writable ==> (r matches Err(e) && e@ == read_only_message()),
            r matches Ok((g, b)) ==> b@.name == backup_name@ && b@.inner_stat is None
                && b@.path == trim_trailing_slashes(self.path@) + "/"@ + g.name@ + "/"@
                    + backup_file_name_spec(self.provider.kind(), backup_name@, true),
            r matches Ok((g, b)) ==> ({
                ||| g.name@ == group_name@ && g.backups@.len() == 0
                ||| g.backups@.len() < max_backups && exists|files: Seq<FileView>| #![trigger group_names(files, group_name_pattern())] {
                        &&& names_sorted(files)
                        &&& group_names(files, group_name_pattern()).len() > 0
                        &&& group_names(files, group_name_pattern()).last() == g.name@
                    }
            }),
    {
        if !self.writable {
            return Err(String::from_str("An attempt to modify a read-only backup storage"));
        }
        let t = self.provider.type_();
        let traits = BackupTraits::get_for(t);
        let is_directory = match traits.file_type {
            FileType::Directory => true,
            _ => false,
        };
        if !is_directory {
            let mut m = String::from_str("Backup creation is not supported for ");
            m.append(self.name());
            m.append(" provider");
            return Err(m);
        }
        let (mut groups, _ok) = match self.get_backup_groups(false, log) {
            Ok(r) => r,
            Err(e) => return Err(e),
        };
        let group = match choose_backup_group(&groups, max_backups, group_name) {
            GroupChoice::UseLast => {
                proof {
                    assert(group_sizes(groups@).last() == (groups@.last().name@, groups@.last().backups@.len()));
                    assert(names_of(groups@).last() == groups@.last().name@);
                }
                let g = groups.pop().unwrap();
                let mut m = String::from_str("Using ");
                m.append(debug_str(g.name.as_str()).as_str());
                m.append(" backup group on ");
                m.append(self.name());
                m.append(".");
                crate::logging::log(log, Level::Info, m);
                g
            },
            GroupChoice::Exists => {
                let mut m = String::from_str("Unable to create new backup group (");
                m.append(group_name);
                m.append("): it already exists");
                return Err(m);
            },
            GroupChoice::Create => match self.create_backup_group(group_name, log) {
                Ok(g) => g,
                Err(e) => return Err(e),
            },
        };
        let backup_path = self.get_backup_path(group.name.as_str(), backup_name, true);
        let backup = Backup::new(backup_path.as_str(), backup_name);
        let mut m = String::from_str("Creating ");
        m.append(debug_str(backup_name).as_str());
        m.append(" backup on ");
        m.append(self.name());
        m.append("...");
        crate::logging::log(log, Level::Info, m);
        match self.provider.create_directory(backup.path.as_str()) {
            Ok(()) => Ok((group, backup)),
            Err(e) => Err(e),
        }
    }

    /// Deletes a backup group, logging the deletion and its failure.
    fn delete_group_logged(&self, group_name: &str, log: &mut Vec<LogRecord>) -> (r: Result<(), String>)
        ensures
            extends(final(log)@, old(log)@),
            !self.writable ==> (r matches Err(e) && e@ == read_only_message()),
            messages_of(final(log)@.subrange(old(log)@.len() as int, final(log)@.len() as int))
                == deletion_messages(seq![group_name@], seq![match r { Ok(()) => None, Err(e) => Some(e@) }]),
    {
        let ghost before = log@;
        let mut m = String::from_str("Deleting ");
        m.append(debug_str(group_name).as_str());
        m.append(" backup group...");
        let ghost m1 = m@;
        crate::logging::log(log, Level::Info, m);
        let ghost after1 = log@;
        proof {
            assert(messages_of(after1.subrange(before.len() as int, after1.len() as int)) =~= seq![m1]);
        }
        let r = self.delete_backup_group(group_name);
        let ghost tail: Seq<Seq<char>> = seq![];
        match &r {
            Ok(()) => {},
            Err(e) => {
                let mut m = String::from_str("Failed to delete ");
                m.append(debug_str(group_name).as_str());
                m.append(" backup group: ");
                m.append(e.as_str());
                m.append(".");
                let ghost m2 = m@;
                crate::logging::log(log, Level::Error, m);
                proof {
                    tail = seq![m2];
                    assert(log@.subrange(before.len() as int, log@.len() as int)
                        =~= after1.subrange(before.len() as int, after1.len() as int).push(log@.last()));
                }
            },
        }
        proof {
            let e = match &r { Ok(()) => None, Err(e) => Some(e@) };
            lemma_deletion_messages_push(Seq::<Seq<char>>::empty(), Seq::<Option<Seq<char>>>::empty(), group_name@, e);
            assert(m1 == deleting_message(group_name@));
            assert(tail =~= failure_messages(group_name@, e));
            assert(messages_of(log@.subrange(before.len() as int, log@.len() as int)) =~= seq![m1] + tail);
        }
        r
    }

    /// Deletes the oldest backup groups, keeping the last `max_groups`, unless something is
    /// wrong with the groups. Returns whether nothing went wrong.
    pub fn gc_groups(&self, max_groups: usize, log: &mut Vec<LogRecord>) -> (r: Result<bool, String>)
        ensures
            extends(final(log)@, old(log)@),
            r matches Ok(ok) ==> exists|names: Seq<Seq<char>>, listed_ok: bool, errors: Seq<Option<Seq<char>>>, mid: int|
                #![trigger gc_messages(names, listed_ok, max_groups as nat, errors), final(log)@.subrange(mid, final(log)@.len() as int)]
                {
                    &&& old(log)@.len() <= mid <= final(log)@.len()
                    &&& exists|files: Seq<FileView>| #![trigger group_names(files, group_name_pattern())]
                        names_sorted(files) && names == group_names(files, group_name_pattern())
                    &&& errors.len() == groups_to_delete_spec(names.len(), max_groups as nat, listed_ok)
                    &&& !self.writable ==> forall|j: int| 0 <= j < errors.len() ==> #[trigger] errors[j] == Some(read_only_message())
                    &&& messages_of(final(log)@.subrange(mid, final(log)@.len() as int)) == gc_messages(names, listed_ok, max_groups as nat, errors)
                    &&& ok == (listed_ok && forall|j: int| 0 <= j < errors.len() ==> #[trigger] errors[j] is None)
                },
    {
        let (groups, mut ok) = match self.get_backup_groups(false, log) {
            Ok(r) => r,
            Err(e) => return Err(e),
        };
        let ghost names = names_of(groups@);
        let ghost listed_ok = ok;
        let ghost mid = log@.len() as int;
        if groups.len() <= max_groups {
            assert(messages_of(log@.subrange(mid, log@.len() as int)) =~= gc_messages(names, listed_ok, max_groups as nat, seq![]));
            return Ok(ok);
        }
        if !ok {
            crate::logging::log(log, Level::Error, String::from_str("Do not remove old backup groups due to errors above."));
            assert(messages_of(log@.subrange(mid, log@.len() as int)) =~= gc_messages(names, listed_ok, max_groups as nat, seq![]));
            return Ok(ok);
        }
        let count = groups_to_delete(groups.len(), max_groups, ok);
        let ghost mut errors: Seq<Option<Seq<char>>> = seq![];
        let ghost log_at_mid = log@;
        let mut i: usize = 0;
        while i < count
            invariant
                count <= groups@.len(),
                count == groups_to_delete_spec(names.len(), max_groups as nat, listed_ok),
                names == names_of(groups@),
                listed_ok,
                i <= count,
                errors.len() == i,
                extends(log@, old(log)@),
                old(log)@.len() <= mid <= log@.len(),
                messages_of(log@.subrange(mid, log@.len() as int)) == deletion_messages(names.take(i as int), errors),
                !self.writable ==> forall|j: int| 0 <= j < errors.len() ==> #[trigger] errors[j] == Some(read_only_message()),
                ok == forall|j: int| 0 <= j < errors.len() ==> #[trigger] errors[j] is None,
            decreases count - i,
        {
            let ghost before = log@;
            let group = &groups[i];
            let result = self.delete_group_logged(group.name.as_str(), log);
            let ghost error: Option<Seq<char>> = match &result {
                Ok(()) => None,
                Err(e) => Some(e@),
            };
            if result.is_err() {
                ok = false;
            }
            proof {
                let e0 = errors;
                errors = errors.push(error);
                assert(names.take(i + 1).drop_last() =~= names.take(i as int));
                assert(errors.drop_last() =~= e0);
                assert(names.take(i + 1)[i as int] == group.name@);
                lemma_deletion_messages_push(names.take(i as int), e0, group.name@, error);
                assert(names.take(i as int).push(group.name@) =~= names.take(i + 1));
                assert(error is None <==> result is Ok);
                assert(log@.subrange(mid, before.len() as int) =~= before.subrange(mid, before.len() as int));
                assert(messages_of(log@.subrange(mid, log@.len() as int)) =~= messages_of(before.subrange(mid, before.len() as int))
                    + messages_of(log@.subrange(before.len() as int, log@.len() as int)));
                assert forall|j: int| 0 <= j < errors.len() implies (#[trigger] errors[j] is None) == (if j < i { e0[j] is None } else { error is None }) by {}
            }
            i += 1;
        }
        assert(messages_of(log@.subrange(mid, log@.len() as int)) =~= gc_messages(names, listed_ok, max_groups as nat, errors));
        Ok(ok)
    }
}

/// Whether every backup of some groups has been inspected (has the statistics of its
/// files).
pub open spec fn all_inspected(groups: Seq<BackupGroup>) -> bool {
    forall|i: int, j: int| 0 <= i < groups.len() && 0 <= j < groups[i].backups@.len()
        ==> (#[trigger] groups[i].backups@[j])@.inner_stat is Some
}

/// The messages of some log records.
pub open spec fn messages_of(records: Seq<LogRecord>) -> Seq<Seq<char>> {
    records.map_values(|r: LogRecord| r.message@)
}

/// The messages of deleting backup groups of the given names, in order, with the error that
/// each deletion ended with, if any.
pub open spec fn deletion_messages(names: Seq<Seq<char>>, errors: Seq<Option<Seq<char>>>) -> Seq<Seq<char>>
    decreases names.len(),
{
    if names.len() == 0 {
        seq![]
    } else {
        let k = names.len() - 1;
        deletion_messages(names.drop_last(), errors.drop_last())
            + seq![deleting_message(names[k])]
            + failure_messages(names[k], errors[k])
    }
}

/// The message of deleting a backup group.
pub open spec fn deleting_message(name: Seq<char>) -> Seq<char> {
    "Deleting "@ + debug_quoted(name) + " backup group..."@
}

/// The message of a failed deletion of a backup group, if it failed.
pub open spec fn failure_messages(name: Seq<char>, error: Option<Seq<char>>) -> Seq<Seq<char>> {
    match error {
        Some(e) => seq!["Failed to delete "@ + debug_quoted(name) + " backup group: "@ + e + "."@],
        None => seq![],
    }
}

/// Deleting one more group adds its messages.
proof fn lemma_deletion_messages_push(names: Seq<Seq<char>>, errors: Seq<Option<Seq<char>>>, n: Seq<char>, e: Option<Seq<char>>)
    requires
        names.len() == errors.len(),
    ensures
        deletion_messages(names.push(n), errors.push(e)) == deletion_messages(names, errors) + seq![deleting_message(n)] + failure_messages(n, e),
        deletion_messages(seq![n], seq![e]) == seq![deleting_message(n)] + failure_messages(n, e),
{
    assert(names.push(n).drop_last() =~= names);
    assert(errors.push(e).drop_last() =~= errors);
    assert(seq![n].drop_last() =~= Seq::<Seq<char>>::empty());
    assert(seq![e].drop_last() =~= Seq::<Option<Seq<char>>>::empty());
    assert(Seq::<Seq<char>>::empty() + seq![deleting_message(n)] + failure_messages(n, e) =~= seq![deleting_message(n)] + failure_messages(n, e));
    assert(deletion_messages(Seq::<Seq<char>>::empty(), Seq::<Option<Seq<char>>>::empty()) == Seq::<Seq<char>>::empty());
    assert(seq![n][0] == n && seq![e][0] == e);
    assert(seq![n].len() - 1 == 0);
    assert(deletion_messages(seq![n], seq![e]) == deletion_messages(seq![n].drop_last(), seq![e].drop_last())
        + seq![deleting_message(seq![n][0])] + failure_messages(seq![n][0], seq![e][0]));
}

/// Where the messages of the deletion of the `k`-th group start, given how each deletion
/// ended.
pub open spec fn deletion_position(errors: Seq<Option<Seq<char>>>, k: int) -> int
    decreases k,
{
    if k <= 0 {
        0
    } else {
        deletion_position(errors, k - 1) + 1 + if errors[k - 1] is Some { 1int } else { 0int }
    }
}

proof fn lemma_position_prefix(a: Seq<Option<Seq<char>>>, b: Seq<Option<Seq<char>>>, k: int)
    requires
        0 <= k,
        forall|j: int| 0 <= j < k ==> a[j] == b[j],
    ensures
        deletion_position(a, k) == deletion_position(b, k),
    decreases k,
{
    if k > 0 {
        lemma_position_prefix(a, b, k - 1);
    }
}

proof fn lemma_position_nonneg(a: Seq<Option<Seq<char>>>, k: int)
    ensures
        deletion_position(a, k) >= 0,
    decreases k,
{
    if k > 0 {
        lemma_position_nonneg(a, k - 1);
    }
}

proof fn lemma_position_increases(a: Seq<Option<Seq<char>>>, k: int, j: int)
    requires
        0 <= k < j,
    ensures
        deletion_position(a, k) < deletion_position(a, j),
    decreases j,
{
    if k < j - 1 {
        lemma_position_increases(a, k, j - 1);
    }
}

proof fn lemma_deletion_positions(names: Seq<Seq<char>>, errors: Seq<Option<Seq<char>>>)
    requires
        names.len() == errors.len(),
    ensures
        deletion_messages(names, errors).len() == deletion_position(errors, names.len() as int),
        forall|k: int| 0 <= k < names.len()
            ==> deletion_messages(names, errors)[#[trigger] deletion_position(errors, k)] == deleting_message(names[k]),
    decreases names.len(),
{
    if names.len() > 0 {
        let m = names.len() - 1;
        let ni = names.drop_last();
        let ei = errors.drop_last();
        lemma_deletion_positions(ni, ei);
        let d0 = deletion_messages(ni, ei);
        let d = deletion_messages(names, errors);
        assert forall|k: int| 0 <= k <= m implies deletion_position(errors, k) == #[trigger] deletion_position(ei, k) by {
            lemma_position_prefix(errors, ei, k);
        }
        assert(deletion_position(errors, m) == deletion_position(ei, m));
        assert forall|k: int| 0 <= k < names.len()
            implies d[#[trigger] deletion_position(errors, k)] == deleting_message(names[k]) by {
            assert(deletion_position(errors, k) == deletion_position(ei, k));
            if k < m {
                assert(ni[k] == names[k]);
                lemma_position_increases(ei, k, m);
                lemma_position_nonneg(ei, k);
                assert(d[deletion_position(ei, k)] == d0[deletion_position(ei, k)]);
            } else {
                assert(d[d0.len() as int] == deleting_message(names[m]));
            }
        }
    }
}

/// Collecting backup groups deletes the oldest ones, in order, and keeps the newest
/// `max_groups`: when there are more groups than that (and nothing was wrong with them), the
/// `k`-th deletion (whose messages start at `deletion_position(errors, k)`) is that of the
/// `k`-th oldest group, for each of the first `names.len() - max_groups` groups, and there
/// are no other messages.
pub proof fn lemma_gc_deletes_oldest(names: Seq<Seq<char>>, max_groups: nat, errors: Seq<Option<Seq<char>>>)
    requires
        names.len() > max_groups,
        errors.len() == names.len() - max_groups,
    ensures
        ({
            let msgs = gc_messages(names, true, max_groups, errors);
            let d = names.len() - max_groups;
            &&& msgs.len() == deletion_position(errors, d)
            &&& forall|k: int| 0 <= k < d ==> msgs[#[trigger] deletion_position(errors, k)] == deleting_message(names[k])
            &&& names.skip(d).len() == max_groups
        }),
{
    let d = names.len() - max_groups;
    assert(groups_to_delete_spec(names.len(), max_groups, true) == d);
    lemma_deletion_positions(names.take(d), errors);
    assert forall|k: int| 0 <= k < d implies names.take(d)[k] == names[k] by {}
}

/// The messages of collecting the backup groups of the given names (in order): none when no
/// more than `max_groups` are kept; a refusal when something was wrong with them; else the
/// deletion of the oldest ones, with each deletion's error.
pub open spec fn gc_messages(names: Seq<Seq<char>>, listed_ok: bool, max_groups: nat, errors: Seq<Option<Seq<char>>>) -> Seq<Seq<char>> {
    if names.len() <= max_groups {
        seq![]
    } else if !listed_ok {
        seq!["Do not remove old backup groups due to errors above."@]
    } else {
        deletion_messages(names.take(groups_to_delete_spec(names.len(), max_groups, listed_ok) as int), errors)
    }
}


/// The groups (names and backup counts, oldest first) after a backup in a group of the
/// given name is made (see `group_choice_spec`) and the oldest groups beyond `max_groups`
/// are deleted (see `groups_to_delete_spec`).
pub open spec fn after_backup(groups: Seq<(Seq<char>, nat)>, max_backups: nat, max_groups: nat, new_name: Seq<char>) -> Seq<(Seq<char>, nat)> {
    let added = match group_choice_spec(groups, max_backups, new_name) {
        GroupChoice::UseLast => groups.update(groups.len() - 1, (groups.last().0, groups.last().1 + 1)),
        GroupChoice::Create => groups.push((new_name, 1nat)),
        GroupChoice::Exists => groups,
    };
    added.skip(groups_to_delete_spec(added.len(), max_groups, true) as int)
}

/// The groups after one backup for each of the given group names, in order, starting with
/// none.
pub open spec fn after_backups(names: Seq<Seq<char>>, max_backups: nat, max_groups: nat) -> Seq<(Seq<char>, nat)>
    decreases names.len(),
{
    if names.len() == 0 {
        seq![]
    } else {
        after_backup(after_backups(names.drop_last(), max_backups, max_groups), max_backups, max_groups, names.last())
    }
}

/// The groups after some backups are named by some of the group names given.
proof fn lemma_group_names_given(names: Seq<Seq<char>>, max_backups: nat, max_groups: nat)
    ensures
        forall|j: int| 0 <= j < after_backups(names, max_backups, max_groups).len()
            ==> names.contains(#[trigger] after_backups(names, max_backups, max_groups)[j].0),
    decreases names.len(),
{
    if names.len() > 0 {
        let init = names.drop_last();
        lemma_group_names_given(init, max_backups, max_groups);
        let gs = after_backups(init, max_backups, max_groups);
        let n = names.last();
        let added = match group_choice_spec(gs, max_backups, n) {
            GroupChoice::UseLast => gs.update(gs.len() - 1, (gs.last().0, gs.last().1 + 1)),
            GroupChoice::Create => gs.push((n, 1nat)),
            GroupChoice::Exists => gs,
        };
        let d = groups_to_delete_spec(added.len(), max_groups, true) as int;
        assert forall|j: int| 0 <= j < added.len() implies names.contains(#[trigger] added[j].0) by {
            if j < gs.len() {
                let t = gs[j].0;
                assert(init.contains(t));
                let i = choose|i: int| 0 <= i < init.len() && init[i] == t;
                assert(names[i] == init[i]);
            } else {
                assert(names[names.len() - 1] == n);
            }
        }
        assert forall|j: int| 0 <= j < added.skip(d).len() implies names.contains(#[trigger] added.skip(d)[j].0) by {
            assert(added.skip(d)[j] == added[j + d]);
        }
    }
}

/// Rotation of backup groups: with room for `max_backups` backups per group and
/// `max_groups` groups, and a group name of its own for each backup, a group fills up
/// before a new one starts, and only the newest groups are kept: after `k` backups there are
/// `min((k - 1) / max_backups + 1, max_groups)` groups, the last with
/// `(k - 1) % max_backups + 1` backups.
pub proof fn lemma_group_rotation(names: Seq<Seq<char>>, max_backups: nat, max_groups: nat)
    requires
        max_backups >= 1,
        max_groups >= 1,
        names.len() >= 1,
        forall|i: int, j: int| 0 <= i < j < names.len() ==> names[i] != names[j],
    ensures
        ({
            let k = names.len();
            let gs = after_backups(names, max_backups, max_groups);
            let full = ((k - 1) as nat / max_backups + 1) as nat;
            &&& gs.len() == (if full <= max_groups { full } else { max_groups })
            &&& gs.last().1 == (k - 1) as nat % max_backups + 1
        }),
    decreases names.len(),
{
    let k = names.len();
    let init = names.drop_last();
    let n = names.last();
    let gs = after_backups(init, max_backups, max_groups);
    lemma_group_names_given(init, max_backups, max_groups);
    assert(forall|j: int| 0 <= j < gs.len() ==> (#[trigger] gs[j]).0 != n) by {
        assert forall|j: int| 0 <= j < gs.len() implies (#[trigger] gs[j]).0 != n by {
            assert(init.contains(gs[j].0));
            let i = choose|i: int| 0 <= i < init.len() && init[i] == gs[j].0;
            assert(names[i] == init[i]);
        }
    }
    if k == 1 {
        assert(init.len() == 0);
        assert(gs.len() == 0);
        assert(group_choice_spec(gs, max_backups, n) == GroupChoice::Create);
        assert(0nat / max_backups == 0) by (nonlinear_arith) requires max_backups >= 1;
        assert(0nat % max_backups == 0) by (nonlinear_arith) requires max_backups >= 1;
        assert(gs.push((n, 1nat)).skip(0) =~= gs.push((n, 1nat)));
    } else {
        assert forall|i: int, j: int| 0 <= i < j < init.len() implies init[i] != init[j] by {
            assert(init[i] == names[i] && init[j] == names[j]);
        }
        lemma_group_rotation(init, max_backups, max_groups);
        let m = (k - 2) as nat;
        let q = m / max_backups;
        let r = m % max_backups;
        assert(m == q * max_backups + r && r < max_backups) by (nonlinear_arith) requires max_backups >= 1, q == m / max_backups, r == m % max_backups;
        let full0 = q + 1;
        assert(gs.len() == (if full0 <= max_groups { full0 } else { max_groups }));
        assert(gs.len() >= 1);
        if r + 1 < max_backups {
            assert(group_choice_spec(gs, max_backups, n) == GroupChoice::UseLast);
            let added = gs.update(gs.len() - 1, (gs.last().0, gs.last().1 + 1));
            assert(added.skip(0) =~= added);
            assert((m + 1) / max_backups == q && (m + 1) % max_backups == r + 1) by (nonlinear_arith)
                requires max_backups >= 1, m == q * max_backups + r, r + 1 < max_backups;
        } else {
            assert(r + 1 == max_backups);
            assert(!(exists|j: int| 0 <= j < gs.len() && (#[trigger] gs[j]).0 == n));
            assert(group_choice_spec(gs, max_backups, n) == GroupChoice::Create);
            let added = gs.push((n, 1nat));
            assert((m + 1) / max_backups == q + 1 && (m + 1) % max_backups == 0) by (nonlinear_arith)
                requires max_backups >= 1, m == q * max_backups + r, r + 1 == max_backups;
            let d = groups_to_delete_spec(added.len(), max_groups, true) as int;
            assert(added.skip(d).last() == added.last());
        }
    }
}

} // verus!
