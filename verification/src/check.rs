//! Checking the backups of a storage: empty groups, no backups at all, and a last backup
//! that is too old.

use vstd::prelude::*;

use crate::logging::{Level, LogRecord, extends, records};
use crate::text::debug_quoted;
use crate::storage::backup_group::BackupGroup;
use crate::storage::Storage;
use crate::storage::invalid_backup_name_message;
use crate::storage::provider::ReadProvider;
use crate::text::{debug_str, decimal, u64_to_string};

verus! {

/// The name of the last backup of the last group that has backups.
pub open spec fn last_backup_spec(groups: Seq<BackupGroup>) -> Option<Seq<char>>
    decreases groups.len(),
{
    if groups.len() == 0 {
        None
    } else if groups.last().backups@.len() > 0 {
        Some(groups.last().backups@.last().name@)
    } else {
        last_backup_spec(groups.drop_last())
    }
}

/// The last backup is that of the last group with backups: it is the last backup of some
/// group that has backups, and every later group is empty; there is none exactly when every
/// group is empty.
pub proof fn lemma_last_backup_of_last_group(groups: Seq<BackupGroup>)
    ensures
        last_backup_spec(groups) matches Some(n) ==> exists|i: int| {
            &&& 0 <= i < groups.len()
            &&& (#[trigger] groups[i]).backups@.len() > 0
            &&& n == groups[i].backups@.last().name@
            &&& forall|j: int| i < j < groups.len() ==> (#[trigger] groups[j]).backups@.len() == 0
        },
        last_backup_spec(groups) is None <==> forall|j: int| 0 <= j < groups.len() ==> (#[trigger] groups[j]).backups@.len() == 0,
    decreases groups.len(),
{
    if groups.len() > 0 {
        let init = groups.drop_last();
        lemma_last_backup_of_last_group(init);
        let m = groups.len() - 1;
        if groups.last().backups@.len() > 0 {
            assert(groups[m].backups@.len() > 0);
        } else {
            if last_backup_spec(init) is Some {
                let n = last_backup_spec(init)->Some_0;
                let i = choose|i: int| {
                    &&& 0 <= i < init.len()
                    &&& (#[trigger] init[i]).backups@.len() > 0
                    &&& n == init[i].backups@.last().name@
                    &&& forall|j: int| i < j < init.len() ==> (#[trigger] init[j]).backups@.len() == 0
                };
                assert(groups[i] == init[i]);
                assert forall|j: int| i < j < groups.len() implies (#[trigger] groups[j]).backups@.len() == 0 by {
                    if j < m {
                        assert(groups[j] == init[j]);
                    }
                }
            }
            assert((forall|j: int| 0 <= j < groups.len() ==> (#[trigger] groups[j]).backups@.len() == 0)
                <==> (forall|j: int| 0 <= j < init.len() ==> (#[trigger] init[j]).backups@.len() == 0)) by {
                if forall|j: int| 0 <= j < init.len() ==> (#[trigger] init[j]).backups@.len() == 0 {
                    assert forall|j: int| 0 <= j < groups.len() implies (#[trigger] groups[j]).backups@.len() == 0 by {
                        if j < m {
                            assert(groups[j] == init[j]);
                        }
                    }
                }
                if forall|j: int| 0 <= j < groups.len() ==> (#[trigger] groups[j]).backups@.len() == 0 {
                    assert forall|j: int| 0 <= j < init.len() implies (#[trigger] init[j]).backups@.len() == 0 by {
                        assert(groups[j] == init[j]);
                    }
                }
            }
        }
    }
}

/// The message of an empty backup group.
pub open spec fn empty_group_message(storage_name: Seq<char>, group_name: Seq<char>) -> Seq<char> {
    storage_name + " has an empty "@ + debug_quoted(group_name) + " backup group."@
}

/// The message of a storage without backups.
pub open spec fn no_backups_message(storage_name: Seq<char>) -> Seq<char> {
    storage_name + " have no backups."@
}

/// What is logged of the empty groups among some groups, in order: an error for each if the
/// storage is otherwise consistent, else a warning.
pub open spec fn empty_group_records(storage_name: Seq<char>, groups: Seq<BackupGroup>, consistent: bool) -> Seq<(Level, Seq<char>)>
    decreases groups.len(),
{
    if groups.len() == 0 {
        seq![]
    } else {
        let before = empty_group_records(storage_name, groups.drop_last(), consistent);
        if groups.last().backups@.len() == 0 {
            before.push((if consistent { Level::Error } else { Level::Warn }, empty_group_message(storage_name, groups.last().name@)))
        } else {
            before
        }
    }
}

/// What finding the last backup logs: the empty groups, then an error if there is no backup.
pub open spec fn last_backup_records(storage_name: Seq<char>, groups: Seq<BackupGroup>, consistent: bool) -> Seq<(Level, Seq<char>)> {
    empty_group_records(storage_name, groups, consistent) + if last_backup_spec(groups) is None {
        seq![(Level::Error, no_backups_message(storage_name))]
    } else {
        seq![]
    }
}

/// Finds the last backup of a storage's groups. Each empty group is logged (as an error if
/// the storage is otherwise consistent, else as a warning), and so is a storage without
/// backups (see `last_backup_records`).
pub fn find_last_backup(storage_name: &str, groups: &[BackupGroup], consistent: bool, log: &mut Vec<LogRecord>) -> (r: Option<String>)
    ensures
        match r {
            Some(name) => last_backup_spec(groups@) == Some(name@),
            None => last_backup_spec(groups@) is None,
        },
        r matches Some(n) ==> exists|i: int| {
            &&& 0 <= i < groups@.len()
            &&& (#[trigger] groups@[i]).backups@.len() > 0
            &&& n@ == groups@[i].backups@.last().name@
            &&& forall|j: int| i < j < groups@.len() ==> (#[trigger] groups@[j]).backups@.len() == 0
        },
        r is None <==> forall|j: int| 0 <= j < groups@.len() ==> (#[trigger] groups@[j]).backups@.len() == 0,
        records(final(log)@) == records(old(log)@) + last_backup_records(storage_name@, groups@, consistent),
        extends(final(log)@, old(log)@),
{
    let mut last: Option<String> = None;
    let mut i: usize = 0;
    while i < groups.len()
        invariant
            i <= groups@.len(),
            match last {
                Some(name) => last_backup_spec(groups@.take(i as int)) == Some(name@),
                None => last_backup_spec(groups@.take(i as int)) is None,
            },
            records(log@) == records(old(log)@) + empty_group_records(storage_name@, groups@.take(i as int), consistent),
            extends(log@, old(log)@),
        decreases groups@.len() - i,
    {
        proof {
            assert(groups@.take(i + 1).drop_last() =~= groups@.take(i as int));
            assert(groups@.take(i + 1).last() == groups@[i as int]);
        }
        let group = &groups[i];
        let ghost before = log@;
        if group.backups.len() == 0 {
            let mut m = String::from_str(storage_name);
            m.append(" has an empty ");
            m.append(debug_str(group.name.as_str()).as_str());
            m.append(" backup group.");
            crate::logging::log(log, if consistent { Level::Error } else { Level::Warn }, m);
            proof {
                assert(records(log@) =~= records(before).push((log@.last().level, log@.last().message@)));
            }
        } else {
            let n = group.backups.len();
            last = Some(String::from_str(group.backups[n - 1].name.as_str()));
        }
        i += 1;
    }
    assert(groups@.take(i as int) =~= groups@);
    let ghost before = log@;
    if last.is_none() {
        let mut m = String::from_str(storage_name);
        m.append(" have no backups.");
        crate::logging::log(log, Level::Error, m);
        proof {
            assert(records(log@) =~= records(before).push((log@.last().level, log@.last().message@)));
        }
    } else {
        assert(records(before) + seq![] =~= records(before));
    }
    assert(records(before).push((Level::Error, no_backups_message(storage_name@)))
        =~= records(before) + seq![(Level::Error, no_backups_message(storage_name@))]);
    proof {
        lemma_last_backup_of_last_group(groups@);
    }
    last
}

/// Seconds in a day, an hour and a minute.
pub open spec fn day_seconds() -> nat { 86400 }
pub open spec fn hour_seconds() -> nat { 3600 }
pub open spec fn minute_seconds() -> nat { 60 }

/// `"<n> <unit>"` if `n` is not zero, else nothing.
pub open spec fn unit_part(n: nat, unit: Seq<char>) -> Seq<Seq<char>> {
    if n != 0 { seq![decimal(n) + " "@ + unit] } else { seq![] }
}

/// The parts of a duration in whole days, hours and minutes (a unit that is zero is left
/// out; what is left of a unit is counted in the next only if the unit was not zero).
pub open spec fn duration_parts(secs: nat) -> Seq<Seq<char>> {
    let days = secs / day_seconds();
    let rest1 = if days != 0 { secs % day_seconds() } else { secs };
    let hours = rest1 / hour_seconds();
    let rest2 = if hours != 0 { rest1 % hour_seconds() } else { rest1 };
    let minutes = rest2 / minute_seconds();
    unit_part(days, "days"@) + unit_part(hours, "hours"@) + unit_part(minutes, "minutes"@)
}

/// Parts joined by spaces.
pub open spec fn join_spaces(parts: Seq<Seq<char>>) -> Seq<char>
    decreases parts.len(),
{
    if parts.len() == 0 {
        seq![]
    } else if parts.len() == 1 {
        parts[0]
    } else {
        join_spaces(parts.drop_last()) + " "@ + parts.last()
    }
}

/// A duration as people read it: `"1 days 2 hours 3 minutes"`.
pub open spec fn human_duration_spec(secs: nat) -> Seq<char> {
    join_spaces(duration_parts(secs))
}

/// Appends a part to a space-joined list.
fn push_part(out: &mut String, parts: Ghost<Seq<Seq<char>>>, empty: bool, n: u64, unit: &str) -> (r: (Ghost<Seq<Seq<char>>>, bool))
    requires
        old(out)@ == join_spaces(parts@),
        empty == (parts@.len() == 0),
    ensures
        r.0@ == parts@ + unit_part(n as nat, unit@),
        final(out)@ == join_spaces(r.0@),
        r.1 == (r.0@.len() == 0),
{
    if n == 0 {
        assert(parts@ + seq![] =~= parts@);
        return (Ghost(parts@), empty);
    }
    if !empty {
        out.append(" ");
    }
    let d = u64_to_string(n);
    out.append(d.as_str());
    out.append(" ");
    out.append(unit);
    let ghost r = parts@.push(decimal(n as nat) + " "@ + unit@);
    proof {
        reveal_strlit(" ");
        assert(r.drop_last() =~= parts@);
        assert(parts@ + unit_part(n as nat, unit@) =~= r);
        if parts@.len() == 0 {
            assert(out@ =~= decimal(n as nat) + " "@ + unit@);
        } else {
            assert(out@ =~= join_spaces(parts@) + " "@ + (decimal(n as nat) + " "@ + unit@));
        }
    }
    (Ghost(r), false)
}

/// A duration as people read it (see `human_duration_spec`).
pub fn human_duration(secs: u64) -> (r: String)
    ensures
        r@ == human_duration_spec(secs as nat),
{
    let mut out = String::new();
    let mut rest = secs;
    let days = rest / 86400;
    if days != 0 {
        rest = rest % 86400;
    }
    let hours = rest / 3600;
    if hours != 0 {
        rest = rest % 3600;
    }
    let minutes = rest / 60;
    assert(out@ =~= join_spaces(seq![]));
    let ghost none: Seq<Seq<char>> = Seq::empty();
    let (parts, empty) = push_part(&mut out, Ghost(none), true, days, "days");
    let (parts, empty) = push_part(&mut out, parts, empty, hours, "hours");
    let (parts, _) = push_part(&mut out, parts, empty, minutes, "minutes");
    proof {
        assert(parts@ =~= duration_parts(secs as nat));
    }
    out
}

/// The message of a last backup whose time lies in the future.
pub open spec fn future_backup_message(storage_name: Seq<char>, last_backup: Seq<char>) -> Seq<char> {
    "Failed to check last backup time: the latest backup ("@ + debug_quoted(last_backup) + ") on "@ + storage_name
        + " has backup time in the future."@
}

/// The message of a last backup that is too old.
pub open spec fn old_backup_message(storage_name: Seq<char>, elapsed: nat) -> Seq<char> {
    storage_name + " doesn't have any backup for last "@ + human_duration_spec(elapsed) + "."@
}

/// What checking the age of the last backup logs, given how long ago it was made (`None`
/// if its time lies in the future): nothing if it is younger than the limit, else an error.
pub open spec fn age_records(storage_name: Seq<char>, last_backup: Seq<char>, elapsed: Option<u64>, max_time: u64) -> Seq<(Level, Seq<char>)> {
    match elapsed {
        None => seq![(Level::Error, future_backup_message(storage_name, last_backup))],
        Some(e) => if e < max_time {
            seq![]
        } else {
            seq![(Level::Error, old_backup_message(storage_name, e as nat))]
        },
    }
}

/// Checks the age of the last backup, given how long ago it was made (`None` if its time
/// lies in the future): logs an error if it is at least `max_time_without_backups` seconds
/// old (see `age_records`). Returns whether the age is fine.
pub fn check_last_backup_age(
    storage_name: &str,
    last_backup: &str,
    elapsed: Option<u64>,
    max_time_without_backups: u64,
    log: &mut Vec<LogRecord>,
) -> (r: bool)
    ensures
        r == (elapsed matches Some(e) && e < max_time_without_backups),
        records(final(log)@) == records(old(log)@) + age_records(storage_name@, last_backup@, elapsed, max_time_without_backups),
        extends(final(log)@, old(log)@),
{
    let ghost before = log@;
    proof {
        assert(records(before) + seq![] =~= records(before));
    }
    match elapsed {
        None => {
            let mut m = String::from_str("Failed to check last backup time: the latest backup (");
            m.append(debug_str(last_backup).as_str());
            m.append(") on ");
            m.append(storage_name);
            m.append(" has backup time in the future.");
            crate::logging::log(log, Level::Error, m);
            proof {
                assert(records(log@) =~= records(before) + seq![(log@.last().level, log@.last().message@)]);
            }
            false
        },
        Some(e) => {
            if e < max_time_without_backups {
                return true;
            }
            let mut m = String::from_str(storage_name);
            m.append(" doesn't have any backup for last ");
            m.append(human_duration(e).as_str());
            m.append(".");
            crate::logging::log(log, Level::Error, m);
            proof {
                assert(records(log@) =~= records(before) + seq![(log@.last().level, log@.last().message@)]);
            }
            false
        },
    }
}


/// `chrono::Local::now`: the current time, in seconds since the epoch. Nothing is promised
/// of it.
#[verifier::external_body]
fn now_seconds() -> (r: i64) {
    chrono::Local::now().timestamp()
}

/// How long ago (in seconds) something was made, at `now`; `None` if it was made later.
pub fn backup_age(now: i64, made: i64) -> (r: Option<u64>)
    ensures
        r == (if made > now { None } else { Some((now - made) as u64) }),
{
    if made > now {
        None
    } else {
        let d = now as i128 - made as i128;
        Some(d as u64)
    }
}

/// The message of a last backup whose time can not be read from its name.
pub open spec fn backup_time_error_message(last_backup: Seq<char>) -> Seq<char> {
    "Failed to determine a time when backup has been created: "@ + invalid_backup_name_message(last_backup) + "."@
}

/// What checking the backups of a storage logs (see `check_backups`), given the storage's
/// name and what reading the time of the last backup gave: an error if its name stands for
/// no time, else how long ago it was made (`None` if later than now).
pub open spec fn check_records(
    storage_name: Seq<char>,
    groups: Seq<BackupGroup>,
    consistent: bool,
    max_time: Option<u64>,
    time: Result<Option<u64>, ()>,
) -> Seq<(Level, Seq<char>)> {
    last_backup_records(storage_name, groups, consistent) + match (last_backup_spec(groups), max_time) {
        (Some(last), Some(m)) => match time {
            Err(_) => seq![(Level::Error, backup_time_error_message(last))],
            Ok(elapsed) => age_records(storage_name, last, elapsed, m),
        },
        _ => seq![],
    }
}

/// Checks the backups of a storage: logs its empty groups and a storage without backups
/// (see `find_last_backup`), and, given a longest time without backups, a last backup that
/// is older (see `check_last_backup_age`) or whose time can not be read from its name.
pub fn check_backups<P: ReadProvider>(
    storage: &Storage<P>,
    groups: &[BackupGroup],
    consistent: bool,
    max_time_without_backups: Option<u64>,
    log: &mut Vec<LogRecord>,
)
    ensures
        extends(final(log)@, old(log)@),
        exists|name: Seq<char>, time: Result<Option<u64>, ()>|
            records(final(log)@) == records(old(log)@) + #[trigger] check_records(name, groups@, consistent, max_time_without_backups, time),
{
    let storage_name = storage.name();
    let ghost log0 = log@;
    let last = find_last_backup(storage_name, groups, consistent, log);
    let ghost log1 = log@;
    let (last, max_time) = match (last, max_time_without_backups) {
        (Some(last), Some(max_time)) => (last, max_time),
        _ => {
            proof {
                let t: Result<Option<u64>, ()> = Err(());
                assert(records(log@) == records(log0) + check_records(storage_name@, groups@, consistent, max_time_without_backups, t)) by {
                    assert(last_backup_records(storage_name@, groups@, consistent) + seq![]
                        =~= last_backup_records(storage_name@, groups@, consistent));
                }
            }
            return;
        },
    };
    let made = match storage.get_backup_time(last.as_str()) {
        Ok(made) => made,
        Err(e) => {
            let mut m = String::from_str("Failed to determine a time when backup has been created: ");
            m.append(e.as_str());
            m.append(".");
            crate::logging::log(log, Level::Error, m);
            proof {
                let t: Result<Option<u64>, ()> = Err(());
                assert(records(log@) =~= records(log1).push((log@.last().level, log@.last().message@)));
                assert(records(log@) =~= records(log0) + check_records(storage_name@, groups@, consistent, max_time_without_backups, t));
            }
            return;
        },
    };
    let elapsed = backup_age(now_seconds(), made);
    check_last_backup_age(storage_name, last.as_str(), elapsed, max_time, log);
    proof {
        let t: Result<Option<u64>, ()> = Ok(elapsed);
        assert(records(log@) =~= records(log0) + check_records(storage_name@, groups@, consistent, max_time_without_backups, t));
    }
}

} // verus!
