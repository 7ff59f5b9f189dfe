//! The figures that the program exports as metrics: those of the last backup and the
//! total size of all backups.

use vstd::prelude::*;

use crate::logging::{Level, LogRecord};
use crate::storage::backup::{Backup, BackupInnerStat, BackupOuterStat, capped};
use crate::storage::backup_group::BackupGroup;

verus! {

/// The last backup of the last group that has backups.
pub open spec fn last_backup_of(groups: Seq<BackupGroup>) -> Option<Backup>
    decreases groups.len(),
{
    if groups.len() == 0 {
        None
    } else if groups.last().backups@.len() > 0 {
        Some(groups.last().backups@.last())
    } else {
        last_backup_of(groups.drop_last())
    }
}

/// The message of a backup without statistics.
pub open spec fn no_statistics_message() -> Seq<char> {
    "The backup has no collected statistics"@
}

/// The statistics of the last backup (`None` if there is no backup); an error if it lacks
/// them.
pub fn collect_last_backup(groups: &[BackupGroup]) -> (r: Result<Option<(BackupInnerStat, BackupOuterStat)>, String>)
    ensures
        match last_backup_of(groups@) {
            None => r == Ok::<Option<(BackupInnerStat, BackupOuterStat)>, String>(None),
            Some(b) => match (b.inner_stat, b.outer_stat) {
                (Some(i), Some(o)) => r == Ok::<Option<(BackupInnerStat, BackupOuterStat)>, String>(Some((i, o))),
                _ => r matches Err(e) && e@ == no_statistics_message(),
            },
        },
{
    let mut k = groups.len();
    assert(groups@.take(k as int) =~= groups@);
    while k > 0
        invariant
            k <= groups@.len(),
            last_backup_of(groups@) == last_backup_of(groups@.take(k as int)),
        decreases k,
    {
        proof {
            assert(groups@.take(k as int).drop_last() =~= groups@.take(k - 1));
            assert(groups@.take(k as int).last() == groups@[k - 1]);
        }
        let n = groups[k - 1].backups.len();
        if n > 0 {
            let backup = &groups[k - 1].backups[n - 1];
            return match (backup.inner_stat, backup.outer_stat) {
                (Some(i), Some(o)) => Ok(Some((i, o))),
                _ => Err(String::from_str("The backup has no collected statistics")),
            };
        }
        k -= 1;
    }
    Ok(None)
}

/// The total metadata and data sizes of some backups, if all of them have statistics.
pub open spec fn backups_total(backups: Seq<Backup>) -> Option<(int, int)>
    decreases backups.len(),
{
    if backups.len() == 0 {
        Some((0, 0))
    } else {
        match (backups_total(backups.drop_last()), backups.last().outer_stat) {
            (Some((m, d)), Some(o)) => Some((m + o.metadata_size, d + o.data_size)),
            _ => None,
        }
    }
}

/// The total metadata and data sizes of the backups of some groups, if all of them have
/// statistics.
pub open spec fn groups_total(groups: Seq<BackupGroup>) -> Option<(int, int)>
    decreases groups.len(),
{
    if groups.len() == 0 {
        Some((0, 0))
    } else {
        match (groups_total(groups.drop_last()), backups_total(groups.last().backups@)) {
            (Some((m, d)), Some((m2, d2))) => Some((m + m2, d + d2)),
            _ => None,
        }
    }
}

/// Sizes are never negative.
proof fn lemma_totals_nonnegative(groups: Seq<BackupGroup>)
    ensures
        groups_total(groups) matches Some((m, d)) ==> m >= 0 && d >= 0,
    decreases groups.len(),
{
    if groups.len() > 0 {
        lemma_totals_nonnegative(groups.drop_last());
        lemma_backup_totals_nonnegative(groups.last().backups@);
    }
}

proof fn lemma_backup_totals_nonnegative(backups: Seq<Backup>)
    ensures
        backups_total(backups) matches Some((m, d)) ==> m >= 0 && d >= 0,
    decreases backups.len(),
{
    if backups.len() > 0 {
        lemma_backup_totals_nonnegative(backups.drop_last());
    }
}

/// The total metadata and data sizes of all backups (capped at the largest `u64`), or an
/// error if a backup lacks statistics.
pub fn collect_total(groups: &[BackupGroup]) -> (r: Result<(u64, u64), String>)
    ensures
        match groups_total(groups@) {
            Some((m, d)) => r == Ok::<(u64, u64), String>((capped(m), capped(d))),
            None => r matches Err(e) && e@ == no_statistics_message(),
        },
{
    let mut metadata_size: u64 = 0;
    let mut data_size: u64 = 0;
    let mut i: usize = 0;
    assert(groups@.take(0) =~= Seq::<BackupGroup>::empty());
    while i < groups.len()
        invariant
            i <= groups@.len(),
            groups_total(groups@.take(i as int)) matches Some((m, d))
                && metadata_size == capped(m) && data_size == capped(d),
        decreases groups@.len() - i,
    {
        let ghost before = groups_total(groups@.take(i as int));
        let backups = &groups[i].backups;
        let mut j: usize = 0;
        let ghost gm = before->Some_0.0;
        let ghost gd = before->Some_0.1;
        proof {
            lemma_totals_nonnegative(groups@.take(i as int));
        }
        assert(backups@.take(0) =~= Seq::<Backup>::empty());
        while j < backups.len()
            invariant
                i < groups@.len(),
                backups@ == groups@[i as int].backups@,
                j <= backups@.len(),
                gm >= 0 && gd >= 0,
                backups_total(backups@.take(j as int)) matches Some((m, d))
                    && metadata_size == capped(gm + m) && data_size == capped(gd + d),
            decreases backups@.len() - j,
        {
            proof {
                assert(backups@.take(j + 1).drop_last() =~= backups@.take(j as int));
                assert(backups@.take(j + 1).last() == backups@[j as int]);
                lemma_backup_totals_nonnegative(backups@.take(j as int));
            }
            let stat = match backups[j].outer_stat {
                Some(stat) => stat,
                None => {
                    proof {
                        lemma_total_fails(groups@, i as int, j as int);
                    }
                    return Err(String::from_str("The backup has no collected statistics"));
                },
            };
            metadata_size = metadata_size.saturating_add(stat.metadata_size);
            data_size = data_size.saturating_add(stat.data_size);
            j += 1;
        }
        proof {
            assert(backups@.take(j as int) =~= backups@);
            assert(groups@.take(i + 1).drop_last() =~= groups@.take(i as int));
            assert(groups@.take(i + 1).last() == groups@[i as int]);
        }
        i += 1;
    }
    assert(groups@.take(i as int) =~= groups@);
    Ok((metadata_size, data_size))
}

/// A backup without statistics spoils the totals.
proof fn lemma_total_fails(groups: Seq<BackupGroup>, i: int, j: int)
    requires
        0 <= i < groups.len(),
        0 <= j < groups[i].backups@.len(),
        groups[i].backups@[j].outer_stat is None,
    ensures
        groups_total(groups) is None,
    decreases groups.len(),
{
    if i < groups.len() - 1 {
        lemma_total_fails(groups.drop_last(), i, j);
    } else {
        lemma_backups_total_fails(groups[i].backups@, j);
    }
}

proof fn lemma_backups_total_fails(backups: Seq<Backup>, j: int)
    requires
        0 <= j < backups.len(),
        backups[j].outer_stat is None,
    ensures
        backups_total(backups) is None,
    decreases backups.len(),
{
    if j < backups.len() - 1 {
        lemma_backups_total_fails(backups.drop_last(), j);
    }
}

} // verus!

verus! {

/// The gauges that the program exports.
#[derive(Clone, Copy, Debug, PartialEq, Eq, Structural)]
pub enum Gauge {
    /// The number of files in the last backup.
    Files,
    /// The size of the files in the last backup.
    FilesSize,
    /// The size of the last backup.
    Size,
    /// The total size of all backups.
    TotalSize,
}

/// One value of a gauge, labelled by the backup's name and a type.
pub struct Sample {
    pub gauge: Gauge,
    pub name: String,
    pub type_: String,
    pub value: u64,
}

/// A sample as values.
pub open spec fn sample_view(s: Sample) -> (Gauge, Seq<char>, Seq<char>, u64) {
    (s.gauge, s.name@, s.type_@, s.value)
}

/// The samples of the last backup.
pub open spec fn last_backup_samples(name: Seq<char>, inner: BackupInnerStat, outer: BackupOuterStat) -> Seq<(Gauge, Seq<char>, Seq<char>, u64)> {
    seq![
        (Gauge::Files, name, "extern"@, inner.extern_files as u64),
        (Gauge::Files, name, "unique"@, inner.unique_files as u64),
        (Gauge::FilesSize, name, "extern"@, inner.extern_size),
        (Gauge::FilesSize, name, "unique"@, inner.unique_size),
        (Gauge::Size, name, "metadata"@, outer.metadata_size),
        (Gauge::Size, name, "data"@, outer.data_size),
    ]
}

/// The samples of the totals.
pub open spec fn total_samples(name: Seq<char>, metadata_size: u64, data_size: u64) -> Seq<(Gauge, Seq<char>, Seq<char>, u64)> {
    seq![
        (Gauge::TotalSize, name, "metadata"@, metadata_size),
        (Gauge::TotalSize, name, "data"@, data_size),
    ]
}

fn push_sample(samples: &mut Vec<Sample>, gauge: Gauge, name: &str, type_: &str, value: u64)
    ensures
        final(samples)@.map_values(|s: Sample| sample_view(s))
            == old(samples)@.map_values(|s: Sample| sample_view(s)).push((gauge, name@, type_@, value)),
{
    samples.push(Sample { gauge, name: String::from_str(name), type_: String::from_str(type_), value });
    assert(final(samples)@.map_values(|s: Sample| sample_view(s))
        =~= old(samples)@.map_values(|s: Sample| sample_view(s)).push((gauge, name@, type_@, value)));
}

/// The samples of the backups of the given name: those of the last backup (none if there
/// is no backup) and the totals; an error if a backup lacks statistics.
pub fn collect(name: &str, groups: &[BackupGroup]) -> (r: Result<Vec<Sample>, String>)
    ensures
        match (last_backup_of(groups@), groups_total(groups@)) {
            (Some(b), _) if b.inner_stat is None || b.outer_stat is None => r matches Err(e) && e@ == no_statistics_message(),
            (_, None) => r matches Err(e) && e@ == no_statistics_message(),
            (last, Some((m, d))) => r matches Ok(samples) && samples@.map_values(|s: Sample| sample_view(s)) == (match last {
                Some(b) => last_backup_samples(name@, b.inner_stat.unwrap(), b.outer_stat.unwrap()),
                None => Seq::empty(),
            }) + total_samples(name@, capped(m), capped(d)),
        },
{
    let mut samples: Vec<Sample> = Vec::new();
    match collect_last_backup(groups) {
        Err(e) => return Err(e),
        Ok(None) => {},
        Ok(Some((inner, outer))) => {
            push_sample(&mut samples, Gauge::Files, name, "extern", inner.extern_files as u64);
            push_sample(&mut samples, Gauge::Files, name, "unique", inner.unique_files as u64);
            push_sample(&mut samples, Gauge::FilesSize, name, "extern", inner.extern_size);
            push_sample(&mut samples, Gauge::FilesSize, name, "unique", inner.unique_size);
            push_sample(&mut samples, Gauge::Size, name, "metadata", outer.metadata_size);
            push_sample(&mut samples, Gauge::Size, name, "data", outer.data_size);
        },
    }
    let ghost last = samples@.map_values(|s: Sample| sample_view(s));
    let (metadata_size, data_size) = match collect_total(groups) {
        Err(e) => return Err(e),
        Ok(v) => v,
    };
    push_sample(&mut samples, Gauge::TotalSize, name, "metadata", metadata_size);
    push_sample(&mut samples, Gauge::TotalSize, name, "data", data_size);
    proof {
        assert(samples@.map_values(|s: Sample| sample_view(s)) =~= last + total_samples(name@, metadata_size, data_size));
    }
    Ok(samples)
}

/// Whether metrics are collected, and whether they are saved to the configured file (if
/// there is one): only when backups are verified, since their statistics come from the
/// verification. A configured file that is skipped is warned about.
pub fn metrics_plan(verify: bool, file_configured: bool, log: &mut Vec<LogRecord>) -> (r: (bool, bool))
    ensures
        r == (verify, verify && file_configured),
        !verify && file_configured ==> {
            &&& final(log)@.drop_last() == old(log)@
            &&& final(log)@.len() == old(log)@.len() + 1
            &&& final(log)@.last().level == Level::Warn
            &&& final(log)@.last().message@ == "Skip metrics collection due to disabled backup verification."@
        },
        !(!verify && file_configured) ==> final(log)@ == old(log)@,
{
    if !verify && file_configured {
        crate::logging::log(log, Level::Warn, String::from_str("Skip metrics collection due to disabled backup verification."));
    }
    (verify, verify && file_configured)
}

} // verus!
