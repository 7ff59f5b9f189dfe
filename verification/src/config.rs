//! The configuration: backups, their items, and where they are uploaded to. The program
//! reads the file (and checks the field rules); the library normalizes and checks the
//! rest.

use vstd::prelude::*;

use crate::filter::PathFilter;
use crate::paths::{Component, PathPart, all_normal_from, components, join_all, names, parts_view, path_components, push_part};
use crate::text::{chars_of, debug_quoted, debug_str, str_eq, string_of};

verus! {

/// What to back up: a path, the filter of what under it is backed up, and commands to run
/// before and after.
pub struct BackupItemConfig {
    pub path: String,
    pub filter: PathFilter,
    pub before: Option<String>,
    pub after: Option<String>,
}

/// How a backup is made.
pub struct BackupConfig {
    pub items: Vec<BackupItemConfig>,
    pub max_backup_groups: usize,
    pub max_backups_per_group: usize,
}

/// The cloud that backups are uploaded to, with its credentials.
pub enum ProviderConfig {
    Dropbox { client_id: String, client_secret: String, refresh_token: String },
    GoogleDrive { client_id: String, client_secret: String, refresh_token: String },
    YandexDisk { client_id: String, client_secret: String, refresh_token: String },
}

/// How backups are uploaded.
pub struct UploadConfig {
    pub provider: ProviderConfig,
    pub path: String,
    pub max_backup_groups: usize,
    pub encryption_passphrase: String,
    /// In seconds.
    pub max_time_without_backups: Option<u64>,
}

/// A backup: its name, where it is kept, and how it is made and uploaded.
pub struct BackupSpecConfig {
    pub name: String,
    pub path: String,
    pub backup: Option<BackupConfig>,
    pub upload: Option<UploadConfig>,
}

/// The configuration.
pub struct Config {
    pub path: String,
    pub backups: Vec<BackupSpecConfig>,
    pub prometheus_metrics: Option<String>,
}

/// A path as configured: absolute, made of names only (no `.` or `..`), written without
/// repeated or final slashes.
pub open spec fn normalized_path(path: Seq<char>) -> Result<Seq<char>, Seq<char>> {
    let cs = components(path);
    if !(cs.len() > 0 && cs[0] == Component::RootDir) {
        Err("Invalid path: "@ + debug_quoted(path) + ". It must be absolute"@)
    } else if !all_normal_from(cs, 1) {
        Err("Invalid path: "@ + debug_quoted(path))
    } else {
        Ok(join_all(seq!['/'], names(cs.drop_first())))
    }
}

/// Checks and normalizes a configured path (see `normalized_path`).
pub fn validate_path(path: &str) -> (r: Result<String, String>)
    ensures
        match normalized_path(path@) {
            Ok(p) => r matches Ok(s) && s@ == p,
            Err(e) => r matches Err(m) && m@ == e,
        },
{
    let cs = path_components(path);
    let ghost cv = components(path@);
    let is_root = cs.len() > 0 && match &cs[0] {
        PathPart::RootDir => true,
        _ => false,
    };
    proof {
        if cs.len() > 0 {
            assert(parts_view(cs@)[0] == cs@[0]@);
        }
    }
    if !is_root {
        let mut m = String::from_str("Invalid path: ");
        m.append(debug_str(path).as_str());
        m.append(". It must be absolute");
        return Err(m);
    }
    let ghost rest = cv.drop_first();
    let mut out: Vec<char> = Vec::new();
    out.push('/');
    let mut i: usize = 1;
    assert(rest.take(0) =~= Seq::<Component>::empty());
    assert(names(rest.take(0)) =~= Seq::<Seq<char>>::empty());
    while i < cs.len()
        invariant
            1 <= i <= cs@.len(),
            parts_view(cs@) == cv,
            cv == components(path@),
            cv.len() > 0 && cv[0] == Component::RootDir,
            rest == cv.drop_first(),
            all_normal_from(cv.take(i as int), 1),
            out@ == join_all(seq!['/'], names(rest.take(i - 1))),
        decreases cs@.len() - i,
    {
        proof {
            assert(parts_view(cs@)[i as int] == cs@[i as int]@);
            let t = rest.take(i as int);
            assert(t.drop_last() =~= rest.take(i - 1));
            assert(names(t).drop_last() =~= names(rest.take(i - 1)));
        }
        match &cs[i] {
            PathPart::Normal(name) => {
                push_part(&mut out, name.as_slice());
                i += 1;
                assert(names(rest.take(i - 1)).last() == name@);
                assert forall|k: int| 1 <= k < cv.take(i as int).len() implies crate::paths::is_normal(#[trigger] cv.take(i as int)[k]) by {
                    if k < i - 1 {
                        assert(cv.take(i as int)[k] == cv.take(i - 1)[k]);
                    }
                }
            },
            _ => {
                assert(!crate::paths::is_normal(cv[i as int]));
                let mut m = String::from_str("Invalid path: ");
                m.append(debug_str(path).as_str());
                return Err(m);
            },
        }
    }
    assert(cv.take(i as int) =~= cv);
    assert(rest.take(i - 1) =~= rest);
    Ok(string_of(out.as_slice()))
}

/// The names of the configured backups.
pub open spec fn backup_names(backups: Seq<BackupSpecConfig>) -> Seq<Seq<char>> {
    backups.map_values(|b: BackupSpecConfig| b.name@)
}

/// Whether no name occurs twice.
pub open spec fn names_unique(names: Seq<Seq<char>>) -> bool {
    forall|i: int, j: int| 0 <= i < j < names.len() ==> names[i] != names[j]
}

impl Config {
    /// The backup of the given name.
    pub fn get_backup(&self, name: &str) -> (r: Result<&BackupSpecConfig, String>)
        ensures
            backup_names(self.backups@).contains(name@) ==> (r matches Ok(b) && b.name@ == name@),
            !backup_names(self.backups@).contains(name@) ==> (r matches Err(e)
                && e@ == debug_quoted(name@) + " backup is not specified in the configuration file"@),
    {
        let mut i: usize = 0;
        while i < self.backups.len()
            invariant
                i <= self.backups@.len(),
                forall|j: int| 0 <= j < i ==> self.backups@[j].name@ != name@,
            decreases self.backups@.len() - i,
        {
            if str_eq(self.backups[i].name.as_str(), name) {
                assert(backup_names(self.backups@)[i as int] == name@);
                return Ok(&self.backups[i]);
            }
            i += 1;
        }
        proof {
            if backup_names(self.backups@).contains(name@) {
                let k = choose|k: int| 0 <= k < backup_names(self.backups@).len() && backup_names(self.backups@)[k] == name@;
                assert(self.backups@[k].name@ == name@);
            }
        }
        let mut m = debug_str(name);
        m.append(" backup is not specified in the configuration file");
        Err(m)
    }

    /// Checks the configuration (whose local paths have `~` expanded): backup names must
    /// be unique, and the paths valid; they are normalized (see `normalized_path`). The
    /// error is the first problem met, backup by backup (see `first_failure`), then the
    /// metrics path.
    pub fn normalize(&mut self) -> (r: Result<(), String>)
        ensures
            match first_failure(old(self).backups@) {
                Some(e) => r matches Err(m) && m@ == e,
                None => match old(self).prometheus_metrics {
                    Some(p) => match normalized_path(p@) {
                        Ok(_) => r is Ok,
                        Err(e) => r matches Err(m) && m@ == e,
                    },
                    None => r is Ok,
                },
            },
            r is Ok ==> names_unique(backup_names(final(self).backups@)),
            r is Ok ==> forall|i: int| 0 <= i < final(self).backups@.len() ==> {
                &&& normalized_path(old(self).backups@[i].path@) == Ok::<Seq<char>, Seq<char>>((#[trigger] final(self).backups@[i]).path@)
                &&& final(self).backups@[i].name@ == old(self).backups@[i].name@
                &&& upload_normalized(old(self).backups@[i].upload, final(self).backups@[i].upload)
            },
            final(self).backups@.len() == old(self).backups@.len(),
            r is Ok ==> match old(self).prometheus_metrics {
                Some(p) => final(self).prometheus_metrics matches Some(q) && normalized_path(p@) == Ok::<Seq<char>, Seq<char>>(q@),
                None => final(self).prometheus_metrics is None,
            },
    {
        let mut backups: Vec<BackupSpecConfig> = Vec::new();
        std::mem::swap(&mut backups, &mut self.backups);
        let ghost original = backups@;
        let mut done: Vec<BackupSpecConfig> = Vec::new();
        let mut failure: Option<String> = None;
        assert(original.skip(0) =~= original);
        assert(original.take(0) =~= Seq::<BackupSpecConfig>::empty());
        while backups.len() > 0
            invariant
                done@.len() + backups@.len() == original.len(),
                backups@ == original.skip(done@.len() as int),
                match failure {
                    Some(f) => first_failure(original.take(done@.len() as int)) == Some(f@),
                    None => first_failure(original.take(done@.len() as int)) is None,
                },
                failure is None ==> names_unique(backup_names(done@)),
                failure is None ==> forall|i: int| 0 <= i < done@.len() ==> {
                    &&& normalized_path(original[i].path@) == Ok::<Seq<char>, Seq<char>>((#[trigger] done@[i]).path@)
                    &&& upload_normalized(original[i].upload, done@[i].upload)
                },
                forall|i: int| 0 <= i < done@.len() ==> (#[trigger] done@[i]).name@ == original[i].name@,
            decreases backups@.len(),
        {
            let ghost b0 = backups@;
            let mut backup = backups.remove(0);
            let ghost k = done@.len() as int;
            let ghost orig_backup = original[k];
            proof {
                assert(b0[0] == original[k]);
                assert(backups@ =~= original.skip(k + 1));
                assert(original.take(k + 1).drop_last() =~= original.take(k));
                assert(original.take(k + 1).last() == original[k]);
            }
            if failure.is_none() {
                let mut j: usize = 0;
                let mut duplicate = false;
                while j < done.len()
                    invariant
                        j <= done@.len(),
                        !duplicate ==> forall|x: int| 0 <= x < j ==> done@[x].name@ != backup.name@,
                        duplicate ==> exists|x: int| 0 <= x < j && done@[x].name@ == backup.name@,
                    decreases done@.len() - j,
                {
                    if str_eq(done[j].name.as_str(), backup.name.as_str()) {
                        duplicate = true;
                    }
                    j += 1;
                }
                proof {
                    let ns = backup_names(original.take(k));
                    if duplicate {
                        let x = choose|x: int| 0 <= x < j && done@[x].name@ == backup.name@;
                        assert(ns[x] == backup.name@);
                        assert(ns.contains(backup.name@));
                    } else {
                        assert forall|x: int| 0 <= x < ns.len() implies ns[x] != backup.name@ by {
                            assert(ns[x] == done@[x].name@);
                        }
                        assert(!ns.contains(backup.name@));
                    }
                }
                if duplicate {
                    let mut m = String::from_str("Duplicated backup name: ");
                    m.append(debug_str(backup.name.as_str()).as_str());
                    failure = Some(m);
                } else {
                    match validate_path(backup.path.as_str()) {
                        Ok(p) => {
                            backup.path = p;
                            match &mut backup.upload {
                                Some(upload) => match validate_path(upload.path.as_str()) {
                                    Ok(p) => {
                                        upload.path = p;
                                    },
                                    Err(e) => {
                                        failure = Some(e);
                                    },
                                },
                                None => {},
                            }
                        },
                        Err(e) => {
                            failure = Some(e);
                        },
                    }
                }
            }
            let ghost d0 = done@;
            done.push(backup);
            proof {
                assert(done@[k] == backup);
                assert forall|i: int| 0 <= i < done@.len() implies (#[trigger] done@[i]).name@ == original[i].name@ by {
                    if i < k {
                        assert(done@[i] == d0[i]);
                    }
                }
                if failure is None {
                    assert forall|x: int, y: int| 0 <= x < y < backup_names(done@).len() implies backup_names(done@)[x] != backup_names(done@)[y] by {
                        if y < d0.len() {
                            assert(backup_names(d0)[x] == backup_names(done@)[x] && backup_names(d0)[y] == backup_names(done@)[y]);
                        } else {
                            assert(done@[x] == d0[x]);
                        }
                    }
                    assert forall|i: int| 0 <= i < done@.len() implies {
                        &&& normalized_path(original[i].path@) == Ok::<Seq<char>, Seq<char>>((#[trigger] done@[i]).path@)
                        &&& upload_normalized(original[i].upload, done@[i].upload)
                    } by {
                        if i < k {
                            assert(done@[i] == d0[i]);
                        }
                    }
                }
            }
        }
        self.backups = done;
        assert(original.take(original.len() as int) =~= original);
        if let Some(e) = failure {
            return Err(e);
        }
        match &self.prometheus_metrics {
            Some(p) => match validate_path(p.as_str()) {
                Ok(q) => {
                    self.prometheus_metrics = Some(q);
                },
                Err(e) => return Err(e),
            },
            None => {},
        }
        Ok(())
    }
}

/// Whether an upload configuration (if any) is the given one with its path normalized.
pub open spec fn upload_normalized(before: Option<UploadConfig>, after: Option<UploadConfig>) -> bool {
    match before {
        Some(u) => after matches Some(v) && normalized_path(u.path@) == Ok::<Seq<char>, Seq<char>>(v.path@),
        None => after is None,
    }
}

/// The problem with a backup, given the backups before it: a name that one of them has, or
/// a path (its own, then that of its upload) that is not valid.
pub open spec fn backup_failure(before: Seq<BackupSpecConfig>, b: BackupSpecConfig) -> Option<Seq<char>> {
    if backup_names(before).contains(b.name@) {
        Some("Duplicated backup name: "@ + debug_quoted(b.name@))
    } else {
        match normalized_path(b.path@) {
            Err(e) => Some(e),
            Ok(_) => match b.upload {
                Some(u) => match normalized_path(u.path@) {
                    Err(e) => Some(e),
                    Ok(_) => None,
                },
                None => None,
            },
        }
    }
}

/// The first problem with the backups, in their order (see `backup_failure`).
pub open spec fn first_failure(backups: Seq<BackupSpecConfig>) -> Option<Seq<char>>
    decreases backups.len(),
{
    if backups.len() == 0 {
        None
    } else {
        match first_failure(backups.drop_last()) {
            Some(e) => Some(e),
            None => backup_failure(backups.drop_last(), backups.last()),
        }
    }
}

/// A duration as configured: a positive number without leading zeros and a unit, `m`,
/// `h` or `d`; in seconds (an error if it does not fit).
pub open spec fn duration_spec(s: Seq<char>) -> Option<u64> {
    if s.len() >= 2 && crate::text::all_digits(s.drop_last()) && s[0] != '0'
        && (s.last() == 'm' || s.last() == 'h' || s.last() == 'd') {
        let n = crate::text::digits_value(s.drop_last());
        let unit: nat = if s.last() == 'm' { 60 } else if s.last() == 'h' { 3600 } else { 86400 };
        if n * unit <= u64::MAX { Some((n * unit) as u64) } else { None }
    } else {
        None
    }
}

/// The duration pattern.
pub open spec fn duration_pattern() -> Seq<char> {
    "^(?P<number>[1-9]\\d*)(?P<unit>[mhd])$"@
}

/// Parses a configured duration (see `duration_spec`): the pattern is matched by the
/// `regex` crate, the number read as ASCII digits.
pub fn parse_duration(s: &str) -> (r: Result<u64, String>)
    ensures
        r is Ok ==> duration_spec(s@) == Some(r->Ok_0),
        crate::storage::traits::regex_compiles(duration_pattern()) && crate::storage::traits::regex_is_match(duration_pattern(), s@)
            && duration_spec(s@) is Some ==> r == Ok::<u64, String>(duration_spec(s@)->Some_0),
        r matches Err(e) ==> e@ == "Invalid time duration specification: "@ + debug_quoted(s@),
{
    let err = {
        let mut m = String::from_str("Invalid time duration specification: ");
        m.append(debug_str(s).as_str());
        m
    };
    let matched = crate::storage::traits::regex_match("^(?P<number>[1-9]\\d*)(?P<unit>[mhd])$", s);
    match matched {
        Some(b) => if !b {
            return Err(err);
        },
        None => return Err(err),
    }
    let chars = chars_of(s);
    proof {
        if duration_spec(s@) is Some {
            assert(s@.drop_last()[0] == s@[0]);
            assert(crate::text::is_digit(s@.drop_last()[0]));
        }
    }
    if chars.len() < 2 || chars[0] < '1' || chars[0] > '9' {
        return Err(err);
    }
    let unit_char = chars[chars.len() - 1];
    let unit: u64 = if unit_char == 'm' { 60 } else if unit_char == 'h' { 3600 } else if unit_char == 'd' { 86400 } else {
        return Err(err);
    };
    let number = crate::text::sub_vec(chars.as_slice(), 0, chars.len() - 1);
    assert(number@ =~= s@.drop_last());
    let n = match crate::text::parse_u64(number.as_slice()) {
        Some(n) => n,
        None => return Err(err),
    };
    match n.checked_mul(unit) {
        Some(v) => Ok(v),
        None => Err(err),
    }
}

/// The message of a field that breaks its rule.
pub open spec fn field_error(field: Seq<char>, rule: Seq<char>) -> Seq<char> {
    "Invalid configuration: "@ + field + " "@ + rule
}

/// Whether the fields of an upload follow their rules.
pub open spec fn upload_fields_valid(u: UploadConfig) -> bool {
    u.path@.len() >= 1 && u.max_backup_groups >= 1 && u.encryption_passphrase@.len() >= 1
}

/// Whether the fields of a backup configuration follow their rules.
pub open spec fn backup_fields_valid(b: BackupConfig) -> bool {
    &&& b.items@.len() >= 1
    &&& forall|i: int| 0 <= i < b.items@.len() ==> (#[trigger] b.items@[i]).path@.len() >= 1
    &&& b.max_backup_groups >= 1
    &&& b.max_backups_per_group >= 1
}

/// Whether the fields of a backup follow their rules.
pub open spec fn spec_fields_valid(b: BackupSpecConfig) -> bool {
    &&& b.name@.len() >= 1
    &&& b.path@.len() >= 1
    &&& (b.backup matches Some(c) ==> backup_fields_valid(c))
    &&& (b.upload matches Some(u) ==> upload_fields_valid(u))
}

/// Whether the fields of a configuration follow their rules: names, paths and the
/// passphrase are not empty, there is an item to back up, and limits are positive.
pub open spec fn fields_valid(c: Config) -> bool {
    &&& (c.prometheus_metrics matches Some(p) ==> p@.len() >= 1)
    &&& forall|i: int| 0 <= i < c.backups@.len() ==> spec_fields_valid(#[trigger] c.backups@[i])
}

fn check_not_empty(value: &str, field: &str) -> (r: Result<(), String>)
    ensures
        r is Ok <==> value@.len() >= 1,
        r matches Err(e) ==> e@ == field_error(field@, "must not be empty"@),
{
    if value.unicode_len() == 0 {
        let mut m = String::from_str("Invalid configuration: ");
        m.append(field);
        m.append(" must not be empty");
        proof {
            reveal_strlit("Invalid configuration: ");
            reveal_strlit(" ");
            reveal_strlit(" must not be empty");
            reveal_strlit("must not be empty");
            assert(m@ =~= field_error(field@, "must not be empty"@));
        }
        return Err(m);
    }
    Ok(())
}

fn check_positive(value: usize, field: &str) -> (r: Result<(), String>)
    ensures
        r is Ok <==> value >= 1,
        r matches Err(e) ==> e@ == field_error(field@, "must be positive"@),
{
    if value == 0 {
        let mut m = String::from_str("Invalid configuration: ");
        m.append(field);
        m.append(" must be positive");
        proof {
            reveal_strlit("Invalid configuration: ");
            reveal_strlit(" ");
            reveal_strlit(" must be positive");
            reveal_strlit("must be positive");
            assert(m@ =~= field_error(field@, "must be positive"@));
        }
        return Err(m);
    }
    Ok(())
}

fn check_backup_fields(b: &BackupConfig) -> (r: Result<(), String>)
    ensures
        r is Ok <==> backup_fields_valid(*b),
{
    if b.items.len() == 0 {
        return Err(String::from_str("Invalid configuration: backup items must not be empty"));
    }
    let mut i: usize = 0;
    while i < b.items.len()
        invariant
            i <= b.items@.len(),
            forall|j: int| 0 <= j < i ==> (#[trigger] b.items@[j]).path@.len() >= 1,
        decreases b.items@.len() - i,
    {
        match check_not_empty(b.items[i].path.as_str(), "backup item path") {
            Ok(()) => {},
            Err(e) => return Err(e),
        }
        i += 1;
    }
    match check_positive(b.max_backup_groups, "max_backup_groups") {
        Ok(()) => {},
        Err(e) => return Err(e),
    }
    check_positive(b.max_backups_per_group, "max_backups_per_group")
}

fn check_upload_fields(u: &UploadConfig) -> (r: Result<(), String>)
    ensures
        r is Ok <==> upload_fields_valid(*u),
{
    match check_not_empty(u.path.as_str(), "upload path") {
        Ok(()) => {},
        Err(e) => return Err(e),
    }
    match check_positive(u.max_backup_groups, "upload max_backup_groups") {
        Ok(()) => {},
        Err(e) => return Err(e),
    }
    check_not_empty(u.encryption_passphrase.as_str(), "encryption_passphrase")
}

impl Config {
    /// Checks the rules of the fields (see `fields_valid`); the error names the first field
    /// that breaks its rule.
    pub fn check_fields(&self) -> (r: Result<(), String>)
        ensures
            r is Ok <==> fields_valid(*self),
    {
        match &self.prometheus_metrics {
            Some(p) => match check_not_empty(p.as_str(), "prometheus_metrics") {
                Ok(()) => {},
                Err(e) => return Err(e),
            },
            None => {},
        }
        let mut i: usize = 0;
        while i < self.backups.len()
            invariant
                i <= self.backups@.len(),
                self.prometheus_metrics matches Some(p) ==> p@.len() >= 1,
                forall|j: int| 0 <= j < i ==> spec_fields_valid(#[trigger] self.backups@[j]),
            decreases self.backups@.len() - i,
        {
            let b = &self.backups[i];
            match check_not_empty(b.name.as_str(), "backup name") {
                Ok(()) => {},
                Err(e) => return Err(e),
            }
            match check_not_empty(b.path.as_str(), "backup path") {
                Ok(()) => {},
                Err(e) => return Err(e),
            }
            match &b.backup {
                Some(c) => match check_backup_fields(c) {
                    Ok(()) => {},
                    Err(e) => return Err(e),
                },
                None => {},
            }
            match &b.upload {
                Some(u) => match check_upload_fields(u) {
                    Ok(()) => {},
                    Err(e) => return Err(e),
                },
                None => {},
            }
            i += 1;
        }
        Ok(())
    }
}

} // verus!
