//! How backups are named and stored on each kind of provider.

use vstd::prelude::*;

use super::provider::{FileType, ProviderType};

verus! {

/// Whether `regex::Regex::new` accepts the pattern.
pub uninterp spec fn regex_compiles(pattern: Seq<char>) -> bool;

/// Whether `regex::Regex::is_match` finds the pattern in the text.
pub uninterp spec fn regex_is_match(pattern: Seq<char>, text: Seq<char>) -> bool;

/// `regex::Regex::new` and `regex::Regex::is_match`: whether the text matches the pattern, or
/// `None` if the pattern does not compile.
#[verifier::external_body]
pub(crate) fn regex_match(pattern: &str, text: &str) -> (r: Option<bool>)
    ensures
        r is Some <==> regex_compiles(pattern@),
        r matches Some(b) ==> b == regex_is_match(pattern@, text@),
{
    regex::Regex::new(pattern).ok().map(|re| re.is_match(text))
}

/// The text that `regex::Regex::captures` finds as the whole match of the pattern in the
/// text, or `None` if there is no match.
pub uninterp spec fn regex_whole_match(pattern: Seq<char>, text: Seq<char>) -> Option<Seq<char>>;

/// `regex::Regex::new` and `regex::Regex::captures`: the whole match of the pattern in the
/// text (`Some(None)` if there is none), or `None` if the pattern does not compile. For the
/// name patterns (see `anchored_name_pattern`), which start with `^` and end with `$` and
/// set no flags, a match is the whole text: without multi-line mode, `^` and `$` match only
/// at the start and the end of the text.
#[verifier::external_body]
pub(crate) fn regex_captures(pattern: &str, text: &str) -> (r: Option<Option<String>>)
    ensures
        r is Some <==> regex_compiles(pattern@),
        r matches Some(m) ==> (m is Some <==> regex_is_match(pattern@, text@)),
        r matches Some(m) ==> match m {
            Some(s) => regex_whole_match(pattern@, text@) == Some(s@),
            None => regex_whole_match(pattern@, text@) is None,
        },
        anchored_name_pattern(pattern@) ==> (r matches Some(Some(s)) ==> s@ == text@),
{
    match regex::Regex::new(pattern) {
        Ok(re) => Some(re.captures(text).and_then(|c| c.get(0)).map(|m| m.as_str().to_string())),
        Err(_) => None,
    }
}

/// The group name pattern: a day.
pub open spec fn group_name_pattern() -> Seq<char> {
    "^\\d{4}\\.\\d{2}\\.\\d{2}$"@
}

/// The backup name pattern of local backups (directories).
pub open spec fn local_name_pattern() -> Seq<char> {
    "^(?P<name>\\d{4}\\.\\d{2}\\.\\d{2}-\\d{2}:\\d{2}:\\d{2})$"@
}

/// The backup name pattern of cloud backups (encrypted archives).
pub open spec fn cloud_name_pattern() -> Seq<char> {
    "^(?P<name>\\d{4}\\.\\d{2}\\.\\d{2}-\\d{2}:\\d{2}:\\d{2})\\.tar\\.gpg$"@
}

/// Whether a pattern is one of the name patterns: each is anchored at both ends.
pub open spec fn anchored_name_pattern(p: Seq<char>) -> bool {
    p == group_name_pattern() || p == local_name_pattern() || p == cloud_name_pattern()
}

/// The type of the files that backups are on a kind of provider.
pub open spec fn backup_file_type(t: ProviderType) -> FileType {
    if t == ProviderType::Local { FileType::Directory } else { FileType::File }
}

/// The pattern of backup names on a kind of provider.
pub open spec fn backup_name_pattern(t: ProviderType) -> Seq<char> {
    if t == ProviderType::Local { local_name_pattern() } else { cloud_name_pattern() }
}

/// How backups are stored on a kind of provider.
pub struct BackupTraits {
    pub file_type: FileType,
    pub temporary_prefix: &'static str,
    pub name_format: &'static str,
    pub name_regex: &'static str,
    pub extension: &'static str,
    pub group_name_format: &'static str,
    pub group_name_regex: &'static str,
}

impl BackupTraits {
    /// Local backups are directories; cloud backups are `.tar.gpg` files. Temporary backups
    /// start with a dot. Groups are named by day, backups by second.
    pub fn get_for(provider_type: ProviderType) -> (r: BackupTraits)
        ensures
            r.file_type == backup_file_type(provider_type),
            r.temporary_prefix@ == "."@,
            r.name_format@ == "%Y.%m.%d-%H:%M:%S"@,
            r.name_regex@ == backup_name_pattern(provider_type),
            r.extension@ == (if provider_type == ProviderType::Local { ""@ } else { ".tar.gpg"@ }),
            r.group_name_format@ == "%Y.%m.%d"@,
            r.group_name_regex@ == group_name_pattern(),
    {
        match provider_type {
            ProviderType::Local => BackupTraits {
                file_type: FileType::Directory,
                temporary_prefix: ".",
                name_format: "%Y.%m.%d-%H:%M:%S",
                name_regex: "^(?P<name>\\d{4}\\.\\d{2}\\.\\d{2}-\\d{2}:\\d{2}:\\d{2})$",
                extension: "",
                group_name_format: "%Y.%m.%d",
                group_name_regex: "^\\d{4}\\.\\d{2}\\.\\d{2}$",
            },
            ProviderType::Cloud => BackupTraits {
                file_type: FileType::File,
                temporary_prefix: ".",
                name_format: "%Y.%m.%d-%H:%M:%S",
                name_regex: "^(?P<name>\\d{4}\\.\\d{2}\\.\\d{2}-\\d{2}:\\d{2}:\\d{2})\\.tar\\.gpg$",
                extension: ".tar.gpg",
                group_name_format: "%Y.%m.%d",
                group_name_regex: "^\\d{4}\\.\\d{2}\\.\\d{2}$",
            },
        }
    }

    /// Whether a name is a backup name of this kind of storage (`None` if the pattern does not
    /// compile).
    pub fn is_backup_name(&self, name: &str) -> (r: Option<bool>)
        ensures
            r is Some <==> regex_compiles(self.name_regex@),
            r matches Some(b) ==> b == regex_is_match(self.name_regex@, name@),
    {
        regex_match(self.name_regex, name)
    }

    /// The backup name that a (stripped) file name holds: the whole match of the backup
    /// name pattern (`Some(None)` if it does not match, `None` if the pattern does not
    /// compile).
    pub fn backup_name_in(&self, name: &str) -> (r: Option<Option<String>>)
        ensures
            r is Some <==> regex_compiles(self.name_regex@),
            r matches Some(m) ==> match m {
                Some(s) => regex_whole_match(self.name_regex@, name@) == Some(s@),
                None => regex_whole_match(self.name_regex@, name@) is None,
            },
            anchored_name_pattern(self.name_regex@) ==> (r matches Some(Some(s)) ==> s@ == name@),
    {
        regex_captures(self.name_regex, name)
    }

    /// Whether a name is a backup group name (`None` if the pattern does not compile).
    pub fn is_group_name(&self, name: &str) -> (r: Option<bool>)
        ensures
            r is Some <==> regex_compiles(self.group_name_regex@),
            r matches Some(b) ==> b == regex_is_match(self.group_name_regex@, name@),
    {
        regex_match(self.group_name_regex, name)
    }
}

} // verus!
