//! What the command line asks for.

use vstd::prelude::*;

use crate::logging::Level;

verus! {

/// What to do.
pub enum Action {
    /// Back up the paths of the backup of the given name.
    Backup { name: String },
    /// Restore a backup (by its path) into a directory.
    Restore { backup_path: String, restore_path: String },
    /// Upload backups to their clouds, verifying them first unless told not to.
    Upload { verify: bool },
}

/// The options that hold for every action.
pub struct GlobalOptions {
    pub log_level: Level,
    pub config_path: String,
}

/// The configuration file read when none is given.
pub open spec fn default_config_path() -> Seq<char> {
    "~/.vsb.yaml"@
}

/// The log level that the verbosity (the number of `-v`) and `--cron` ask for: warnings for
/// cron, else information; one `-v` adds debug messages, two add trace ones.
pub open spec fn log_level_spec(verbose: u8, cron: bool) -> Option<Level> {
    if verbose == 0 {
        Some(if cron { Level::Warn } else { Level::Info })
    } else if verbose == 1 {
        Some(Level::Debug)
    } else if verbose == 2 {
        Some(Level::Trace)
    } else {
        None
    }
}

/// The log level that the options ask for (see `log_level_spec`).
pub fn log_level_for(verbose: u8, cron: bool) -> (r: Result<Level, String>)
    ensures
        match log_level_spec(verbose, cron) {
            Some(l) => r == Ok::<Level, String>(l),
            None => r matches Err(e) && e@ == "Invalid verbosity level"@,
        },
{
    match verbose {
        0 => Ok(if cron { Level::Warn } else { Level::Info }),
        1 => Ok(Level::Debug),
        2 => Ok(Level::Trace),
        _ => Err(String::from_str("Invalid verbosity level")),
    }
}

/// The global options: the log level (see `log_level_spec`) and the configuration file,
/// the given one or else the default one (with `~` expanded by the program).
pub fn parse_global(verbose: u8, cron: bool, config: Option<String>, expanded_default: String) -> (r: Result<GlobalOptions, String>)
    ensures
        match log_level_spec(verbose, cron) {
            Some(l) => r matches Ok(o) && o.log_level == l && o.config_path@ == (match config {
                Some(c) => c@,
                None => expanded_default@,
            }),
            None => r matches Err(e) && e@ == "Invalid verbosity level"@,
        },
{
    let log_level = match log_level_for(verbose, cron) {
        Ok(l) => l,
        Err(e) => return Err(e),
    };
    let config_path = match config {
        Some(c) => c,
        None => expanded_default,
    };
    Ok(GlobalOptions { log_level, config_path })
}

/// The action of a subcommand, given its arguments (`None` for another subcommand).
pub fn parse_action(
    command: &str,
    name: Option<String>,
    backup_path: Option<String>,
    restore_path: Option<String>,
    skip_verify: bool,
) -> (r: Option<Action>)
    ensures
        command@ == "backup"@ && name is Some ==> (r matches Some(Action::Backup { name: n }) && n@ == name->Some_0@),
        command@ == "restore"@ && backup_path is Some && restore_path is Some ==> (r matches Some(Action::Restore { backup_path: b, restore_path: p })
            && b@ == backup_path->Some_0@ && p@ == restore_path->Some_0@),
        command@ == "backup"@ && name is None ==> r is None,
        command@ == "restore"@ && (backup_path is None || restore_path is None) ==> r is None,
        command@ == "upload"@ ==> (r matches Some(Action::Upload { verify }) && verify == !skip_verify),
        command@ != "backup"@ && command@ != "restore"@ && command@ != "upload"@ ==> r is None,
{
    proof {
        reveal_strlit("backup");
        reveal_strlit("restore");
        reveal_strlit("upload");
        assert("backup"@[0] == 'b' && "restore"@[0] == 'r' && "upload"@[0] == 'u');
        assert("backup"@ != "restore"@ && "backup"@ != "upload"@ && "restore"@ != "upload"@);
    }
    if crate::text::str_eq(command, "backup") {
        match name {
            Some(name) => Some(Action::Backup { name }),
            None => None,
        }
    } else if crate::text::str_eq(command, "restore") {
        match (backup_path, restore_path) {
            (Some(backup_path), Some(restore_path)) => Some(Action::Restore { backup_path, restore_path }),
            _ => None,
        }
    } else if crate::text::str_eq(command, "upload") {
        Some(Action::Upload { verify: !skip_verify })
    } else {
        None
    }
}

} // verus!
