//! Restoring a backup: the plan of what to take from which backup, and what each entry of
//! an archive becomes.

pub mod file_metadata;
pub mod plan;
pub mod restorer;
