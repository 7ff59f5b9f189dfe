//! Very Simple Backup: the verified core of a backup tool that keeps deduplicated
//! backups grouped by time and mirrors them to cloud storage.

pub mod backuping;
pub mod check;
pub mod config;
pub mod cli;
pub mod digests;
pub mod filter;
pub mod hash;
pub mod http;
pub mod logging;
pub mod metadata;
pub mod metrics;
pub mod paths;
pub mod providers;
pub mod restoring;
pub mod storage;
pub mod stream_splitter;
pub mod sync;
pub mod termination;
pub mod text;
pub mod users;

