//! What the providers decide on their own: how their replies map to listed files, how
//! listings page, what an upload does next, and when an access token is reused. The
//! program makes the requests and reads the local file system.

pub mod dropbox;
pub mod filesystem;
pub mod google_drive;
pub mod oauth;
pub mod yandex_disk;
