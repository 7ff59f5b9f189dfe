# vsb

A very simple backup tool: it backs up local paths into deduplicating local backups
(grouped into backup groups), restores them, and uploads encrypted backups to a cloud
(Dropbox, Google Drive or Yandex Disk), keeping a bounded number of backup groups there.

## Layout

- `src/` is the library, verified with Verus. It holds what the program decides and
  computes: the configuration and its checks, the path filter, the metadata format of
  backups and its hashes, the layout of backup storages and the inspection of backups,
  the restore plan and the restoring of files and directories, the sync of backup groups
  to a cloud, the listing and upload rules of the cloud providers, the splitting of uploads
  into requests, the token cache of OAuth clients, the metrics of backups, and the log
  lines. Outside crates (globset, regex, sha2, md-5, bzip2, mime, nix, reqwest's status
  codes) are called through a few trusted wrappers whose contracts say what their
  documentation promises.
- `app/` is the program around it: the command line, the file system walk, archives,
  gpg processes, HTTP requests and the Prometheus file. It hands the library plain values
  and carries out what the library decides.
- `tests/` runs the library on concrete values.
