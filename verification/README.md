# vaultwarden-backup

Backs up a vaultwarden data directory into a single timestamped archive,
`<name>-<YYYY-MM-DDTHH:MM:SSZ>.tgz` (`.tgz.gpg` when encrypted), and delivers it
to every local target and, where one is declared, to one S3-compatible object
store. Archives that have outlived the retention period go after a run that
succeeded everywhere.

The decisions live in `src/`, a library verified with Verus. It touches neither
files nor processes nor the network: each undertaking is a value whose stage says
what it waits for, and `resume` takes the outcome. `app/` is the program around
it: the command line, the file system, SQLite, `gpg`, and the object store.

What the library proves, among other things:

- a run is refused before any work, and before any directory is created, when the
  request, the recipients, the directories or an existing archive stand against
  it (`src/promises.rs`, `src/foresee.rs`);
- nothing but a finished artifact is delivered, and with encryption nothing but
  the ciphertext (`src/promises.rs`, `src/crypto.rs`);
- no archive is ever overwritten, and no incomplete copy keeps an archive's name
  (`src/deliver.rs`, `src/s3.rs`, `src/archive.rs`);
- the archive holds every regular file of the data directory, depth first and in
  order of names, the database excepted, which is there as a snapshot
  (`src/files.rs`);
- only archives of the run's own name that are strictly older than the period are
  deleted, never the run's own, and only after every delivery succeeded
  (`src/retention.rs`, `src/naming.rs`, `src/location.rs`, `src/promises.rs`).
