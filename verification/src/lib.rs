//! Back up a vaultwarden data directory to a single timestamped `.tgz`, and
//! deliver one copy to every local target and, where one is declared, to an
//! S3-compatible object store.
//!
//! The library decides, and never touches the world itself. Each undertaking (a
//! whole run, and in it the snapshot of the database, the packaging, the walk
//! through the data directory, the encryption, the deliveries, the cleanups) is a
//! value whose stage says what it waits for. Whoever drives it does that, and
//! hands the outcome to `resume`. What `resume` makes of it is stated exactly, and
//! what follows for every course of events is proved beside it.
//!
//! * [`cli`], [`config`]: the command line, and what a run is asked to do.
//! * [`run`], [`promises`]: a whole run, and what it promises.
//! * [`db`], [`archive`], [`files`], [`header`]: the snapshot and the archive.
//! * [`crypto`]: recipients and encryption.
//! * [`foresee`], [`deliver`]: the local targets, where they will lie, and their
//!   cleanup.
//! * [`s3`], [`location`]: the object store, where it keeps a key, and its cleanup.
//! * [`naming`], [`calendar`], [`retention`]: names of archives, their stamps, and
//!   how long they are kept.
//! * [`path`], [`text`], [`order`], [`failure`], [`trace`]: what the rest is
//!   stated over.

pub mod archive;
pub mod calendar;
pub mod cli;
pub mod config;
pub mod crypto;
pub mod db;
pub mod deliver;
pub mod failure;
pub mod files;
pub mod foresee;
pub mod header;
pub mod location;
pub mod naming;
pub mod order;
pub mod path;
pub mod promises;
pub mod retention;
pub mod run;
pub mod s3;
pub mod text;
pub mod trace;

pub use crate::calendar::{stamp, Moment};
pub use crate::config::{
    DatabaseType, Delivered, EncryptionType, RetentionPeriod, S3Addressing, S3Target, Target,
    DB_FILENAME,
};
pub use crate::naming::archive_stamp;
pub use crate::retention::should_delete;
pub use crate::run::run;
