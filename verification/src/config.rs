//! What a run is asked to do, and where its archive ended up.

use vstd::prelude::*;

use crate::path::{shown, FilePath};

verus! {

/// File name of the vaultwarden SQLite database inside the data directory.
pub const DB_FILENAME: &'static str = "db.sqlite3";

/// Database type of the source; only SQLite is supported.
#[derive(Debug, Clone, Copy, PartialEq, Eq, Structural)]
pub enum DatabaseType {
    /// SQLite database (the only supported type)
    Sqlite,
}

/// Encryption of the produced archive; chosen explicitly so that a backup can
/// never silently end up unencrypted.
#[derive(Debug, Clone, Copy, PartialEq, Eq, Structural)]
pub enum EncryptionType {
    /// no encryption (the archive is written in plaintext)
    Plaintext,
    /// OpenPGP-encrypt for every recipient given with `--recipient`
    Openpgp,
}

/// Retention period for previously delivered archives of a run's name.
#[derive(Debug, Clone, Copy, PartialEq, Eq, Structural)]
pub enum RetentionPeriod {
    /// Keep every archive; cleanup is a no-op.
    Unlimited,
    /// Delete archives whose stamp is more than this many days old.
    Days(u64),
    /// Delete archives whose stamp is more than this many hours old.
    Hours(u64),
}

/// Addressing style for the S3 endpoint (`--s3-addressing`).
#[derive(Debug, Clone, Copy, PartialEq, Eq, Structural)]
pub enum S3Addressing {
    /// `https://<bucket>.<endpoint>/<key>`
    VirtualHosted,
    /// `https://<endpoint>/<bucket>/<key>`
    PathStyle,
}

/// Fully explicit configuration of an S3 destination: no field has a silent
/// default, so a run can never quietly upload to the wrong place.
#[derive(Debug)]
pub struct S3Target {
    /// S3-compatible endpoint URL.
    pub endpoint: String,
    /// Region used for signing; passed through verbatim, never validated.
    pub region: String,
    pub access_key: String,
    pub secret_key: String,
    pub bucket: String,
    /// Object key prefix; `/` (or the empty string) means bucket root.
    pub prefix: String,
    pub addressing: S3Addressing,
}

impl Clone for S3Target {
    fn clone(&self) -> (r: S3Target)
        ensures
            r == *self,
    {
        S3Target {
            endpoint: self.endpoint.clone(),
            region: self.region.clone(),
            access_key: self.access_key.clone(),
            secret_key: self.secret_key.clone(),
            bucket: self.bucket.clone(),
            prefix: self.prefix.clone(),
            addressing: self.addressing,
        }
    }
}

/// A single destination: a local directory or an S3-compatible object store. A
/// run has any number of local targets and at most one S3 target.
#[derive(Debug)]
pub enum Target {
    /// A local directory (created if missing).
    Local { dir: FilePath },
    /// An S3-compatible object-store destination.
    S3(S3Target),
}

impl Clone for Target {
    fn clone(&self) -> (r: Target)
        ensures
            match *self {
                Target::Local { dir } => r is Local && r->dir@ == dir@,
                Target::S3(target) => r == Target::S3(target),
            },
    {
        match self {
            Target::Local { dir } => Target::Local { dir: dir.clone() },
            Target::S3(target) => Target::S3(target.clone()),
        }
    }
}

/// Where a finished archive ended up.
#[derive(Debug)]
pub enum Delivered {
    /// Local path of the delivered archive.
    Local(FilePath),
    /// Object key in the S3 bucket (`s3://<bucket>/<key>`).
    S3 { bucket: String, key: String },
}

/// Where a finished archive ended up, in mathematical terms.
pub ghost enum Destination {
    Local(Seq<u8>),
    S3 { bucket: Seq<char>, key: Seq<char> },
}

impl View for Delivered {
    type V = Destination;

    open spec fn view(&self) -> Destination {
        match *self {
            Delivered::Local(path) => Destination::Local(path@),
            Delivered::S3 { bucket, key } => Destination::S3 { bucket: bucket@, key: key@ },
        }
    }
}

impl Clone for Delivered {
    fn clone(&self) -> (r: Delivered)
        ensures
            r@ == self@,
    {
        match self {
            Delivered::Local(path) => Delivered::Local(path.clone()),
            Delivered::S3 { bucket, key } => Delivered::S3 {
                bucket: bucket.clone(),
                key: key.clone(),
            },
        }
    }
}

/// Where finished archives ended up.
pub open spec fn destinations(list: Seq<Delivered>) -> Seq<Destination> {
    list.map_values(|d: Delivered| d@)
}

/// `s3://<bucket>/<key>`.
pub open spec fn object_url(bucket: Seq<char>, key: Seq<char>) -> Seq<char> {
    "s3://"@ + bucket + "/"@ + key
}

/// `s3://<bucket>/<key>`.
pub fn object_url_text(bucket: &str, key: &str) -> (r: String)
    ensures
        r@ == object_url(bucket@, key@),
{
    let mut out = "s3://".to_string();
    out.append(bucket);
    out.append("/");
    out.append(key);
    out
}

impl Delivered {
    /// The line that reports this delivery.
    pub open spec fn line_text(self) -> Seq<char> {
        match self {
            Delivered::Local(path) => shown(path@),
            Delivered::S3 { bucket, key } => object_url(bucket@, key@),
        }
    }

    /// The line that reports this delivery: the local path, or
    /// `s3://<bucket>/<key>`.
    pub fn line(&self) -> (r: String)
        ensures
            r@ == self.line_text(),
    {
        match self {
            Delivered::Local(path) => path.display(),
            Delivered::S3 { bucket, key } => object_url_text(bucket, key),
        }
    }
}

/// An object is shown as `s3://`, its bucket, a slash and its key, and a local copy
/// as its path.
pub proof fn law_deliveries_are_shown_in_full(delivered: Delivered, list: Seq<Delivered>, i: int)
    ensures
        delivered matches Delivered::S3 { bucket, key } ==> delivered.line_text() == seq![
            's',
            '3',
            ':',
            '/',
            '/',
        ] + bucket@ + seq!['/'] + key@,
        delivered matches Delivered::Local(path) ==> delivered.line_text() == shown(path@),
        destinations(list).len() == list.len(),
        0 <= i < list.len() ==> destinations(list)[i] == match list[i] {
            Delivered::Local(path) => Destination::Local(path@),
            Delivered::S3 { bucket, key } => Destination::S3 { bucket: bucket@, key: key@ },
        },
{
    reveal_strlit("s3://");
    reveal_strlit("/");
    assert("s3://"@ == seq!['s', '3', ':', '/', '/']);
    assert("/"@ == seq!['/']);
}

} // verus!
