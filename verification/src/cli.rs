//! The command line: declared types are held against the value flags. A declared
//! type needs its values, and values need their declared type; nothing about a
//! destination is ever defaulted.

use vstd::prelude::*;

use crate::config::{DatabaseType, EncryptionType, RetentionPeriod, S3Addressing, S3Target, Target};
use crate::failure::Failure;
use crate::path::{paths, FilePath};
use crate::run::{local_dirs, s3_targets, Request};

verus! {

/// Source types.
#[derive(Debug, Clone, Copy, PartialEq, Eq, Structural)]
pub enum SourceType {
    Local,
}

/// Target types.
#[derive(Debug, Clone, Copy, PartialEq, Eq, Structural)]
pub enum TargetType {
    Local,
    S3,
}

/// What the command line says.
#[derive(Debug)]
pub struct Options {
    pub source_type: SourceType,
    pub local_source: Option<FilePath>,
    pub target_types: Vec<TargetType>,
    pub local_targets: Vec<FilePath>,
    pub s3_endpoint: Option<String>,
    pub s3_region: Option<String>,
    pub s3_access_key: Option<String>,
    pub s3_secret_key: Option<String>,
    pub s3_bucket: Option<String>,
    pub s3_prefix: Option<String>,
    pub s3_addressing: Option<S3Addressing>,
    pub name: String,
    pub database_type: DatabaseType,
    pub encryption_type: EncryptionType,
    pub recipients: Vec<String>,
    pub retention_period: RetentionPeriod,
}

/// The first of the S3 flags that is missing, if one is.
pub open spec fn missing_s3_flag(options: Options) -> Option<Seq<char>> {
    if options.s3_endpoint is None {
        Some("--s3-endpoint"@)
    } else if options.s3_region is None {
        Some("--s3-region"@)
    } else if options.s3_access_key is None {
        Some("--s3-access-key"@)
    } else if options.s3_secret_key is None {
        Some("--s3-secret-key"@)
    } else if options.s3_bucket is None {
        Some("--s3-bucket"@)
    } else if options.s3_prefix is None {
        Some("--s3-prefix"@)
    } else if options.s3_addressing is None {
        Some("--s3-addressing"@)
    } else {
        None
    }
}

/// Whether any of the S3 flags is given.
pub open spec fn any_s3_flag(options: Options) -> bool {
    ||| options.s3_endpoint is Some
    ||| options.s3_region is Some
    ||| options.s3_access_key is Some
    ||| options.s3_secret_key is Some
    ||| options.s3_bucket is Some
    ||| options.s3_prefix is Some
    ||| options.s3_addressing is Some
}

/// Why the command line is refused, if it is.
pub open spec fn options_problem(options: Options) -> Option<Seq<char>> {
    let local = options.target_types@.contains(TargetType::Local);
    let s3 = options.target_types@.contains(TargetType::S3);
    if options.local_source is None {
        Some("--source-type local requires --local-source"@)
    } else if local && options.local_targets@.len() == 0 {
        Some("--target-type local requires at least one --local-target"@)
    } else if !local && options.local_targets@.len() > 0 {
        Some("--local-target given but --target-type local is not declared"@)
    } else if s3 && missing_s3_flag(options) is Some {
        Some("--target-type s3 requires "@ + missing_s3_flag(options)->0)
    } else if !s3 && any_s3_flag(options) {
        Some("--s3-* flags given but --target-type s3 is not declared"@)
    } else {
        None
    }
}

/// The S3 target that the flags describe.
pub open spec fn declared_s3(options: Options) -> S3Target {
    S3Target {
        endpoint: options.s3_endpoint->0,
        region: options.s3_region->0,
        access_key: options.s3_access_key->0,
        secret_key: options.s3_secret_key->0,
        bucket: options.s3_bucket->0,
        prefix: options.s3_prefix->0,
        addressing: options.s3_addressing->0,
    }
}

/// What an accepted command line asks for: the local targets in order, then the
/// S3 target where one is declared.
pub open spec fn requested(options: Options, request: Request) -> bool {
    &&& options.local_source == Some(request.local_source)
    &&& local_dirs(request.targets@) == paths(options.local_targets@)
    &&& s3_targets(request.targets@) == if options.target_types@.contains(TargetType::S3) {
        seq![declared_s3(options)]
    } else {
        Seq::empty()
    }
    &&& request.targets@.len() > 0 && options.target_types@.contains(TargetType::S3)
        ==> request.targets@.last() is S3
    &&& request.name == options.name
    &&& request.database_type == options.database_type
    &&& request.encryption_type == options.encryption_type
    &&& request.recipients == options.recipients
    &&& request.retention_period == options.retention_period
}

fn declares(types: &Vec<TargetType>, wanted: TargetType) -> (r: bool)
    ensures
        r == types@.contains(wanted),
{
    for i in 0..types.len()
        invariant
            forall|j: int| 0 <= j < i ==> types@[j] != wanted,
    {
        if types[i] == wanted {
            return true;
        }
    }
    false
}

fn requires_flag(flag: &str) -> (r: Failure)
    ensures
        r@ == seq!["--target-type s3 requires "@ + flag@],
{
    let mut message = "--target-type s3 requires ".to_string();
    message.append(flag);
    Failure::new(message)
}

/// The S3 target that the flags describe; the first that is missing is named.
fn read_s3(
    endpoint: Option<String>,
    region: Option<String>,
    access_key: Option<String>,
    secret_key: Option<String>,
    bucket: Option<String>,
    prefix: Option<String>,
    addressing: Option<S3Addressing>,
) -> (r: Result<S3Target, Failure>)
    ensures
        forall|options: Options|
            {
                &&& options.s3_endpoint == endpoint
                &&& options.s3_region == region
                &&& options.s3_access_key == access_key
                &&& options.s3_secret_key == secret_key
                &&& options.s3_bucket == bucket
                &&& options.s3_prefix == prefix
                &&& options.s3_addressing == addressing
            } ==> match #[trigger] missing_s3_flag(options) {
                Some(flag) => r is Err && r->Err_0@ == seq!["--target-type s3 requires "@ + flag],
                None => r is Ok && r->Ok_0 == declared_s3(options),
            },
{
    let endpoint = match endpoint {
        Some(value) => value,
        None => {
            return Err(requires_flag("--s3-endpoint"));
        },
    };
    let region = match region {
        Some(value) => value,
        None => {
            return Err(requires_flag("--s3-region"));
        },
    };
    let access_key = match access_key {
        Some(value) => value,
        None => {
            return Err(requires_flag("--s3-access-key"));
        },
    };
    let secret_key = match secret_key {
        Some(value) => value,
        None => {
            return Err(requires_flag("--s3-secret-key"));
        },
    };
    let bucket = match bucket {
        Some(value) => value,
        None => {
            return Err(requires_flag("--s3-bucket"));
        },
    };
    let prefix = match prefix {
        Some(value) => value,
        None => {
            return Err(requires_flag("--s3-prefix"));
        },
    };
    let addressing = match addressing {
        Some(value) => value,
        None => {
            return Err(requires_flag("--s3-addressing"));
        },
    };
    Ok(S3Target { endpoint, region, access_key, secret_key, bucket, prefix, addressing })
}

/// One target for each local directory.
fn local_targets(dirs: Vec<FilePath>) -> (r: Vec<Target>)
    ensures
        local_dirs(r@) == paths(dirs@),
        s3_targets(r@).len() == 0,
{
    let mut targets: Vec<Target> = Vec::new();
    assert(local_dirs(targets@) == paths(dirs@).take(0));
    for i in 0..dirs.len()
        invariant
            local_dirs(targets@) == paths(dirs@).take(i as int),
            s3_targets(targets@).len() == 0,
    {
        let ghost before = targets@;
        targets.push(Target::Local { dir: dirs[i].clone() });
        assert(targets@.drop_last() == before);
        assert(paths(dirs@).take(i + 1) == paths(dirs@).take(i as int).push(dirs@[i as int]@));
    }
    assert(paths(dirs@).take(dirs@.len() as int) == paths(dirs@));
    targets
}

/// Hold the declared types against the value flags, before any work.
pub fn resolve(options: Options) -> (r: Result<Request, Failure>)
    ensures
        match r {
            Ok(request) => options_problem(options) is None && requested(options, request),
            Err(failure) => options_problem(options) is Some && failure@ == seq![
                options_problem(options)->0,
            ],
        },
{
    let local = declares(&options.target_types, TargetType::Local);
    let s3 = declares(&options.target_types, TargetType::S3);
    let given = options.s3_endpoint.is_some() || options.s3_region.is_some()
        || options.s3_access_key.is_some() || options.s3_secret_key.is_some()
        || options.s3_bucket.is_some() || options.s3_prefix.is_some()
        || options.s3_addressing.is_some();
    assert(given == any_s3_flag(options));
    let ghost whole = options;
    let local_source = match options.local_source {
        Some(path) => path,
        None => {
            return Err(Failure::say("--source-type local requires --local-source"));
        },
    };
    if local && options.local_targets.len() == 0 {
        return Err(Failure::say("--target-type local requires at least one --local-target"));
    }
    if !local && options.local_targets.len() > 0 {
        return Err(Failure::say("--local-target given but --target-type local is not declared"));
    }
    let target = if s3 {
        match read_s3(
            options.s3_endpoint,
            options.s3_region,
            options.s3_access_key,
            options.s3_secret_key,
            options.s3_bucket,
            options.s3_prefix,
            options.s3_addressing,
        ) {
            Err(failure) => {
                assert(missing_s3_flag(whole) is Some);
                return Err(failure);
            },
            Ok(target) => {
                assert(missing_s3_flag(whole) is None);
                Some(target)
            },
        }
    } else {
        if given {
            return Err(Failure::say("--s3-* flags given but --target-type s3 is not declared"));
        }
        None
    };
    let mut targets = local_targets(options.local_targets);
    let ghost before = targets@;
    assert(s3_targets(before) == Seq::<S3Target>::empty());
    match target {
        Some(target) => {
            targets.push(Target::S3(target));
            assert(targets@.drop_last() == before);
            assert(s3_targets(targets@) == seq![target]);
        },
        None => {},
    }
    Ok(
        Request {
            local_source,
            targets,
            name: options.name,
            database_type: options.database_type,
            encryption_type: options.encryption_type,
            recipients: options.recipients,
            retention_period: options.retention_period,
        },
    )
}

/// Declared types and value flags agree on every command line that is accepted:
/// local targets are given exactly where they are declared, and of the S3 flags
/// either all are given or none, as the type is declared or not.
pub proof fn law_types_and_values_agree(options: Options)
    requires
        options_problem(options) is None,
    ensures
        options.local_source is Some,
        options.target_types@.contains(TargetType::Local) <==> options.local_targets@.len() > 0,
        options.target_types@.contains(TargetType::S3) ==> missing_s3_flag(options) is None,
        !options.target_types@.contains(TargetType::S3) ==> !any_s3_flag(options),
{
}

/// A command line is accepted exactly if it names a source, gives local targets
/// exactly where that type is declared, and all of the S3 flags exactly where that
/// one is.
pub proof fn law_command_lines_are_accepted_exactly(options: Options)
    ensures
        options_problem(options) is None <==> {
            let s3 = options.target_types@.contains(TargetType::S3);
            &&& options.local_source is Some
            &&& options.target_types@.contains(TargetType::Local) <==> options.local_targets@.len()
                > 0
            &&& options.s3_endpoint is Some == s3
            &&& options.s3_region is Some == s3
            &&& options.s3_access_key is Some == s3
            &&& options.s3_secret_key is Some == s3
            &&& options.s3_bucket is Some == s3
            &&& options.s3_prefix is Some == s3
            &&& options.s3_addressing is Some == s3
        },
{
}

/// What an accepted command line asks for is what its flags say: one target for
/// each local target given, however many, in order; behind them the object store,
/// where that type is declared, each of its values from its own flag; and the rest
/// as it was given.
pub proof fn law_requests_are_what_the_flags_say(options: Options, request: Request, i: int)
    requires
        options_problem(options) is None,
        requested(options, request),
    ensures
        ({
            let n = options.local_targets@.len() as int;
            let s3 = options.target_types@.contains(TargetType::S3);
            &&& request.local_source == options.local_source->0
            &&& request.targets@.len() == if s3 {
                n + 1
            } else {
                n
            }
            &&& 0 <= i < n ==> request.targets@[i] is Local && request.targets@[i]->dir@
                == options.local_targets@[i]@
            &&& s3 ==> {
                let target = request.targets@[n]->S3_0;
                &&& request.targets@[n] is S3
                &&& options.s3_endpoint == Some(target.endpoint)
                &&& options.s3_region == Some(target.region)
                &&& options.s3_access_key == Some(target.access_key)
                &&& options.s3_secret_key == Some(target.secret_key)
                &&& options.s3_bucket == Some(target.bucket)
                &&& options.s3_prefix == Some(target.prefix)
                &&& options.s3_addressing == Some(target.addressing)
            }
            &&& request.name == options.name
            &&& request.database_type == options.database_type
            &&& request.encryption_type == options.encryption_type
            &&& request.recipients == options.recipients
            &&& request.retention_period == options.retention_period
        }),
{
    let targets = request.targets@;
    lemma_every_target_counts(targets);
    if options.target_types@.contains(TargetType::S3) {
        let front = targets.drop_last();
        lemma_every_target_counts(front);
        assert(s3_targets(targets) == s3_targets(front).push(targets.last()->S3_0));
        assert(s3_targets(targets).len() == 1);
        assert(s3_targets(targets)[0] == targets.last()->S3_0);
        lemma_only_local(front);
        assert(paths(options.local_targets@) == local_dirs(front));
        if 0 <= i < options.local_targets@.len() {
            assert(front[i] is Local && front[i]->dir@ == local_dirs(front)[i]);
            assert(targets[i] == front[i]);
        }
    } else {
        lemma_only_local(targets);
        if 0 <= i < options.local_targets@.len() {
            assert(targets[i] is Local && targets[i]->dir@ == local_dirs(targets)[i]);
        }
    }
}

/// Every target is a local directory or in the object store.
proof fn lemma_every_target_counts(targets: Seq<Target>)
    ensures
        local_dirs(targets).len() + s3_targets(targets).len() == targets.len(),
    decreases targets.len(),
{
    if targets.len() > 0 {
        lemma_every_target_counts(targets.drop_last());
    }
}

/// Without an object store, the targets are the local directories, one by one.
proof fn lemma_only_local(targets: Seq<Target>)
    requires
        s3_targets(targets).len() == 0,
    ensures
        local_dirs(targets).len() == targets.len(),
        forall|i: int|
            0 <= i < targets.len() ==> (#[trigger] targets[i]) is Local && targets[i]->dir@
                == local_dirs(targets)[i],
    decreases targets.len(),
{
    if targets.len() > 0 {
        let front = targets.drop_last();
        lemma_only_local(front);
        assert forall|i: int| 0 <= i < targets.len() implies (#[trigger] targets[i]) is Local
            && targets[i]->dir@ == local_dirs(targets)[i] by {
            if i < front.len() {
                assert(front[i] is Local);
            }
        }
    }
}

} // verus!
