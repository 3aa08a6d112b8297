//! Declared types against value flags.

use vaultwarden_backup::cli::{resolve, Options, SourceType, TargetType};
use vaultwarden_backup::path::FilePath;
use vaultwarden_backup::{
    DatabaseType, EncryptionType, RetentionPeriod, S3Addressing, Target,
};

/// A run with a local source and a local target.
fn base() -> Options {
    Options {
        source_type: SourceType::Local,
        local_source: Some(FilePath::from_text("/data")),
        target_types: vec![TargetType::Local],
        local_targets: vec![FilePath::from_text("/out")],
        s3_endpoint: None,
        s3_region: None,
        s3_access_key: None,
        s3_secret_key: None,
        s3_bucket: None,
        s3_prefix: None,
        s3_addressing: None,
        name: "s3test".to_string(),
        database_type: DatabaseType::Sqlite,
        encryption_type: EncryptionType::Plaintext,
        recipients: Vec::new(),
        retention_period: RetentionPeriod::Unlimited,
    }
}

fn with_s3() -> Options {
    let mut options = base();
    options.target_types.push(TargetType::S3);
    options.s3_endpoint = Some("http://127.0.0.1:1".to_string());
    options.s3_region = Some("us-east-1".to_string());
    options.s3_access_key = Some("ak".to_string());
    options.s3_secret_key = Some("sk".to_string());
    options.s3_bucket = Some("bkt".to_string());
    options.s3_prefix = Some("/".to_string());
    options.s3_addressing = Some(S3Addressing::PathStyle);
    options
}

fn refusal(options: Options) -> String {
    resolve(options).unwrap_err().full()
}

#[test]
fn cli_s3_missing_required_flag_is_named() {
    // Drop exactly one S3 flag at a time: the preflight must name the missing
    // flag. (Declare both target types: the base already declares `local`.)
    let flags = [
        "--s3-endpoint",
        "--s3-region",
        "--s3-access-key",
        "--s3-secret-key",
        "--s3-bucket",
        "--s3-prefix",
        "--s3-addressing",
    ];
    for (skip_index, flag) in flags.iter().enumerate() {
        let mut options = with_s3();
        match skip_index {
            0 => options.s3_endpoint = None,
            1 => options.s3_region = None,
            2 => options.s3_access_key = None,
            3 => options.s3_secret_key = None,
            4 => options.s3_bucket = None,
            5 => options.s3_prefix = None,
            _ => options.s3_addressing = None,
        }
        let message = refusal(options);
        assert!(
            message.contains(*flag),
            "error must name the missing flag {flag}: {message}"
        );
        assert_eq!(message, format!("--target-type s3 requires {flag}"));
    }
}

#[test]
fn cli_s3_flags_without_s3_type_fail_without_writing() {
    // `--s3-bucket` without `--target-type s3`: the value flag without its
    // declared type must be an error, before any work.
    let mut options = base();
    options.s3_bucket = Some("bkt".to_string());
    let message = refusal(options);
    assert!(
        message.contains("--target-type s3"),
        "error must name the missing type: {message}"
    );
    assert_eq!(message, "--s3-* flags given but --target-type s3 is not declared");
}

#[test]
fn each_s3_flag_needs_the_type() {
    for index in 0..7 {
        let mut options = base();
        match index {
            0 => options.s3_endpoint = Some("e".to_string()),
            1 => options.s3_region = Some("r".to_string()),
            2 => options.s3_access_key = Some("a".to_string()),
            3 => options.s3_secret_key = Some("s".to_string()),
            4 => options.s3_bucket = Some("b".to_string()),
            5 => options.s3_prefix = Some("p".to_string()),
            _ => options.s3_addressing = Some(S3Addressing::VirtualHosted),
        }
        assert!(refusal(options).contains("is not declared"));
    }
}

#[test]
fn integration_cli_local_source_flag_missing_fails() {
    let mut options = base();
    options.local_source = None;
    assert_eq!(refusal(options), "--source-type local requires --local-source");
}

#[test]
fn integration_cli_local_target_flag_missing_fails() {
    let mut options = base();
    options.local_targets.clear();
    assert_eq!(refusal(options), "--target-type local requires at least one --local-target");
}

#[test]
fn a_local_target_needs_its_type() {
    let mut options = with_s3();
    options.target_types = vec![TargetType::S3];
    assert_eq!(refusal(options), "--local-target given but --target-type local is not declared");
}

#[test]
fn an_accepted_command_line_is_taken_over() {
    let mut options = with_s3();
    options.target_types = vec![TargetType::S3, TargetType::Local, TargetType::S3];
    options.local_targets.push(FilePath::from_text("/more"));
    options.recipients = vec!["AA".to_string()];
    options.encryption_type = EncryptionType::Openpgp;
    options.retention_period = RetentionPeriod::Days(3);
    let request = resolve(options).unwrap();
    assert_eq!(request.local_source, FilePath::from_text("/data"));
    assert_eq!(request.name, "s3test");
    assert_eq!(request.recipients, vec!["AA"]);
    assert_eq!(request.encryption_type, EncryptionType::Openpgp);
    assert_eq!(request.retention_period, RetentionPeriod::Days(3));
    assert_eq!(request.targets.len(), 3);
    match (&request.targets[0], &request.targets[1], &request.targets[2]) {
        (Target::Local { dir: a }, Target::Local { dir: b }, Target::S3(s3)) => {
            assert_eq!(*a, FilePath::from_text("/out"));
            assert_eq!(*b, FilePath::from_text("/more"));
            assert_eq!(s3.endpoint, "http://127.0.0.1:1");
            assert_eq!(s3.region, "us-east-1");
            assert_eq!(s3.access_key, "ak");
            assert_eq!(s3.secret_key, "sk");
            assert_eq!(s3.bucket, "bkt");
            assert_eq!(s3.prefix, "/");
            assert_eq!(s3.addressing, S3Addressing::PathStyle);
        }
        other => panic!("{other:?}"),
    }
}

#[test]
fn s3_alone_is_enough() {
    let mut options = with_s3();
    options.target_types = vec![TargetType::S3];
    options.local_targets.clear();
    let request = resolve(options).unwrap();
    assert_eq!(request.targets.len(), 1);
    assert!(matches!(request.targets[0], Target::S3(_)));
}
