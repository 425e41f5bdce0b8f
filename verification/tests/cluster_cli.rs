use azcp::cluster::cli::{parse_size, Args, Compare, Stage};

fn args_with(shard_size: u64, file_shards: Option<usize>, bcast_chunk: usize) -> Args {
    Args {
        source: String::new(),
        dest: String::new(),
        shardlist: None,
        compare: Compare::Never,
        filelist: None,
        save_filelist: None,
        concurrency: 64,
        block_size: 16 * 1024 * 1024,
        parallel_files: 16,
        bcast_chunk,
        bcast_pipeline: 1,
        bcast_writers: 2,
        no_bcast_direct: false,
        max_retries: 5,
        max_bandwidth: None,
        download_ranks: None,
        verify: false,
        no_progress: false,
        stage: Stage::All,
        shard_size,
        file_shards,
    }
}

#[test]
fn parse_size_units() {
    assert_eq!(parse_size("0").unwrap(), 0);
    assert_eq!(parse_size("16777216").unwrap(), 16 * 1024 * 1024);
    assert_eq!(parse_size("32GiB").unwrap(), 32u64 * 1024 * 1024 * 1024);
    assert_eq!(parse_size("32gib").unwrap(), 32u64 * 1024 * 1024 * 1024);
    assert_eq!(parse_size("32Gi").unwrap(), 32u64 * 1024 * 1024 * 1024);
    assert_eq!(parse_size("1GB").unwrap(), 1_000_000_000);
    assert_eq!(parse_size("1G").unwrap(), 1_000_000_000);
    assert_eq!(parse_size("2TiB").unwrap(), 2u64 * 1024 * 1024 * 1024 * 1024);
}

#[test]
fn parse_size_rejects_garbage() {
    assert!(parse_size("").is_err());
    assert!(parse_size("abc").is_err());
    assert!(parse_size("12XYZ").is_err());
    assert!(parse_size("-5").is_err());
}

#[test]
fn validate_default_off() {
    assert!(args_with(0, None, 64 * 1024 * 1024).validate().is_ok());
}

#[test]
fn validate_mutex_rejected() {
    let err = args_with(1 << 30, Some(8), 64 * 1024 * 1024)
        .validate()
        .unwrap_err();
    assert!(err.contains("mutually exclusive"), "got: {err}");
}

#[test]
fn validate_shard_must_be_chunk_multiple() {
    let err = args_with(1_000_000, None, 64 * 1024 * 1024)
        .validate()
        .unwrap_err();
    assert!(err.contains("multiple"), "got: {err}");
}

#[test]
fn validate_shard_aligned_ok() {
    assert!(args_with(64 * 1024 * 1024, None, 64 * 1024 * 1024)
        .validate()
        .is_ok());
    assert!(args_with(2u64 * 1024 * 1024 * 1024, None, 64 * 1024 * 1024)
        .validate()
        .is_ok());
}

#[test]
fn validate_file_shards_zero_rejected() {
    let err = args_with(0, Some(0), 64 * 1024 * 1024)
        .validate()
        .unwrap_err();
    assert!(err.contains(">= 1"), "got: {err}");
}
