use azcp::cli::args::{CompareMethod, SyncArgs};
use azcp::cli::sync_cmd::{
    download_preflight, local_index, md5_preflight, needs_download, needs_upload, parse_blob_lmt,
    remote_record, stale_files, sync_config, sync_footer, sync_route, RemoteIndex, RemoteRecord,
    SyncRoute, Verdict,
};
use azcp::cli::sync_plan::{download_verdicts, local_places, sort_verdicts, upload_verdicts};
use azcp::storage::local::{LocalEntry, Timestamp};
use azcp::{parse_location, AzcpError, BlobItem, BlobProperties};

fn time(secs: i64, nanos: u32) -> Option<Timestamp> {
    Some(Timestamp { secs, nanos })
}

fn file(id: usize, name: &str, size: u64, modified: Option<Timestamp>) -> LocalEntry {
    LocalEntry {
        path_id: id,
        relative_path: name.to_string(),
        size,
        modified,
    }
}

fn record(size: u64, last_modified: Option<Timestamp>, md5: Option<&str>) -> RemoteRecord {
    RemoteRecord {
        size,
        last_modified,
        md5_b64: md5.map(String::from),
    }
}

fn blob(name: &str, size: u64, md5: Option<&str>) -> BlobItem {
    BlobItem {
        name: name.to_string(),
        properties: Some(BlobProperties {
            last_modified: Some("Thu, 01 Jan 1970 01:00:05 +0100".to_string()),
            content_length: Some(size),
            content_type: None,
            content_md5: md5.map(String::from),
            etag: None,
            blob_type: None,
            access_tier: None,
        }),
    }
}

#[test]
fn syncs_go_one_way() {
    let local = parse_location("x").unwrap();
    let blob = parse_location("https://a.blob.core.windows.net/c").unwrap();
    assert_eq!(sync_route(&local, &blob), SyncRoute::Upload);
    assert_eq!(sync_route(&blob, &local), SyncRoute::Download);
    assert_eq!(sync_route(&blob, &blob), SyncRoute::Unsupported);
    assert_eq!(sync_route(&local, &local), SyncRoute::Unsupported);
    let c = sync_config(&SyncArgs {
        source: String::new(),
        destination: String::new(),
        concurrency: 2,
        block_size: 3,
        parallel_files: 4,
        max_retries: 5,
        dry_run: true,
        delete_destination: true,
        compare_method: CompareMethod::Size,
        include_pattern: None,
        exclude_pattern: Some("x".to_string()),
        progress: true,
        no_progress: false,
        shard: Some((0, 2)),
    });
    assert!(c.recursive && c.overwrite && c.dry_run && c.progress && !c.check_md5);
    assert_eq!((c.block_size, c.shard), (3, Some((0, 2))));
}

#[test]
fn dates_are_read() {
    let t = parse_blob_lmt(&Some("Thu, 01 Jan 1970 00:01:40 GMT".to_string())).unwrap();
    assert_eq!((t.secs, t.nanos), (100, 0));
    assert!(parse_blob_lmt(&Some("yesterday".to_string())).is_none());
    assert!(parse_blob_lmt(&None).is_none());
    let r = remote_record(&blob("b", 7, Some("m")));
    assert_eq!(r.size, 7);
    assert_eq!(r.last_modified.unwrap().secs, 5);
    assert_eq!(r.md5_b64.as_deref(), Some("m"));
}

#[test]
fn uploads_are_decided() {
    let up = |m, f: &LocalEntry, r: Option<&RemoteRecord>, d: Option<&str>| {
        needs_upload(m, f, r, &d.map(String::from))
    };
    let f = file(0, "f", 10, time(100, 999));
    let same = record(10, time(100, 0), Some("m"));
    let older = record(10, time(99, 0), Some("m"));
    let other = record(11, time(100, 0), Some("m"));
    for m in [
        CompareMethod::Size,
        CompareMethod::SizeAndMtime,
        CompareMethod::Md5,
        CompareMethod::Always,
    ] {
        assert_eq!(up(m, &f, None, None), Verdict::Transfer);
        assert_eq!(up(m, &f, Some(&other), None), Verdict::Transfer);
    }
    assert_eq!(up(CompareMethod::Always, &f, Some(&same), None), Verdict::Transfer);
    assert_eq!(up(CompareMethod::Size, &f, Some(&older), None), Verdict::Unchanged);
    let by_time = CompareMethod::SizeAndMtime;
    assert_eq!(up(by_time, &f, Some(&same), None), Verdict::Unchanged);
    assert_eq!(up(by_time, &f, Some(&older), None), Verdict::Transfer);
    let timeless = record(10, None, None);
    assert_eq!(up(by_time, &f, Some(&timeless), None), Verdict::Transfer);
    let by_digest = CompareMethod::Md5;
    assert_eq!(up(by_digest, &f, Some(&timeless), Some("m")), Verdict::Transfer);
    assert_eq!(up(by_digest, &f, Some(&same), None), Verdict::NeedsDigest);
    assert_eq!(up(by_digest, &f, Some(&same), Some("m")), Verdict::Unchanged);
    assert_eq!(up(by_digest, &f, Some(&same), Some("n")), Verdict::Transfer);
}

#[test]
fn downloads_are_decided() {
    let down = |m, r: &RemoteRecord, f: Option<&LocalEntry>, d: Option<&str>| {
        needs_download(m, r, f, &d.map(String::from))
    };
    let r = record(10, time(100, 0), Some("m"));
    let same = file(0, "f", 10, time(100, 0));
    let newer = file(0, "f", 10, time(100, 1));
    let older = file(0, "f", 10, time(99, 999_999_999));
    let other = file(0, "f", 9, time(200, 0));
    let by_time = CompareMethod::SizeAndMtime;
    for m in [
        CompareMethod::Size,
        by_time,
        CompareMethod::Md5,
        CompareMethod::Always,
    ] {
        assert_eq!(down(m, &r, None, None), Verdict::Transfer);
        assert_eq!(down(m, &r, Some(&other), None), Verdict::Transfer);
    }
    assert_eq!(down(CompareMethod::Always, &r, Some(&same), None), Verdict::Transfer);
    assert_eq!(down(CompareMethod::Size, &r, Some(&older), None), Verdict::Unchanged);
    assert_eq!(down(by_time, &r, Some(&same), None), Verdict::Unchanged);
    assert_eq!(down(by_time, &r, Some(&newer), None), Verdict::Unchanged);
    assert_eq!(down(by_time, &r, Some(&older), None), Verdict::Transfer);
    assert_eq!(
        down(by_time, &r, Some(&file(0, "f", 10, None)), None),
        Verdict::Transfer
    );
    let by_digest = CompareMethod::Md5;
    assert_eq!(down(by_digest, &r, Some(&same), None), Verdict::NeedsDigest);
    assert_eq!(down(by_digest, &r, Some(&same), Some("m")), Verdict::Unchanged);
    assert_eq!(down(by_digest, &r, Some(&same), Some("n")), Verdict::Transfer);
}

#[test]
fn only_orphans_are_deleted() {
    let blobs = vec![
        blob("p/a", 1, None),
        blob("p/d/b", 2, None),
        blob("p/c", 3, None),
        blob("p/a", 9, None),
    ];
    let remote = RemoteIndex::remote_index(&blobs, "p/");
    assert_eq!(remote.get("a").unwrap().size, 9);
    assert_eq!(remote.get("d/b").unwrap().size, 2);
    assert!(remote.get("p/a").is_none());
    let files = vec![
        file(7, "c", 3, None),
        file(8, "new", 1, None),
        file(9, "d/b", 2, None),
    ];
    assert_eq!(
        remote.stale_blobs(&local_index(&files), "p"),
        vec!["p/a".to_string()]
    );
    assert!(remote
        .stale_blobs(&local_index(&vec![]), "p/")
        .contains(&"p/d/b".to_string()));
    assert_eq!(stale_files(&files, &remote), vec![8]);
}

#[test]
fn missing_digests_are_named() {
    let blobs = vec![
        blob("p/a", 1, None),
        blob("p/b", 1, Some("m")),
        blob("p/c", 0, None),
    ];
    let remote = RemoteIndex::remote_index(&blobs, "p/");
    assert!(md5_preflight(&RemoteIndex::remote_index(&blobs[1..].to_vec(), "p/")).is_ok());
    let e = md5_preflight(&remote).unwrap_err().message();
    assert_eq!(
        e,
        "Transfer failed: --compare-method md5 requires Content-MD5 on all remote blobs, but 1 blob(s) are missing it:\n  - a\nhint: re-upload these with 'azcp copy --check-md5 ...' to populate Content-MD5, or use --compare-method size-and-mtime"
    );
    let many: Vec<BlobItem> = (0..12).map(|i| blob(&format!("n{i}"), 1, None)).collect();
    let e = download_preflight(&many).unwrap_err().message();
    assert!(e.contains("but 12 blob(s) are missing it:\n  - n0\n  - n1\n"));
    assert!(e.contains("\n  - n9\n  ... and 2 more\nhint: re-upload with"));
    assert!(!e.contains("n10"));
    assert!(download_preflight(&vec![blob("z", 0, None)]).is_ok());
}

#[test]
fn blobs_without_a_file_need_a_digest_too() {
    let blobs = vec![blob("a.txt", 3, Some("m")), blob("old.bin", 5, None)];
    let e = md5_preflight(&RemoteIndex::remote_index(&blobs, "")).unwrap_err();
    assert!(matches!(&e, AzcpError::Transfer(m) if m.contains("\n  - old.bin\n")));
    assert!(!e.message().contains("a.txt"));
}

#[test]
fn syncs_end_with_counts() {
    assert_eq!(
        sync_footer(5, 3, "uploaded", 2),
        "Sync complete: 5 planned, 3 uploaded, 2 unchanged"
    );
}

#[test]
fn syncs_are_planned_in_two_rounds() {
    let blobs = vec![
        blob("d/same", 1, Some("m")),
        blob("d/other", 1, Some("m")),
        blob("d/resized", 2, Some("m")),
        blob("d/new", 1, Some("m")),
    ];
    let files = vec![
        file(0, "same", 1, None),
        file(1, "other", 1, None),
        file(2, "resized", 1, None),
        file(3, "here", 1, None),
    ];
    let none = vec![None, None, None, None];
    let digests = vec![Some("m".to_string()), Some("n".to_string()), None, None];
    let remote = RemoteIndex::remote_index(&blobs, "d");
    let up = |d: &Vec<Option<String>>| {
        sort_verdicts(&upload_verdicts(CompareMethod::Md5, &files, &remote, d))
    };
    let first = up(&none);
    assert_eq!(first.digests, vec![0, 1]);
    assert_eq!((first.transfers, first.unchanged), (vec![2, 3], 0));
    let second = up(&digests);
    assert_eq!((second.transfers, second.unchanged), (vec![1, 2, 3], 1));
    assert!(second.digests.is_empty());
    let places = local_places(&blobs, "d", &local_index(&files));
    assert_eq!(places, vec![Some(0), Some(1), Some(2), None]);
    let down = |d: &Vec<Option<String>>| {
        sort_verdicts(&download_verdicts(CompareMethod::Md5, &blobs, &files, &places, d))
    };
    assert_eq!(down(&none).digests, vec![0, 1]);
    let second = down(&digests);
    assert_eq!((second.transfers, second.unchanged), (vec![1, 2, 3], 1));
}
