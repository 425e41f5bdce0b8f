use azcp::apply_shard;
use azcp::cluster::paths::rel_below;
use azcp::encoding::{hashed_digest, hashed_text, Hasher};
use azcp::engine::globs::Filter;
use azcp::engine::index::NameIndex;
use azcp::engine::progress::{format_retry_stats, ProgressState};
use azcp::engine::rate_limiter::RateLimiter;
use azcp::engine::transfer::{
    admit_download, failed_message, mime_from_path, plan_download, plan_range, plan_upload,
    skips_download, would_download, would_upload, Parts,
};
use azcp::engine::{
    blob_path_for, block_entries, block_id, content_digest, download_outcome, download_total,
    join_parts, plan_blocks, select_downloads, select_uploads, summarize, summarize_dry_run,
    upload_outcome, upload_total, uses_blocks, verify_hashed, verify_md5, Outcome,
};
use azcp::storage::blob::client::RetryStats;
use azcp::storage::local::{relative_name, walk_step, LocalEntry, WalkStep};
use azcp::{AzcpError, BlobItem, BlobProperties, TransferConfig};

#[test]
fn shard_partitions_disjointly() {
    let names: Vec<String> = ('a'..='p').map(|c| c.to_string()).collect();
    let mut all_seen: Vec<String> = Vec::new();
    for i in 0..4 {
        let mut items = names.clone();
        apply_shard(&mut items, Some((i, 4)), |s| s.clone(), |_| 1);
        assert_eq!(items.len(), 4);
        all_seen.extend(items);
    }
    all_seen.sort();
    assert_eq!(all_seen, names);
}

#[test]
fn shard_none_is_noop() {
    let mut items = vec!["b".to_string(), "a".to_string()];
    apply_shard(&mut items, None, |s| s.clone(), |_| 1);
    assert_eq!(items, vec!["b".to_string(), "a".to_string()]);
}

#[test]
fn shard_count_one_is_noop() {
    let mut items = vec!["b".to_string(), "a".to_string()];
    apply_shard(&mut items, Some((0, 1)), |s| s.clone(), |_| 1);
    assert_eq!(items.len(), 2);
}

#[test]
fn shard_balances_by_size_lpt() {
    let items: Vec<(String, u64)> = vec![
        ("big1".into(), 100),
        ("a".into(), 1),
        ("b".into(), 1),
        ("c".into(), 1),
        ("d".into(), 1),
    ];
    let mut totals = [0u64; 2];
    for shard in 0..2 {
        let mut s = items.clone();
        apply_shard(&mut s, Some((shard, 2)), |t| t.0.clone(), |t| t.1);
        totals[shard] = s.iter().map(|t| t.1).sum();
    }
    assert_eq!(totals.iter().sum::<u64>(), 104);
    assert_eq!(*totals.iter().max().unwrap(), 100);
    assert_eq!(*totals.iter().min().unwrap(), 4);
}

#[test]
fn user_agent_format_is_azcp_slash_version() {
    assert!(azcp::USER_AGENT.starts_with("azcp/"));
    let version = &azcp::USER_AGENT["azcp/".len()..];
    assert_eq!(version, "0.4.2");
    assert!(!version.is_empty());
}

fn file(id: usize, name: &str, size: u64) -> LocalEntry {
    LocalEntry {
        path_id: id,
        relative_path: name.to_string(),
        size,
        modified: None,
    }
}

fn blob(name: &str, size: u64, md5: Option<&str>) -> BlobItem {
    BlobItem {
        name: name.to_string(),
        properties: Some(BlobProperties {
            last_modified: None,
            content_length: Some(size),
            content_type: None,
            content_md5: md5.map(String::from),
            etag: None,
            blob_type: None,
            access_tier: None,
        }),
    }
}

#[test]
fn larger_items_are_shared_out_first() {
    let sizes = [1u64, 9, 5, 5, 2];
    let mut shares: Vec<Vec<u64>> = Vec::new();
    for i in 0..2 {
        let mut items: Vec<usize> = vec![0, 1, 2, 3, 4];
        apply_shard(&mut items, Some((i, 2)), |k| format!("f{k}"), |k| sizes[*k]);
        shares.push(items.iter().map(|k| sizes[*k]).collect());
    }
    assert_eq!(shares, vec![vec![9, 2], vec![1, 5, 5]]);
}

#[test]
fn blocks_cut_a_file() {
    assert!(!uses_blocks(0, 10));
    assert!(!uses_blocks(9, 10));
    assert!(uses_blocks(10, 10));
    let b = plan_blocks(25, 10);
    let cut: Vec<(u64, u64)> = b.iter().map(|x| (x.offset, x.len)).collect();
    assert_eq!(cut, vec![(0, 10), (10, 10), (20, 5)]);
    assert_eq!(b[0].id, "MDAwMDAw");
    assert_eq!(b[1].id, "MDAwMDAx");
    assert_eq!(block_entries(&b)[2].id, b[2].id);
    assert_eq!(plan_blocks(10, 10).len(), 1);
}

#[test]
fn block_ids_have_one_length() {
    assert_eq!(block_id(41), "MDAwMDQx");
    assert_eq!(block_id(1_234_567), "MTIzNDU2Nw==");
    let mut seen: Vec<String> = (0..2_000).map(block_id).collect();
    assert!(seen.iter().all(|id| id.len() == 8));
    seen.sort();
    seen.dedup();
    assert_eq!(seen.len(), 2_000);
}

#[test]
fn uploads_are_planned() {
    let p = plan_upload("a/b/", &file(0, "x/y.tar.gz", 25), 10);
    assert_eq!(p.blob_path, "a/b/x/y.tar.gz");
    assert_eq!(p.content_type, "application/gzip");
    assert!(matches!(p.parts, Parts::Blocks(b) if b.len() == 3));
    let p = plan_upload("", &file(0, ".bashrc", 3), 10);
    assert_eq!(p.blob_path, ".bashrc");
    assert_eq!(p.content_type, "application/octet-stream");
    assert!(matches!(p.parts, Parts::Whole));
}

#[test]
fn downloads_are_planned() {
    let b = blob("a/b/c.bin", 30, Some("md5"));
    let p = plan_download("a/b/", &b, true, 10);
    assert_eq!(p.local_path, "c.bin");
    assert_eq!(p.size, 30);
    assert_eq!(p.expected_md5.as_deref(), Some("md5"));
    assert!(matches!(p.parts, Parts::Blocks(b) if b.len() == 3));
    let p = plan_download("a/b", &b, false, 31);
    assert_eq!(p.local_path, "c.bin");
    assert_eq!(p.expected_md5, None);
    assert!(matches!(p.parts, Parts::Whole));
    let unknown = BlobItem {
        name: "z".to_string(),
        properties: None,
    };
    let p = plan_download("", &unknown, true, 10);
    assert_eq!((p.size, p.expected_md5), (0, None));
    assert!(matches!(p.parts, Parts::Whole));
}

#[test]
fn uploaded_files_are_found_again() {
    for prefix in ["", "a", "a/", "a/b", "/", "//"] {
        for rel in ["x", "x/y.bin"] {
            assert_eq!(rel_below(prefix, &blob_path_for(prefix, rel)), rel);
        }
    }
}

#[test]
fn types_go_by_extension() {
    for (name, mime) in [
        ("i.html", "text/html"),
        ("i.htm", "text/html"),
        ("a.css", "text/css"),
        ("a.js", "application/javascript"),
        ("d/a.json", "application/json"),
        ("a.xml", "application/xml"),
        ("a.txt", "text/plain"),
        ("a.csv", "text/csv"),
        ("a.png", "image/png"),
        ("a.jpg", "image/jpeg"),
        ("a.jpeg", "image/jpeg"),
        ("a.gif", "image/gif"),
        ("a.svg", "image/svg+xml"),
        ("a.pdf", "application/pdf"),
        ("a.zip", "application/zip"),
        ("a.gz", "application/gzip"),
        ("a.gzip", "application/gzip"),
        ("a.tar", "application/x-tar"),
        ("a.wasm", "application/wasm"),
        ("a.HTML", "application/octet-stream"),
        ("html", "application/octet-stream"),
        ("d.html/a", "application/octet-stream"),
        ("a.", "application/octet-stream"),
        ("d/a.html/", "text/html"),
        ("a.html/.", "text/html"),
        ("a.html/..", "application/octet-stream"),
        (".html", "application/octet-stream"),
        ("", "application/octet-stream"),
    ] {
        assert_eq!(mime_from_path(name), mime, "{name}");
    }
}

#[test]
fn digests_are_checked() {
    assert_eq!(
        content_digest(true, b"hello"),
        Some([93, 65, 64, 42, 188, 75, 42, 118, 185, 113, 157, 145, 16, 23, 197, 146])
    );
    assert_eq!(content_digest(false, b"hello"), None);
    assert!(verify_md5("b", None, b"other").is_ok());
    assert!(verify_md5("b", Some("XUFAKrxLKna5cZ2REBfFkg=="), b"hello").is_ok());
    assert!(verify_md5("b", Some("1B2M2Y8AsgTpgAmY7PhCfg=="), b"").is_ok());
    let e = verify_md5("b", Some("1B2M2Y8AsgTpgAmY7PhCfg=="), b"hello").unwrap_err();
    assert_eq!(
        e.message(),
        "MD5 mismatch for b: expected 1B2M2Y8AsgTpgAmY7PhCfg==, got XUFAKrxLKna5cZ2REBfFkg=="
    );
}

#[test]
fn files_are_hashed_in_pieces() {
    let hasher = |pieces: &[&[u8]]| {
        let mut h = Hasher::new();
        for p in pieces {
            h.update(p);
        }
        h
    };
    let hello = content_digest(true, b"hello").unwrap();
    assert_eq!(hashed_digest(hasher(&[b"he", b"", b"llo"])), hello);
    assert_eq!(hashed_digest(hasher(&[b"hello"])), hello);
    assert_eq!(hashed_text(hasher(&[b"h", b"ello"])), "XUFAKrxLKna5cZ2REBfFkg==");
    assert_eq!(hashed_text(Hasher::new()), "1B2M2Y8AsgTpgAmY7PhCfg==");
    let expected = Some("XUFAKrxLKna5cZ2REBfFkg==");
    assert!(verify_hashed("b", expected, hasher(&[b"hell", b"o"])).is_ok());
    assert!(verify_hashed("b", None, hasher(&[b"other"])).is_ok());
    let e = verify_hashed("b", expected, Hasher::new()).unwrap_err();
    assert_eq!(
        e.message(),
        "MD5 mismatch for b: expected XUFAKrxLKna5cZ2REBfFkg==, got 1B2M2Y8AsgTpgAmY7PhCfg=="
    );
}

#[test]
fn existing_files_are_skipped() {
    assert!(skips_download(false, true));
    assert!(!skips_download(false, false) && !skips_download(true, true));
    assert!(admit_download(true, true, "b").is_ok());
    assert!(admit_download(false, false, "b").is_ok());
    let refused = admit_download(false, true, "b");
    assert!(matches!(&refused, Err(AzcpError::AlreadyExists(n)) if n == "b"));
    let s = summarize(1, 5, &vec![download_outcome(&refused)]);
    assert_eq!((s.succeeded, s.failed, s.skipped), (0, 0, 1));
}

#[test]
fn shards_do_not_depend_on_the_order_of_a_listing() {
    let listed: Vec<(String, u64)> = (0..20).map(|i| (format!("f{i}"), 100 + i * i % 7)).collect();
    let mut turned = listed.clone();
    turned.reverse();
    turned.rotate_left(7);
    for i in 0..3 {
        let (mut a, mut b) = (listed.clone(), turned.clone());
        apply_shard(&mut a, Some((i, 3)), |x| x.0.clone(), |x| x.1);
        apply_shard(&mut b, Some((i, 3)), |x| x.0.clone(), |x| x.1);
        a.sort();
        b.sort();
        assert_eq!(a, b);
    }
}

#[test]
fn outcomes_are_counted() {
    let results = vec![
        Ok(()),
        Err(AzcpError::AlreadyExists("b".to_string())),
        Err(AzcpError::Io("x".to_string())),
        Ok(()),
    ];
    let up: Vec<Outcome> = results.iter().map(upload_outcome).collect();
    let s = summarize(4, 100, &up);
    assert_eq!(
        (s.total_files, s.total_bytes, s.succeeded, s.failed, s.skipped),
        (4, 100, 2, 1, 1)
    );
    let down: Vec<Outcome> = results.iter().map(download_outcome).collect();
    let s = summarize(4, 100, &down);
    assert_eq!((s.succeeded, s.failed, s.skipped), (2, 1, 1));
    let s = summarize_dry_run(4, 100);
    assert_eq!((s.succeeded, s.failed, s.skipped), (4, 0, 0));
    assert_eq!(
        join_parts(results).unwrap_err().message(),
        "Destination blob already exists: b"
    );
    assert!(join_parts(vec![Ok(()), Ok(())]).is_ok());
}

#[test]
fn filters_take_and_leave() {
    let f = Filter::new(Some(" *.bin ; d/** "), Some("*tmp*")).unwrap();
    assert!(f.path_matches("a.bin"));
    assert!(f.path_matches("x/y/a.bin"));
    assert!(f.path_matches("d/readme"));
    assert!(!f.path_matches("readme"));
    assert!(!f.path_matches("a.tmp.bin"));
    let all = Filter::new(Some("  "), None).unwrap();
    assert!(all.path_matches("anything"));
    let nothing = Filter::new(Some(";"), None).unwrap();
    assert!(!nothing.path_matches("anything"));
    let e = Filter::new(Some("ok;[z-"), Some("[a-")).unwrap_err_text();
    assert!(e.starts_with("Transfer failed: invalid glob `[z-`: "), "{e}");
    let e = Filter::new(Some("ok"), Some("[a-")).unwrap_err_text();
    assert!(e.starts_with("Transfer failed: invalid glob `[a-`: "), "{e}");
}

trait ErrText {
    fn unwrap_err_text(self) -> String;
}

impl ErrText for Result<Filter, AzcpError> {
    fn unwrap_err_text(self) -> String {
        match self {
            Ok(_) => panic!("a filter"),
            Err(e) => e.message(),
        }
    }
}

#[test]
fn selections_filter_before_they_share_out() {
    let f = Filter::new(Some("*.bin"), None).unwrap();
    let files = || {
        vec![
            file(0, "a.bin", 4),
            file(1, "b.txt", 9),
            file(2, "c.bin", 3),
            file(3, "d.bin", 2),
        ]
    };
    let ids = |v: Vec<LocalEntry>| v.iter().map(|e| e.path_id).collect::<Vec<usize>>();
    assert_eq!(ids(select_uploads(&f, None, files())), vec![0, 2, 3]);
    assert_eq!(ids(select_uploads(&f, Some((0, 2)), files())), vec![0]);
    assert_eq!(ids(select_uploads(&f, Some((1, 2)), files())), vec![2, 3]);
    let blobs = vec![
        blob("p/a.bin", 1, None),
        blob("p/b.txt", 1, None),
        blob("q.bin", 1, None),
    ];
    assert_eq!(download_total(&blobs), 3);
    let kept = select_downloads(&f, None, "p/", blobs);
    let names: Vec<&str> = kept.iter().map(|b| b.name.as_str()).collect();
    assert_eq!(names, vec!["p/a.bin", "q.bin"]);
    assert_eq!(upload_total(&files()), 18);
}

#[test]
fn buckets_start_empty_and_fill_with_time() {
    let mut l = RateLimiter::new(1024 * 1000);
    assert_eq!(l.bytes_per_sec(), 1_024_000);
    assert_eq!(l.needed(0), 0);
    assert_eq!(l.needed(1), 1);
    assert_eq!(l.needed(1025), 2);
    assert_eq!(l.needed(u64::MAX), 1000);
    assert!(!l.try_take(1));
    l.refill(999);
    assert!(!l.try_take(1));
    l.refill(1);
    assert!(l.try_take(1));
    l.refill(500_500);
    assert!(l.try_take(500));
    l.refill(500);
    assert!(l.try_take(1));
    assert!(!l.try_take(1));
    l.refill(u64::MAX);
    assert!(l.try_take(1000));
    assert!(!l.try_take(1));
}

#[test]
fn late_refills_mint_the_same() {
    let mut often = RateLimiter::new(3 * 1024 * 1024);
    let mut once = RateLimiter::new(3 * 1024 * 1024);
    for _ in 0..97 {
        often.refill(1_003);
    }
    once.refill(97 * 1_003);
    let mut taken = 0;
    while often.try_take(1) {
        taken += 1;
    }
    assert_eq!(taken, 298);
    assert!(once.try_take(298));
    assert!(!once.try_take(1));
    let mut slow = RateLimiter::new(10);
    assert_eq!(slow.needed(5_000), 1);
    slow.refill(1_000_000);
    assert!(slow.try_take(1));
}

#[test]
fn progress_says_how_far_it_is() {
    let mut p = ProgressState::new(3, 0);
    assert_eq!(p.add_total(0, 0), 1);
    assert_eq!(p.add_total(2, 70), 70);
    p.complete_file();
    assert_eq!(p.message(None), "1/5 files");
    let mut s = RetryStats::default();
    assert_eq!(p.message(Some(&s)), "1/5 files");
    s.record_status(503);
    s.record_status(503);
    s.record_transport();
    assert_eq!(p.message(Some(&s)), "1/5 files [retry 503x2 net×1]");
    s.record_status(429);
    s.record_status(502);
    assert_eq!(format_retry_stats(&s), "[retry 503x2 429x1 5xx×1 net×1]");
}

#[test]
fn names_are_found_at_their_last_place() {
    let chars = |s: &str| s.chars().collect::<Vec<char>>();
    let i = NameIndex::new(vec![chars("b"), chars("a"), chars("b"), chars("")]);
    assert_eq!(i.find(&chars("b")), Some(2));
    assert_eq!(i.find(&chars("a")), Some(1));
    assert_eq!(i.find(&chars("")), Some(3));
    assert_eq!(i.find(&chars("c")), None);
    assert_eq!(NameIndex::new(vec![]).find(&chars("c")), None);
}

#[test]
fn walks_take_files() {
    assert_eq!(walk_step(true, false, false), WalkStep::Take);
    assert_eq!(walk_step(false, true, true), WalkStep::Enter);
    assert_eq!(walk_step(false, true, false), WalkStep::Pass);
    assert_eq!(walk_step(false, false, true), WalkStep::Pass);
    assert_eq!(relative_name("a\\b/c"), "a/b/c");
    assert_eq!(would_upload("x"), "  [dry-run] would upload: x");
    assert_eq!(would_download("x"), "  [dry-run] would download: x");
    assert_eq!(failed_message("x", "no"), "ERROR: x: no");
}

#[test]
fn configuration_has_its_defaults() {
    let c = TransferConfig::default();
    assert_eq!(c.block_size, 4 * 1024 * 1024);
    assert_eq!((c.concurrency, c.parallel_files, c.max_retries), (64, 16, 5));
    assert!(c.overwrite && !c.recursive && !c.check_md5 && !c.dry_run);
}

#[test]
fn ranges_are_requested_block_by_block() {
    assert_eq!(plan_range(100, 25, 10), vec![(100, 10), (110, 10), (120, 5)]);
    assert_eq!(plan_range(100, 10, 10), vec![(100, 10)]);
    assert_eq!(plan_range(7, 3, 10), vec![(7, 3)]);
    assert!(plan_range(7, 0, 10).is_empty());
}
