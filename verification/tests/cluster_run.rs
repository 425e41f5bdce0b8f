use azcp::cluster::cli::{Args, Compare, Stage};
use azcp::cluster::plan::{
    bcast_shards, count_files, download_entries, download_rank_count, effective_shard_size,
    files_to_create, is_downloader, my_ranges, node_complaint, per_rank_bandwidth, plan_bytes,
    ranges_bytes,
};
use azcp::cluster::rails::{active_ib_ports, IbDevice, IbPort};
use azcp::cluster::report::{
    bcast_line, diff_line, download_line, download_ranks_line, filelist_line, list_line,
    shard_size_line, slice_line, total_line,
};
use azcp::cluster::stages::diff::classify;
use azcp::cluster::stages::download::{
    cluster_retry_line, download_config, rank_summary, stage_result, RankRetrySummary,
};
use azcp::cluster::stages::list::{
    clean_listing, implicit_message, local_source_message, markers_message, restore_digests,
};
use azcp::cluster::stages::presence::{
    build_row, needs_local_size, size_matches, LocalMeta, Presence, Prior,
};
use azcp::cluster::stages::shards::compute_shards;
use azcp::cluster::stages::verify::{digest_row, verify_digests};
use azcp::cluster::transport::{components_line, device_lines, variable_line, variables};
use azcp::engine::TransferSummary;
use azcp::storage::blob::client::RetryStats;
use azcp::{BlobItem, BlobProperties};

fn blob(name: &str, size: u64) -> BlobItem {
    full(name, Some(size), Some("Mon"), None)
}

fn full(name: &str, size: Option<u64>, modified: Option<&str>, md5: Option<&str>) -> BlobItem {
    BlobItem {
        name: name.to_string(),
        properties: Some(BlobProperties {
            last_modified: modified.map(String::from),
            content_length: size,
            content_type: None,
            content_md5: md5.map(String::from),
            etag: None,
            blob_type: None,
            access_tier: None,
        }),
    }
}

fn names(items: &[BlobItem]) -> Vec<&str> {
    items.iter().map(|b| b.name.as_str()).collect()
}

fn args() -> Args {
    Args {
        source: String::new(),
        dest: String::new(),
        shardlist: None,
        compare: Compare::Size,
        filelist: None,
        save_filelist: None,
        concurrency: 2,
        block_size: 3,
        parallel_files: 4,
        bcast_chunk: 4,
        bcast_pipeline: 1,
        bcast_writers: 1,
        no_bcast_direct: true,
        max_retries: 6,
        max_bandwidth: None,
        download_ranks: None,
        verify: false,
        no_progress: true,
        stage: Stage::All,
        shard_size: 0,
        file_shards: None,
    }
}

#[test]
fn ranks_are_counted() {
    assert_eq!(node_complaint(3, 1), None);
    assert_eq!(
        node_complaint(3, 2).as_deref(),
        Some("rank 3: detected 2 ranks on this node; azcp-cluster requires exactly one rank per node (use mpirun -N 1 / one process per host)")
    );
    assert_eq!(download_rank_count(None, 4), Ok(4));
    assert_eq!(download_rank_count(Some(4), 4), Ok(4));
    assert_eq!(
        download_rank_count(Some(5), 4).unwrap_err(),
        "--download-ranks 5 invalid (must be 1..=4)"
    );
    assert!(download_rank_count(Some(0), 4).is_err());
    assert!(is_downloader(1, 2) && !is_downloader(2, 2));
}

#[test]
fn bandwidth_is_shared_out() {
    assert_eq!(per_rank_bandwidth(None, 3), None);
    assert_eq!(per_rank_bandwidth(Some(100), 3), Some(33));
    assert_eq!(per_rank_bandwidth(Some(2), 3), Some(1));
}

#[test]
fn runs_are_planned() {
    // Rank 0 has nothing, rank 1 has b, and both have d.
    let entries = vec![blob("p/a", 10), blob("p/b", 3), blob("p/c", 0), blob("p/d", 7)];
    let rows = [
        build_row(&vec![false, false, false, true]),
        build_row(&vec![false, true, false, true]),
    ];
    let presence = Presence::from_raw(2, 4, 1, rows.concat());
    let c = classify(&presence);
    assert_eq!(c.skipped, 1);
    assert_eq!(c.bcast_only, vec![(1, 1)]);
    assert_eq!(c.needs_download, vec![0, 2]);
    let downloads = download_entries(&entries, &c.needs_download);
    assert_eq!(names(&downloads), vec!["p/a", "p/c"]);
    let mut a = args();
    assert_eq!(effective_shard_size(&a, &downloads), 0);
    let chunk = a.bcast_chunk;
    a.bcast_chunk = 0;
    assert_eq!(effective_shard_size(&a, &downloads), 0);
    assert_eq!(shard_size_line(0, 0), None);
    a.bcast_chunk = chunk;
    a.file_shards = Some(2);
    assert_eq!(effective_shard_size(&a, &downloads), 8);
    a.shard_size = 4;
    assert_eq!(effective_shard_size(&a, &downloads), 4);
    let shards = compute_shards(&downloads, 2, 4);
    let plan = bcast_shards(&presence, &entries, &c, &shards, 4);
    let shown: Vec<(usize, usize, u64, u64)> = plan
        .iter()
        .map(|s| (s.file_idx, s.shard_idx, s.byte_offset, s.byte_len))
        .collect();
    assert_eq!(
        shown,
        vec![(0, 0, 0, 4), (0, 1, 4, 4), (0, 2, 8, 2), (1, 0, 0, 3), (2, 0, 0, 0)]
    );
    assert_eq!(plan[3].owner_rank, 1);
    assert_eq!(count_files(&plan), 3);
    assert_eq!(plan_bytes(&plan), 13);
    assert_eq!(files_to_create(&presence, &plan, 0), vec![0, 1, 2]);
    assert_eq!(files_to_create(&presence, &plan, 1), vec![0, 2]);
    let mut total = 0;
    let mut ranges = 0;
    for rank in 0..2 {
        let mine = my_ranges("p/", &downloads, &shards, rank);
        assert!(mine.iter().all(|r| r.blob_name == format!("p/{}", r.local_path)));
        total += ranges_bytes(&mine);
        ranges += mine.len();
    }
    assert_eq!((total, ranges), (10, 4));
}

#[test]
fn presence_goes_by_size_and_list() {
    let item = blob("a", 5);
    let file = |len| Some(LocalMeta { is_file: true, len });
    assert!(size_matches(&item, file(5)));
    assert!(!size_matches(&item, file(4)));
    assert!(!size_matches(&item, None));
    assert!(!size_matches(
        &item,
        Some(LocalMeta {
            is_file: false,
            len: 5
        })
    ));
    assert!(!size_matches(&full("a", None, None, None), file(0)));
    assert!(needs_local_size(Compare::Size, &None, &item));
    assert!(!needs_local_size(Compare::Never, &None, &item));
    assert!(!needs_local_size(Compare::Filelist, &None, &item));
    let prior = Some(Prior::new(vec![
        blob("a", 4),
        full("b", Some(5), Some("Tue"), None),
        blob("a", 5),
        full("c", None, Some("Mon"), None),
    ]));
    assert!(needs_local_size(Compare::Filelist, &prior, &item));
    assert!(!needs_local_size(Compare::Filelist, &prior, &blob("a", 4)));
    assert!(!needs_local_size(Compare::Filelist, &prior, &blob("b", 5)));
    assert!(!needs_local_size(Compare::Filelist, &prior, &blob("x", 5)));
    let unknown = full("c", None, Some("Mon"), None);
    assert!(!needs_local_size(Compare::Filelist, &prior, &unknown));
}

#[test]
fn rows_are_packed() {
    let flags: Vec<bool> = (0..11).map(|i| i % 3 == 0).collect();
    assert_eq!(build_row(&flags), vec![0b0100_1001, 0b0000_0010]);
    let p = Presence::from_raw(1, 11, 2, build_row(&flags));
    for (i, f) in flags.iter().enumerate() {
        assert_eq!(p.has(0, i), *f);
    }
    assert!(build_row(&vec![]).is_empty());
}

#[test]
fn listings_are_cleaned() {
    let c = clean_listing(
        "p/",
        vec![
            blob("p/", 0),
            blob("p/d", 0),
            blob("p/d/x", 1),
            blob("p/e/", 0),
            blob("p/dx", 2),
        ],
    );
    assert_eq!(names(&c.entries), vec!["p/d/x", "p/dx"]);
    assert_eq!((c.markers, c.implicit), (2, 1));
    assert_eq!(
        markers_message(2),
        "[list] skipped 2 directory-marker blob(s) (name == source prefix or ends in '/')"
    );
    assert_eq!(
        implicit_message(1),
        "[list] skipped 1 implicit-directory blob(s) (name is a parent prefix of another blob)"
    );
    assert_eq!(
        local_source_message("/x"),
        "source must be an Azure Blob URL for cluster broadcast (got local path /x)"
    );
}

#[test]
fn digests_are_restored() {
    let listed = vec![
        full("a", Some(1), None, Some("old")),
        full("a", Some(1), None, Some("new")),
        full("b", Some(1), None, None),
    ];
    let mut entries = vec![
        full("b", Some(1), None, Some("x")),
        full("a", Some(9), None, None),
        full("c", Some(1), None, Some("y")),
        BlobItem {
            name: "a".to_string(),
            properties: None,
        },
    ];
    restore_digests(&mut entries, &listed);
    let md5 = |i: usize| {
        entries[i]
            .properties
            .as_ref()
            .and_then(|p| p.content_md5.clone())
    };
    assert_eq!(md5(0), None);
    assert_eq!(md5(1).as_deref(), Some("new"));
    assert_eq!(md5(2), None);
    assert_eq!(md5(3), None);
    assert_eq!(entries[1].properties.as_ref().unwrap().content_length, Some(9));
}

#[test]
fn digests_of_all_ranks_are_compared() {
    let good = [
        93u8, 65, 64, 42, 188, 75, 42, 118, 185, 113, 157, 145, 16, 23, 197, 146,
    ];
    let bad = [0u8; 16];
    let entries = vec![
        full("a", Some(5), None, Some("XUFAKrxLKna5cZ2REBfFkg==")),
        full("b", Some(5), None, None),
        full("c", Some(5), None, Some("1B2M2Y8AsgTpgAmY7PhCfg==")),
        full("d", Some(5), None, Some("no digest")),
    ];
    let all = digest_row(&vec![
        good, good, good, good, // rank 0
        good, bad, good, good, // rank 1
    ]);
    assert_eq!(all.len(), 128);
    assert_eq!(all[80..96], bad);
    let r = verify_digests(&entries, &all, 2);
    assert_eq!(r.files, 4);
    assert_eq!(
        r.mismatches,
        vec![
            "b: rank 0 md5=5d41402abc4b2a76b9719d911017c592 != rank 1 md5=00000000000000000000000000000000",
            "c: rank 0 md5=5d41402abc4b2a76b9719d911017c592 != blob Content-MD5=d41d8cd98f00b204e9800998ecf8427e",
        ]
    );
    assert_eq!(
        (r.blob_md5_checked, r.blob_md5_passed, r.cross_rank_only),
        (2, 1, 1)
    );
    assert_eq!(
        r.line("0.10"),
        "[verify] 4 files T=0.10s: 1 cross-rank-OK, 2 blob-md5-checked (1 pass), 2 mismatches"
    );
    assert_eq!(r.result().unwrap_err(), "2 verification failure(s)");
    let clean = verify_digests(&vec![entries[0].clone()], &good.to_vec(), 1);
    assert!(clean.result().is_ok());
}

#[test]
fn downloads_are_told() {
    let c = download_config(&args(), Some(9));
    assert_eq!((c.block_size, c.concurrency, c.parallel_files), (3, 2, 4));
    assert!(c.overwrite && c.recursive && !c.progress && !c.check_md5);
    assert_eq!(c.max_bandwidth_bytes_per_sec, Some(9));
    let mut s = TransferSummary {
        total_files: 5,
        total_bytes: 0,
        succeeded: 5,
        failed: 0,
        skipped: 0,
    };
    assert!(stage_result(&s).is_ok());
    s.failed = 2;
    assert_eq!(
        stage_result(&s).unwrap_err(),
        "download stage: 2 of 5 files failed"
    );
    let mut stats = RetryStats::default();
    stats.record_transport();
    assert_eq!(rank_summary(&stats).transport_err, 1);
    let total = RankRetrySummary {
        throttle_503: 842,
        throttle_429: 14,
        ..RankRetrySummary::default()
    };
    assert_eq!(
        cluster_retry_line(&total, 16).as_deref(),
        Some("[cluster] retries: 503x842 429x14 across 16 downloaders")
    );
    assert_eq!(cluster_retry_line(&RankRetrySummary::default(), 16), None);
}

#[test]
fn stages_are_told() {
    assert_eq!(list_line(3, 99, "0.10"), "[list] 3 files, 99 bytes T=0.10s");
    assert_eq!(diff_line(2, 1, "0.10"), "[diff] 2 to transfer, 1 skipped T=0.10s");
    assert_eq!(
        download_ranks_line(2, 5).as_deref(),
        Some("[shard] 2/5 ranks will download; remaining 3 ranks bcast-only")
    );
    assert_eq!(download_ranks_line(5, 5), None);
    assert_eq!(
        shard_size_line(64, 16).as_deref(),
        Some("[shard] range-sharding active: shard_size=64 bytes (4 chunks/shard)")
    );
    assert_eq!(shard_size_line(0, 16), None);
    assert_eq!(slice_line(1, 2, 30), "[shard] rank 1: 2 ranges, 30 bytes");
    assert_eq!(
        download_line(30, "1.00", "30 B/s"),
        "[download] 30 bytes T=1.00s BW=30 B/s"
    );
    assert_eq!(
        bcast_line(2, 30, "1.00", "30 B/s"),
        "[bcast] 2 files 30 bytes T=1.00s BW=30 B/s"
    );
    assert_eq!(
        filelist_line(Some(4), "0.00"),
        "[filelist] wrote 4 entries T=0.00s"
    );
    assert_eq!(
        filelist_line(None, "0.00"),
        "[filelist] skipped (no --save-filelist) T=0.00s"
    );
    assert_eq!(total_line("2.50"), "[total] T=2.50s");
}

#[test]
fn active_ports_are_found() {
    let port = |name: &str, state: &str, layer: &str| IbPort {
        name: name.to_string(),
        state: state.to_string(),
        link_layer: layer.to_string(),
    };
    let devices = vec![
        IbDevice {
            name: "mlx5_1".to_string(),
            ports: vec![
                port("2", "4: ACTIVE\n", "InfiniBand\n"),
                port("1", "4: ACTIVE\n", ""),
                port("3", "1: DOWN\n", "InfiniBand\n"),
            ],
        },
        IbDevice {
            name: "mlx5_0".to_string(),
            ports: vec![
                port("1", "4: Active", " infiniband "),
                port("2", "4: ACTIVE", "Ethernet"),
            ],
        },
    ];
    assert_eq!(
        active_ib_ports(&devices),
        vec!["mlx5_0:1", "mlx5_1:1", "mlx5_1:2"]
    );
}

#[test]
fn transport_is_told() {
    assert_eq!(variables()[3], "UCX_TLS");
    assert_eq!(
        variable_line("UCX_TLS", &Some("rc".to_string())),
        "[transport]   UCX_TLS=rc"
    );
    assert_eq!(variable_line("UCX_TLS", &None), "[transport]   UCX_TLS=(unset)");
    assert_eq!(
        components_line("MCA pml: ucx ---\nMCA pml: ob1\nMCA pml: v ---x\n").as_deref(),
        Some("[transport] ompi_info pml components: 2")
    );
    assert_eq!(components_line("nothing"), None);
    assert_eq!(
        device_lines(&Some(
            "# Memory domain: mlx5_0\n#   Component: ib\n#      Transport: rc  \n".to_string()
        )),
        vec![
            "[transport] ucx_info -d (2 entries):",
            "[transport]   # Memory domain: mlx5_0",
            "[transport]   #      Transport: rc",
        ]
    );
    assert_eq!(
        device_lines(&None),
        vec!["[transport] ucx_info not available"]
    );
    let many: String = (0..50).map(|i| format!("Transport: {i}\n")).collect();
    assert_eq!(device_lines(&Some(many)).len(), 41);
}

#[test]
fn ranks_get_about_the_same() {
    let items: Vec<BlobItem> = [70, 5, 33, 33, 90, 12, 1, 64, 28, 41]
        .into_iter()
        .enumerate()
        .map(|(i, size)| blob(&format!("f{i}"), size))
        .collect();
    let plan = compute_shards(&items, 3, 25);
    let bytes = |r: usize| -> u64 {
        let mine = plan.iter().filter(|s| s.owner_rank == r);
        mine.map(|s| s.byte_len).sum()
    };
    let all = [bytes(0), bytes(1), bytes(2)];
    assert_eq!(all.iter().sum::<u64>(), 377);
    assert!(all.iter().max().unwrap() - all.iter().min().unwrap() <= 25);
}
