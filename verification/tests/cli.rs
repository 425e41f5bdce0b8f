use azcp::cli::args::{Cli, Command, CopyArgs, ListArgs};
use azcp::cli::copy::{
    check_summary, combine, copy_config, copy_route, downloads_tree, first_worker_error,
    missing_source, retry_line, single_blob_path, single_file_name, skipped_message, summary_lines,
    transferred_message, tree_prefix, upload_kind, worker_shard, CopyRoute, UploadKind, WorkerResult,
};
use azcp::cli::list::{
    blobs_report, containers_report, listing_prefix, local_message, pad_left, pad_right, size_text,
};
use azcp::cli::make::{make_message, make_step, MakeStep};
use azcp::cli::remove::{
    count_removals, dry_run_footer, remove_message, remove_step, RemoveStep,
};
use azcp::cli::{env_lines, env_variables};
use azcp::cluster::filelist::deserialize;
use azcp::engine::TransferSummary;
use azcp::storage::blob::client::RetryStats;
use azcp::storage::blob::models::{ContainerItem, ContainerProperties};
use azcp::{parse_location, AzcpError, BlobItem, BlobLocation, BlobProperties, Location};

fn args() -> CopyArgs {
    CopyArgs {
        source: "a".to_string(),
        destination: "b".to_string(),
        recursive: true,
        no_overwrite: true,
        block_size: 7,
        concurrency: 8,
        parallel_files: 9,
        max_retries: 3,
        dry_run: false,
        discard: true,
        check_md5: true,
        include_pattern: Some("*.x".to_string()),
        exclude_pattern: None,
        progress: false,
        no_progress: false,
        shard: Some((1, 2)),
        workers: 2,
        shardlist: None,
        max_bandwidth: Some(5),
    }
}

fn at(s: &str) -> Location {
    parse_location(s).unwrap()
}

fn place(s: &str) -> BlobLocation {
    match at(s) {
        Location::AzureBlob(b) => b,
        Location::Local(_) => panic!("local"),
    }
}

const CONTAINER: &str = "https://acct.blob.core.windows.net/ctr";

#[test]
fn copies_are_configured() {
    let c = copy_config(&args(), true);
    assert!(!c.overwrite && c.recursive && c.discard && c.check_md5 && c.progress);
    assert_eq!((c.block_size, c.concurrency, c.parallel_files), (7, 8, 9));
    assert_eq!(c.include_pattern.as_deref(), Some("*.x"));
    assert_eq!(c.shard, Some((1, 2)));
    assert_eq!(c.max_bandwidth_bytes_per_sec, Some(5));
    assert!(!copy_config(&args(), false).progress);
}

#[test]
fn copies_go_one_way() {
    let (local, blob) = (at("./x"), at(CONTAINER));
    assert!(matches!(copy_route(&local, &blob, false, false), CopyRoute::Upload));
    assert!(matches!(copy_route(&blob, &local, true, true), CopyRoute::Download));
    assert!(matches!(
        copy_route(&local, &blob, true, true),
        CopyRoute::Refused(AzcpError::Transfer(m)) if m == "--discard is only valid for downloads (blob -> local)"
    ));
    assert!(matches!(
        copy_route(&local, &blob, false, true),
        CopyRoute::Refused(AzcpError::Transfer(m)) if m == "--shardlist is only valid for downloads (blob -> local)"
    ));
    assert!(matches!(
        copy_route(&local, &local, false, true),
        CopyRoute::Refused(_)
    ));
    assert!(matches!(
        copy_route(&local, &local, false, false),
        CopyRoute::Unsupported(m) if m == "Local-to-local copy not supported. Use cp."
    ));
    assert!(matches!(
        copy_route(&blob, &blob, false, false),
        CopyRoute::Unsupported(m) if m == "Server-to-server copy not yet implemented."
    ));
}

#[test]
fn single_files_keep_their_names() {
    assert_eq!(upload_kind(true, false), UploadKind::Directory);
    assert_eq!(upload_kind(false, true), UploadKind::File);
    assert_eq!(upload_kind(false, false), UploadKind::Missing);
    assert_eq!(missing_source("x"), "Source not found: x");
    let whole = place(CONTAINER);
    let one = place(&format!("{CONTAINER}/d/b.bin"));
    let tree = place(&format!("{CONTAINER}/d/"));
    assert_eq!(single_blob_path(&whole, "f.txt"), "f.txt");
    assert_eq!(single_blob_path(&one, "f.txt"), "d/b.bin");
    assert!(downloads_tree(&whole, false) && downloads_tree(&tree, false));
    assert!(!downloads_tree(&one, false) && downloads_tree(&one, true));
    assert_eq!(tree_prefix(&whole), "");
    assert_eq!(tree_prefix(&tree), "d/");
    assert_eq!(tree_prefix(&one), "d/b.bin/");
    assert_eq!(single_file_name(&one), "b.bin");
    for (path, name) in [("a/b", "b"), ("a/./.", "a"), ("a//", "a"), ("a/..", "a/.."), (".", ".")] {
        let loc = BlobLocation {
            path: path.to_string(),
            ..place(CONTAINER)
        };
        assert_eq!(single_file_name(&loc), name);
    }
    assert_eq!(listing_prefix(&whole), None);
    assert_eq!(listing_prefix(&tree).as_deref(), Some("d/"));
    assert_eq!(
        transferred_message("f", 1536),
        "Transferred: f (1.50 KiB)"
    );
    assert_eq!(skipped_message("f"), "Skipped (already exists): f");
}

fn summary(n: [u64; 5]) -> TransferSummary {
    TransferSummary {
        total_files: n[0],
        total_bytes: n[1],
        succeeded: n[2],
        failed: n[3],
        skipped: n[4],
    }
}

#[test]
fn summaries_are_told() {
    let s = summary([10, 1024, 7, 2, 1]);
    assert_eq!(
        summary_lines("Upload", &s, "1.50", "0.00"),
        vec![
            "Upload complete: 10 files, 1 KiB in 1.50s = 0.00 Gbps".to_string(),
            "  Succeeded: 7".to_string(),
            "  Failed:    2".to_string(),
            "  Skipped:   1".to_string(),
        ]
    );
    assert_eq!(
        summary_lines("Download", &summary([1, 0, 1, 0, 0]), "0.01", "0.00").len(),
        2
    );
    assert_eq!(
        check_summary(&s).unwrap_err().message(),
        "Transfer failed: 2 file(s) failed to transfer"
    );
    assert!(check_summary(&summary([1, 0, 0, 0, 1])).is_ok());
    let mut r = RetryStats::default();
    assert_eq!(retry_line(&r), "  Retries:   none");
    r.record_status(429);
    assert_eq!(
        retry_line(&r),
        "  Retries:   503x0 429x1 5xxx0 transport-err x0"
    );
}

#[test]
fn workers_split_a_shard() {
    assert_eq!(worker_shard(None, 1, 4), (1, 4));
    assert_eq!(worker_shard(Some((2, 3)), 1, 4), (9, 12));
    let mut all: Vec<(usize, usize)> = Vec::new();
    for x in 0..3 {
        for i in 0..4 {
            all.push(worker_shard(Some((x, 3)), i, 4));
        }
    }
    all.sort();
    all.dedup();
    assert_eq!(all.len(), 12);
    assert!(all.iter().all(|s| s.1 == 12));
}

#[test]
fn workers_are_summed_up() {
    let results = vec![
        WorkerResult::Summary(summary([1, 2, 3, 4, 5])),
        WorkerResult::Nothing,
        WorkerResult::Panicked,
        WorkerResult::Summary(summary([10, 20, 30, 40, 50])),
        WorkerResult::Failed(AzcpError::Io("x".to_string())),
    ];
    let s = combine(&results);
    assert_eq!(
        (s.total_files, s.total_bytes, s.succeeded, s.failed, s.skipped),
        (11, 22, 33, 44, 55)
    );
    assert_eq!(
        first_worker_error(results).unwrap_err().message(),
        "Transfer failed: worker 2 panicked"
    );
    assert!(matches!(
        first_worker_error(vec![
            WorkerResult::Failed(AzcpError::Io("x".to_string())),
            WorkerResult::Panicked
        ]),
        Err(AzcpError::Io(_))
    ));
    assert!(first_worker_error(vec![WorkerResult::Nothing]).is_ok());
    let copy = |workers| Cli {
        command: Command::Copy(CopyArgs { workers, ..args() }),
        log_level: String::new(),
    };
    assert!(copy(2).uses_workers());
    assert!(!copy(1).uses_workers());
    let ls = Cli {
        command: Command::List(ListArgs {
            url: String::new(),
            recursive: false,
            machine_readable: false,
        }),
        log_level: String::new(),
    };
    assert!(!ls.uses_workers());
}

fn blob(name: &str, size: u64, modified: &str) -> BlobItem {
    BlobItem {
        name: name.to_string(),
        properties: Some(BlobProperties {
            last_modified: Some(modified.to_string()),
            content_length: Some(size),
            content_type: None,
            content_md5: None,
            etag: None,
            blob_type: None,
            access_tier: None,
        }),
    }
}

#[test]
fn machine_listings_are_file_lists() {
    let r = blobs_report(
        &vec!["d/".to_string()],
        &vec![blob("a b", 42, "Mon"), blob("c", 0, "Tue")],
        true,
    );
    assert_eq!(r.lines, vec!["d/\t-\tDIR", "a b\t42\tMon", "c\t0\tTue"]);
    assert!(r.footer_to_stderr);
    assert_eq!(r.footer, "1 dir(s), 2 blob(s), 42 B");
    let back = deserialize(&r.lines.join("\n"));
    assert_eq!(back.len(), 2);
    assert_eq!(back[0].name, "a b");
    assert_eq!(
        back[0].properties.as_ref().and_then(|p| p.content_length),
        Some(42)
    );
}

#[test]
fn listings_are_aligned() {
    let r = blobs_report(&vec!["d/".to_string()], &vec![blob("a", 2048, "Mon")], false);
    assert_eq!(r.lines[0], format!("  {:<60} {:>12}", "d/", "<DIR>"));
    assert_eq!(r.lines[1], format!("  {:<60} {:>12} Mon", "a", "2 KiB"));
    assert!(!r.footer_to_stderr);
    let items = vec![
        ContainerItem {
            name: "ctr".to_string(),
            properties: Some(ContainerProperties {
                last_modified: Some("Mon".to_string()),
                etag: None,
            }),
        },
        ContainerItem {
            name: "x".repeat(41),
            properties: None,
        },
    ];
    let r = containers_report(&items, false);
    assert_eq!(r.lines[0], format!("  {:<40} Mon", "ctr"));
    assert_eq!(r.lines[1], format!("  {} ", "x".repeat(41)));
    assert_eq!(r.footer, "2 container(s)");
    assert_eq!(containers_report(&items, true).lines[0], "ctr\tMon");
    assert_eq!(pad_right("é", 3), "é  ");
    assert_eq!(pad_left("é", 3), "  é");
    assert_eq!(pad_left("long", 3), "long");
    assert_eq!(local_message("x"), "Use system tools to list local path: x");
}

#[test]
fn removals_go_by_the_address() {
    assert_eq!(remove_step(&at("./x"), true), RemoveStep::Local);
    let account = at("https://acct.blob.core.windows.net/");
    assert_eq!(remove_step(&account, true), RemoveStep::Nothing);
    assert_eq!(remove_step(&at(CONTAINER), true), RemoveStep::Container);
    let path = at(&format!("{CONTAINER}/p"));
    assert_eq!(remove_step(&path, false), RemoveStep::Blob);
    assert_eq!(remove_step(&path, true), RemoveStep::Tree);
    assert_eq!(
        remove_message(RemoveStep::Local, "", "", false),
        "Use system tools to remove local files."
    );
    assert_eq!(
        remove_message(RemoveStep::Nothing, "", "", false),
        "Specify a container or blob to delete."
    );
    assert_eq!(
        remove_message(RemoveStep::Container, "c", "", true),
        "[dry-run] would delete container: c"
    );
    assert_eq!(
        remove_message(RemoveStep::Container, "c", "", false),
        "Deleted container: c"
    );
    assert_eq!(remove_message(RemoveStep::Blob, "c", "p", false), "Deleted: c/p");
    assert_eq!(
        remove_message(RemoveStep::Tree, "c", "p", true),
        "[dry-run] would delete: p"
    );
    assert_eq!(dry_run_footer(3), "3 blob(s) would be deleted");
    let t = count_removals(&vec![true, false, true]);
    assert_eq!(t.footer(), "2 blob(s) deleted, 1 failed");
    assert_eq!(
        t.result().unwrap_err().message(),
        "Transfer failed: 1 blob deletion(s) failed"
    );
    assert!(count_removals(&vec![true]).result().is_ok());
}

#[test]
fn containers_and_directories_are_made() {
    let account = at("https://acct.blob.core.windows.net/");
    assert_eq!(make_step(&account), MakeStep::NeedsContainer);
    assert_eq!(make_step(&at(CONTAINER)), MakeStep::Container);
    assert_eq!(make_step(&at("d")), MakeStep::Directory);
    assert_eq!(
        make_message(MakeStep::NeedsContainer, ""),
        "Container name required in URL."
    );
    assert_eq!(make_message(MakeStep::Container, "c"), "Created container: c");
    assert_eq!(make_message(MakeStep::Directory, "d"), "Created directory: d");
}

#[test]
fn environment_is_shown() {
    let v = env_variables();
    assert_eq!(v.len(), 5);
    assert_eq!(v[1].0, "AZURE_STORAGE_KEY");
    let (a, b) = env_lines("NAME", "what", &None);
    assert_eq!(a, format!("  {:<30} = (not set)", "NAME"));
    assert_eq!(b, format!("  {:<30}   what", ""));
    assert_eq!(
        env_lines("NAME", "what", &Some("x".to_string())).0,
        format!("  {:<30} = x", "NAME")
    );
}

#[test]
fn errors_have_texts() {
    let s = || "x".to_string();
    assert_eq!(AzcpError::Http(s()).message(), "HTTP request failed: x");
    assert_eq!(AzcpError::Io(s()).message(), "IO: x");
    assert_eq!(AzcpError::Auth(s()).message(), "Authentication failed: x");
    assert_eq!(AzcpError::Xml(s()).message(), "XML parse: x");
}

#[test]
fn sizes_are_shown_in_binary_units() {
    assert_eq!(size_text(0), "0 B");
    assert_eq!(size_text(1536), "1.50 KiB");
}
