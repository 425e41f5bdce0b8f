//! `azcp sync` over a store in memory: what a run plans, transfers and deletes.
use azcp::cli::args::CompareMethod;
use azcp::cli::sync_cmd::{
    download_preflight, local_index, md5_preflight, sync_footer, RemoteIndex,
};
use azcp::cli::sync_plan::{download_verdicts, local_places, sort_verdicts, upload_verdicts};
use azcp::encoding::{hashed_text, Hasher};
use azcp::engine::globs::Filter;
use azcp::engine::transfer::{plan_download, plan_upload, would_upload};
use azcp::engine::{filter_blobs, select_uploads};
use azcp::storage::local::{LocalEntry, Timestamp};
use azcp::{BlobItem, BlobProperties};

const PREFIX: &str = "azcp-it/run";
const BLOCK_SIZE: u64 = 16 * 1024 * 1024;

#[derive(Clone)]
struct LocalFile {
    name: String,
    contents: Vec<u8>,
    secs: i64,
}

#[derive(Clone, Copy)]
struct Options<'a> {
    method: CompareMethod,
    delete: bool,
    dry_run: bool,
    include_pattern: Option<&'a str>,
    exclude_pattern: Option<&'a str>,
}

const DEFAULTS: Options<'static> = Options {
    method: CompareMethod::SizeAndMtime,
    delete: false,
    dry_run: false,
    include_pattern: None,
    exclude_pattern: None,
};

fn write_file(dir: &mut Vec<LocalFile>, name: &str, contents: &[u8]) {
    dir.retain(|f| f.name != name);
    dir.push(LocalFile {
        name: name.to_string(),
        contents: contents.to_vec(),
        secs: 100,
    });
}

fn make_fixture() -> Vec<LocalFile> {
    let mut dir = Vec::new();
    write_file(&mut dir, "a.txt", b"hello\n");
    write_file(&mut dir, "b.txt", b"world\n");
    write_file(&mut dir, "sub/c.txt", b"nested\n");
    dir
}

fn walk(dir: &[LocalFile]) -> Vec<LocalEntry> {
    dir.iter()
        .enumerate()
        .map(|(i, f)| LocalEntry {
            path_id: i,
            relative_path: f.name.clone(),
            size: f.contents.len() as u64,
            modified: Some(Timestamp {
                secs: f.secs,
                nanos: 5,
            }),
        })
        .collect()
}

fn digest_text(contents: &[u8]) -> String {
    let mut hasher = Hasher::new();
    for piece in contents.chunks(4) {
        hasher.update(piece);
    }
    hashed_text(hasher)
}

fn stored(name: &str, contents: &[u8]) -> BlobItem {
    BlobItem {
        name: name.to_string(),
        properties: Some(BlobProperties {
            last_modified: Some("Thu, 01 Jan 1970 00:03:20 GMT".to_string()),
            content_length: Some(contents.len() as u64),
            content_type: None,
            content_md5: Some(digest_text(contents)),
            etag: None,
            blob_type: None,
            access_tier: None,
        }),
    }
}

fn sync_up(dir: &[LocalFile], store: &mut Vec<BlobItem>, o: Options) -> String {
    let filter = Filter::new(o.include_pattern, o.exclude_pattern).unwrap();
    let files = select_uploads(&filter, None, walk(dir));
    let remote_blobs = filter_blobs(&filter, PREFIX, store.clone());
    let remote = RemoteIndex::remote_index(&remote_blobs, PREFIX);
    if matches!(o.method, CompareMethod::Md5) {
        md5_preflight(&remote).unwrap();
    }
    let mut digests: Vec<Option<String>> = vec![None; files.len()];
    let first = sort_verdicts(&upload_verdicts(o.method, &files, &remote, &digests));
    for i in first.digests {
        digests[i] = Some(digest_text(&dir[files[i].path_id].contents));
    }
    let plan = sort_verdicts(&upload_verdicts(o.method, &files, &remote, &digests));
    assert!(plan.digests.is_empty());
    let mut out = String::new();
    for &i in &plan.transfers {
        let name = plan_upload(PREFIX, &files[i], BLOCK_SIZE).blob_path;
        if o.dry_run {
            out.push_str(&would_upload(&files[i].relative_path));
            out.push('\n');
        } else {
            store.retain(|b| b.name != name);
            store.push(stored(&name, &dir[files[i].path_id].contents));
        }
    }
    if o.delete {
        for name in remote.stale_blobs(&local_index(&walk(dir)), PREFIX) {
            if o.dry_run {
                out.push_str(&format!("[dry-run] delete remote: {name}\n"));
            } else {
                store.retain(|b| b.name != name);
            }
        }
    }
    let planned = plan.transfers.len() as u64;
    out.push_str(&sync_footer(planned, planned, "uploaded", plan.unchanged));
    out
}

fn sync_down(store: &[BlobItem], dir: &mut Vec<LocalFile>, o: Options) -> String {
    let filter = Filter::new(o.include_pattern, o.exclude_pattern).unwrap();
    let blobs = filter_blobs(&filter, PREFIX, store.to_vec());
    let files = select_uploads(&filter, None, walk(dir));
    if matches!(o.method, CompareMethod::Md5) {
        download_preflight(&blobs).unwrap();
    }
    let places = local_places(&blobs, PREFIX, &local_index(&files));
    let mut digests: Vec<Option<String>> = vec![None; blobs.len()];
    let first = download_verdicts(o.method, &blobs, &files, &places, &digests);
    for i in sort_verdicts(&first).digests {
        let file = &files[places[i].unwrap()];
        digests[i] = Some(digest_text(&dir[file.path_id].contents));
    }
    let verdicts = download_verdicts(o.method, &blobs, &files, &places, &digests);
    let plan = sort_verdicts(&verdicts);
    assert!(plan.digests.is_empty());
    for &i in &plan.transfers {
        let d = plan_download(PREFIX, &blobs[i], false, BLOCK_SIZE);
        dir.retain(|f| f.name != d.local_path);
        dir.push(LocalFile {
            name: d.local_path,
            contents: vec![0; d.size as usize],
            secs: 300,
        });
    }
    let planned = plan.transfers.len() as u64;
    sync_footer(planned, planned, "downloaded", plan.unchanged)
}

fn parse_summary(out: &str) -> (u64, u64, u64) {
    let line = out
        .lines()
        .rev()
        .find(|l| l.contains("Sync complete:"))
        .unwrap();
    let numbers: Vec<u64> = line
        .split(' ')
        .filter_map(|word| word.parse().ok())
        .collect();
    (numbers[0], numbers[1], numbers[2])
}

#[test]
fn sync_upload_then_rerun_skips() {
    let src = make_fixture();
    let mut store = Vec::new();

    let out = sync_up(&src, &mut store, DEFAULTS);
    let (planned, uploaded, _) = parse_summary(&out);
    assert_eq!(planned, 3, "initial: {out}");
    assert_eq!(uploaded, 3, "initial: {out}");

    let out = sync_up(&src, &mut store, DEFAULTS);
    let (planned, uploaded, unchanged) = parse_summary(&out);
    assert_eq!(planned, 0, "rerun: {out}");
    assert_eq!(uploaded, 0, "rerun: {out}");
    assert_eq!(unchanged, 3, "rerun: {out}");
}

#[test]
fn compare_method_size_misses_same_size_change() {
    let mut src = make_fixture();
    let mut store = Vec::new();

    sync_up(&src, &mut store, DEFAULTS);
    write_file(&mut src, "a.txt", b"HELLO\n");

    let size = Options {
        method: CompareMethod::Size,
        dry_run: true,
        ..DEFAULTS
    };
    let out = sync_up(&src, &mut store, size);
    let (planned, _, unchanged) = parse_summary(&out);
    assert_eq!(
        planned, 0,
        "size mode should miss content-only change: {out}"
    );
    assert_eq!(unchanged, 3, "{out}");
}

#[test]
fn compare_method_md5_detects_same_size_change() {
    let mut src = make_fixture();
    let mut store = Vec::new();

    sync_up(&src, &mut store, DEFAULTS);
    write_file(&mut src, "a.txt", b"HELLO\n");

    let md5 = Options {
        method: CompareMethod::Md5,
        dry_run: true,
        ..DEFAULTS
    };
    let out = sync_up(&src, &mut store, md5);
    let (planned, _, unchanged) = parse_summary(&out);
    assert_eq!(planned, 1, "md5 mode should catch content change: {out}");
    assert_eq!(unchanged, 2, "{out}");
    assert!(
        out.contains("a.txt"),
        "expected a.txt in dry-run list: {out}"
    );
}

#[test]
fn compare_method_always_reuploads_everything() {
    let src = make_fixture();
    let mut store = Vec::new();

    sync_up(&src, &mut store, DEFAULTS);

    let always = Options {
        method: CompareMethod::Always,
        dry_run: true,
        ..DEFAULTS
    };
    let out = sync_up(&src, &mut store, always);
    let (planned, _, unchanged) = parse_summary(&out);
    assert_eq!(planned, 3, "{out}");
    assert_eq!(unchanged, 0, "{out}");
}

#[test]
fn delete_destination_removes_missing_remote() {
    let mut src = make_fixture();
    let mut store = Vec::new();

    sync_up(&src, &mut store, DEFAULTS);
    src.retain(|f| f.name != "b.txt");

    let delete = Options {
        delete: true,
        ..DEFAULTS
    };
    let dry_run = Options {
        dry_run: true,
        ..delete
    };
    let out = sync_up(&src, &mut store, dry_run);
    assert!(
        out.contains("delete remote") && out.contains("b.txt"),
        "expected b.txt delete plan: {out}"
    );

    sync_up(&src, &mut store, delete);
    assert_eq!(store.len(), 2);

    let out = sync_up(&src, &mut store, DEFAULTS);
    let (planned, _, unchanged) = parse_summary(&out);
    assert_eq!(planned, 0, "{out}");
    assert_eq!(unchanged, 2, "{out}");
}

#[test]
fn download_direction_blob_to_local() {
    let src = make_fixture();
    let mut store = Vec::new();

    sync_up(&src, &mut store, DEFAULTS);

    let mut dl = Vec::new();
    let out = sync_down(&store, &mut dl, DEFAULTS);
    let (planned, downloaded, _) = parse_summary(&out);
    assert_eq!(planned, 3, "{out}");
    assert_eq!(downloaded, 3, "{out}");

    for name in ["a.txt", "b.txt", "sub/c.txt"] {
        assert!(dl.iter().any(|f| f.name == name));
    }

    let out = sync_down(&store, &mut dl, DEFAULTS);
    let (planned, downloaded, unchanged) = parse_summary(&out);
    assert_eq!(planned, 0, "{out}");
    assert_eq!(downloaded, 0, "{out}");
    assert_eq!(unchanged, 3, "{out}");
}

#[test]
fn include_and_exclude_patterns_filter() {
    let src = make_fixture();
    let mut store = Vec::new();
    let always = Options {
        method: CompareMethod::Always,
        dry_run: true,
        ..DEFAULTS
    };

    let only_text = Options {
        include_pattern: Some("*.txt"),
        ..always
    };
    let out = sync_up(&src, &mut store, only_text);
    let (planned, _, _) = parse_summary(&out);
    assert_eq!(planned, 3, "include *.txt: {out}");

    let not_below = Options {
        exclude_pattern: Some("sub/*"),
        ..always
    };
    let out = sync_up(&src, &mut store, not_below);
    let (planned, _, _) = parse_summary(&out);
    assert_eq!(planned, 2, "exclude sub/*: {out}");
    assert!(
        !out.contains("sub/c.txt"),
        "sub/c.txt should be excluded: {out}"
    );
}
