use azcp::cluster::filelist::{deserialize, serialize};
use azcp::cluster::paths::{is_directory_marker, local_rel};
use azcp::cluster::stages::list::drop_implicit_directories;
use azcp::{BlobItem, BlobProperties};

fn item(name: &str, size: u64, lm: Option<&str>) -> BlobItem {
    BlobItem {
        name: name.to_string(),
        properties: Some(BlobProperties {
            last_modified: lm.map(str::to_string),
            content_length: Some(size),
            content_type: None,
            content_md5: None,
            etag: None,
            blob_type: None,
            access_tier: None,
        }),
    }
}

fn bi(name: &str) -> BlobItem {
    BlobItem {
        name: name.into(),
        properties: None,
    }
}

#[test]
fn roundtrip() {
    let original = vec![
        item("a/b.bin", 1024, Some("2024-01-01T00:00:00Z")),
        item("c.txt", 0, None),
    ];
    let text = serialize(&original);
    let back = deserialize(&text);
    assert_eq!(back.len(), 2);
    assert_eq!(back[0].name, "a/b.bin");
    assert_eq!(
        back[0].properties.as_ref().unwrap().content_length,
        Some(1024)
    );
    assert_eq!(
        back[0]
            .properties
            .as_ref()
            .unwrap()
            .last_modified
            .as_deref(),
        Some("2024-01-01T00:00:00Z")
    );
    assert_eq!(back[1].name, "c.txt");
    assert_eq!(back[1].properties.as_ref().unwrap().last_modified, None);
}

#[test]
fn skips_blank_and_comment_lines() {
    let text = "# header\n\nfoo\t10\t-\n";
    let entries = deserialize(text);
    assert_eq!(entries.len(), 1);
    assert_eq!(entries[0].name, "foo");
}

#[test]
fn strips_path_prefix() {
    let s = "https://acct.blob.core.windows.net/ctr/models/llama/";
    assert_eq!(local_rel(s, "models/llama/file.bin"), "file.bin");
    assert_eq!(
        local_rel(s, "models/llama/.cache/h/.gitignore"),
        ".cache/h/.gitignore"
    );
}

#[test]
fn no_prefix_returns_name_unchanged() {
    let s = "https://acct.blob.core.windows.net/ctr/";
    assert_eq!(local_rel(s, "file.bin"), "file.bin");
    assert_eq!(local_rel(s, "/file.bin"), "file.bin");
}

#[test]
fn name_not_under_prefix_falls_back() {
    let s = "https://acct.blob.core.windows.net/ctr/prefix/";
    assert_eq!(local_rel(s, "other/file.bin"), "other/file.bin");
}

#[test]
fn local_source_yields_raw_trimmed_name() {
    assert_eq!(local_rel("/some/local/path", "a/b.bin"), "a/b.bin");
    assert_eq!(local_rel("/some/local/path", "/a/b.bin"), "a/b.bin");
}

#[test]
fn directory_marker_detection() {
    let s = "https://acct.blob.core.windows.net/ctr/models/llama/";
    assert!(is_directory_marker(s, "models/llama/"));
    assert!(is_directory_marker(s, "models/llama/sub/"));
    assert!(!is_directory_marker(s, "models/llama/file.bin"));
    assert!(!is_directory_marker(s, "models/llama"));
    assert!(!is_directory_marker(
        "https://acct.blob.core.windows.net/ctr/",
        "file.bin"
    ));
}

#[test]
fn drops_blob_whose_name_is_parent_of_another() {
    let entries = vec![
        bi("step/model_ema"),
        bi("step/model_ema/file.bin"),
        bi("step/model_ema/sub/leaf.bin"),
        bi("step/model"),
        bi("step/model/weights.bin"),
        bi("step/keep.txt"),
    ];
    let names: Vec<String> = drop_implicit_directories(entries)
        .into_iter()
        .map(|e| e.name)
        .collect();
    assert_eq!(
        names,
        vec![
            "step/model_ema/file.bin",
            "step/model_ema/sub/leaf.bin",
            "step/model/weights.bin",
            "step/keep.txt",
        ]
    );
}

#[test]
fn keeps_all_when_no_parent_collisions() {
    let entries = vec![bi("a/b.bin"), bi("a/c.bin"), bi("d.bin")];
    let kept = drop_implicit_directories(entries);
    assert_eq!(kept.len(), 3);
}
