use azcp::storage::blob::client::{
    backoff_ms, blob_info, build_commit_headers, build_upload_headers, is_already_exists,
    is_retryable_status, is_retryable_transport_err, outcome, parse_error, retry_delay_ms, Attempts,
    BlobHeaders, BlobListing, ContainerListing, LatencyStats, Method, Operation, RetryStats,
    TransportFailure,
};
use azcp::storage::blob::headers::header_text;
use azcp::storage::blob::models::{
    build_block_list_xml, BlobList, BlobListResponse, BlobOrPrefix, BlobPrefix, BlockListEntry,
    ContainerItem, ContainerList, ContainerListResponse, StorageError, UploadOptions,
};
use azcp::{AzcpError, BlobClient, BlobItem, Credential};

const MD5: [u8; 16] = [
    93, 65, 64, 42, 188, 75, 42, 118, 185, 113, 157, 145, 16, 23, 197, 146,
];

fn blob(name: &str) -> BlobItem {
    BlobItem {
        name: name.to_string(),
        properties: None,
    }
}

#[test]
fn retries_are_counted_by_cause() {
    let mut s = RetryStats::default();
    assert_eq!(s.total(), 0);
    s.record_status(503);
    s.record_status(503);
    s.record_status(429);
    s.record_status(500);
    s.record_transport();
    assert_eq!(
        (s.throttle_503, s.throttle_429, s.server_5xx, s.transport_err),
        (2, 1, 1, 1)
    );
    assert_eq!(s.total(), 5);
}

#[test]
fn latencies_fall_into_buckets() {
    let mut l = LatencyStats::default();
    assert_eq!(l.percentile_ms(1), 0);
    for us in [500, 999, 1_000, 1_999, 2_000, 4_000, 30_000_000] {
        l.record(us, 10);
    }
    assert_eq!(l.count, 7);
    assert_eq!(l.bytes, 70);
    assert_eq!(l.min_us, 500);
    assert_eq!(l.max_us, 30_000_000);
    assert_eq!(l.sum_us, 30_010_498);
    assert_eq!(l.bucket_total(), 7);
    assert_eq!(l.buckets[0], 3);
    assert_eq!(l.buckets[1], 2);
    assert_eq!(l.buckets[2], 1);
    assert_eq!(l.buckets[3], 0);
    assert_eq!(l.buckets[15], 1);
    assert_eq!(l.percentile_ms(3), 1);
    assert_eq!(l.percentile_ms(5), 2);
    assert_eq!(l.percentile_ms(6), 4);
    assert_eq!(l.percentile_ms(7), 32_768);
    assert_eq!(l.percentile_ms(8), u64::MAX);
}

#[test]
fn bucket_ends_belong_to_their_buckets() {
    let mut l = LatencyStats::default();
    l.record(1000, 0);
    l.record(2000, 0);
    assert_eq!(l.buckets[..3], [1, 1, 0]);
    l.record(0, 0);
    l.record(1001, 0);
    l.record(2001, 0);
    assert_eq!(l.buckets[..3], [2, 2, 1]);
    l.record(16_384_000, 0);
    l.record(16_384_001, 0);
    assert_eq!(l.buckets[14..], [1, 1]);
    assert_eq!(l.bucket_total(), l.count);
}

#[test]
fn records_can_come_in_any_order() {
    let calls = [(5_000, 1), (70, 2), (5_000, 3), (9_999_999, 4)];
    let (mut a, mut b) = (LatencyStats::default(), LatencyStats::default());
    for (us, bytes) in calls {
        a.record(us, bytes);
    }
    for (us, bytes) in calls.into_iter().rev() {
        b.record(us, bytes);
    }
    assert_eq!((a.count, a.sum_us, a.bytes), (4, 10_010_069, 10));
    assert_eq!((a.min_us, a.max_us), (70, 9_999_999));
    assert_eq!((b.count, b.sum_us, b.bytes), (a.count, a.sum_us, a.bytes));
    assert_eq!((b.min_us, b.max_us), (a.min_us, a.max_us));
    assert_eq!(a.buckets, b.buckets);
}

#[test]
fn requests_have_their_addresses() {
    let r = BlobClient::create_container("acct", "ctr").unwrap();
    assert_eq!(r.method, Method::Put);
    assert_eq!(
        r.url.text,
        "https://acct.blob.core.windows.net/ctr?restype=container"
    );
    let r = BlobClient::delete_container("acct", "ctr").unwrap();
    assert_eq!(r.method, Method::Delete);
    let r = BlobClient::put_block("acct", "ctr", "a/b", "MDAw+/==").unwrap();
    assert_eq!(
        r.url.text,
        "https://acct.blob.core.windows.net/ctr/a/b?comp=block&blockid=MDAw%2B%2F%3D%3D"
    );
    let r = BlobClient::get_blob_range("acct", "ctr", "b", 4096, 100).unwrap();
    assert_eq!(r.method, Method::Get);
    assert_eq!(r.extra[0].name, "x-ms-range");
    assert_eq!(r.extra[0].value, "bytes=4096-4195");
    let r = BlobClient::get_blob("acct", "ctr", "b").unwrap();
    assert!(r.extra.is_empty());
    let r = BlobClient::get_blob_properties("acct", "ctr", "b").unwrap();
    assert_eq!(r.method, Method::Head);
    let r = BlobClient::delete_blob("acct", "ctr", "b").unwrap();
    assert_eq!(
        (r.extra[0].name.as_str(), r.extra[0].value.as_str()),
        ("x-ms-delete-snapshots", "include")
    );
    assert!(matches!(
        BlobClient::get_blob("a b", "ctr", "b"),
        Err(AzcpError::InvalidUrl(_))
    ));
}

fn pairs(h: &[azcp::storage::blob::client::Header]) -> Vec<(&str, &str)> {
    h.iter()
        .map(|x| (x.name.as_str(), x.value.as_str()))
        .collect()
}

#[test]
fn uploads_say_what_they_are() {
    let over = UploadOptions::overwrite();
    assert_eq!(
        pairs(&build_upload_headers(&over)),
        vec![("x-ms-blob-type", "BlockBlob")]
    );
    let careful = UploadOptions {
        overwrite: false,
        content_md5: Some(MD5),
    };
    assert_eq!(
        pairs(&build_upload_headers(&careful)),
        vec![
            ("x-ms-blob-type", "BlockBlob"),
            ("if-none-match", "*"),
            ("content-md5", "XUFAKrxLKna5cZ2REBfFkg=="),
        ]
    );
    assert_eq!(
        pairs(&build_commit_headers(&careful, Some("text/plain"))),
        vec![
            ("if-none-match", "*"),
            ("x-ms-blob-content-md5", "XUFAKrxLKna5cZ2REBfFkg=="),
            ("x-ms-blob-content-type", "text/plain"),
        ]
    );
    assert_eq!(
        pairs(&build_commit_headers(&over, Some("a\nb"))),
        Vec::<(&str, &str)>::new()
    );
    let r = BlobClient::put_blob("acct", "ctr", "b", None, &UploadOptions::default()).unwrap();
    assert_eq!(r.content_type.as_deref(), Some("application/octet-stream"));
}

#[test]
fn blocks_are_committed_in_order() {
    let blocks = [
        BlockListEntry {
            id: "MDAwMDAw".to_string(),
        },
        BlockListEntry {
            id: "MDAwMDAx".to_string(),
        },
    ];
    let xml = "<?xml version=\"1.0\" encoding=\"utf-8\"?>\n<BlockList>\n  <Latest>MDAwMDAw</Latest>\n  <Latest>MDAwMDAx</Latest>\n</BlockList>";
    assert_eq!(build_block_list_xml(&blocks), xml);
    let (r, body) =
        BlobClient::put_block_list("a", "c", "b", &blocks, None, &UploadOptions::overwrite())
            .unwrap();
    assert_eq!(body, xml);
    assert_eq!(r.content_type.as_deref(), Some("application/xml"));
    assert_eq!(
        r.url.text,
        "https://a.blob.core.windows.net/c/b?comp=blocklist"
    );
}

#[test]
fn listings_are_read_page_by_page() {
    let mut l = BlobListing::new("acct", "ctr", Some("a/b c"), false);
    assert_eq!(
        l.request().unwrap().url.text,
        "https://acct.blob.core.windows.net/ctr?restype=container&comp=list&prefix=a%2Fb%20c&delimiter=/"
    );
    let last = l.on_page(BlobListResponse {
        blobs: Some(BlobList {
            entries: vec![
                BlobOrPrefix::Blob(blob("x")),
                BlobOrPrefix::BlobPrefix(BlobPrefix {
                    name: "p/".to_string(),
                }),
                BlobOrPrefix::Blob(blob("y")),
            ],
        }),
        next_marker: Some("m1".to_string()),
    });
    assert!(!last);
    assert_eq!(
        l.request().unwrap().url.query.as_deref(),
        Some("restype=container&comp=list&prefix=a%2Fb%20c&delimiter=/&marker=m1")
    );
    assert!(l.on_page(BlobListResponse {
        blobs: None,
        next_marker: Some(String::new()),
    }));
    let names: Vec<&str> = l.blobs.iter().map(|b| b.name.as_str()).collect();
    assert_eq!(names, vec!["x", "y"]);
    assert_eq!(l.prefixes, vec!["p/".to_string()]);

    let mut c = ContainerListing::new("acct");
    assert_eq!(
        c.request().unwrap().url.text,
        "https://acct.blob.core.windows.net/?comp=list"
    );
    assert!(c.on_page(ContainerListResponse {
        containers: Some(ContainerList {
            items: vec![ContainerItem {
                name: "one".to_string(),
                properties: None,
            }],
        }),
        next_marker: None,
    }));
    assert_eq!(c.containers[0].name, "one");
}

#[test]
fn headers_carry_the_credential() {
    let r = BlobClient::get_blob_range("acct", "ctr", "b", 0, 1).unwrap();
    let mut h = BlobClient::unsigned_headers(&r, "Mon, 01 Jan 2024 00:00:00 GMT", Some(7));
    assert_eq!(h.len(), 4);
    assert_eq!(h["x-ms-date"], "Mon, 01 Jan 2024 00:00:00 GMT");
    assert_eq!(h["x-ms-version"], "2024-11-04");
    assert_eq!(h["content-length"], "7");
    assert_eq!(h["x-ms-range"], "bytes=0-0");
    let bearer = BlobClient::new(Credential::Bearer {
        token: "tok".to_string(),
    });
    assert_eq!(bearer.max_retries, 5);
    bearer.authorize(&mut h, "");
    assert_eq!(h["authorization"], "Bearer tok");
    let key = BlobClient::with_max_retries(
        Credential::SharedKey {
            account: "acct".to_string(),
            key: "k".to_string(),
        },
        2,
    );
    key.authorize(&mut h, "SharedKey acct:sig");
    assert_eq!(h["authorization"], "SharedKey acct:sig");
    assert_eq!(key.max_retries, 2);
    let mut r = BlobClient::get_blob("acct", "ctr", "b").unwrap();
    BlobClient::new(Credential::Anonymous).apply_sas(&mut r.url);
    assert_eq!(r.url.query, None);
    BlobClient::new(Credential::Sas {
        token: "sig=1".to_string(),
    })
    .apply_sas(&mut r.url);
    assert_eq!(r.url.query.as_deref(), Some("sig=1"));
    assert!(header_text("a\tb é"));
    assert!(!header_text("a\u{7f}"));
}

#[test]
fn statuses_mean_what_they_mean() {
    assert!(is_already_exists(409) && is_already_exists(412) && !is_already_exists(404));
    for s in [429, 500, 502, 503, 504] {
        assert!(is_retryable_status(s));
    }
    for s in [200, 400, 401, 403, 404, 409, 412, 501, 505] {
        assert!(!is_retryable_status(s));
    }
    let parsed = Some(StorageError {
        code: "Busy".to_string(),
        message: "later".to_string(),
    });
    assert_eq!(
        parse_error(503, &parsed, "").message(),
        "Azure Storage (503): Busy: later"
    );
    let long = "é".repeat(300);
    assert_eq!(
        parse_error(400, &None, &long).message(),
        format!("Azure Storage (400): {}", "é".repeat(200))
    );
    assert!(outcome(Operation::CreateContainer, 409, "", &None, "").is_ok());
    assert!(outcome(Operation::CreateContainer, 200, "", &None, "x").is_err());
    assert!(outcome(Operation::Delete, 202, "", &None, "").is_ok());
    assert!(matches!(
        outcome(Operation::Upload, 412, "b", &None, ""),
        Err(AzcpError::AlreadyExists(p)) if p == "b"
    ));
    assert!(matches!(
        outcome(Operation::Plain, 409, "b", &None, "x"),
        Err(AzcpError::Storage { status: 409, message }) if message == "x"
    ));
}

#[test]
fn blob_headers_are_read() {
    let h = BlobHeaders {
        content_length: Some("42".to_string()),
        content_type: None,
        last_modified: Some("now".to_string()),
        etag: None,
        content_md5: Some("m".to_string()),
    };
    let i = blob_info(200, "b", &h).unwrap();
    assert_eq!(i.content_length, 42);
    assert_eq!(i.content_type, "application/octet-stream");
    assert_eq!(i.last_modified.as_deref(), Some("now"));
    assert_eq!(i.content_md5.as_deref(), Some("m"));
    assert_eq!(
        blob_info(404, "b", &h).unwrap_err().message(),
        "Azure Storage (404): HEAD b failed"
    );
    let odd = BlobHeaders {
        content_length: Some("x".to_string()),
        content_type: Some("text/css".to_string()),
        last_modified: None,
        etag: None,
        content_md5: None,
    };
    let i = blob_info(206, "b", &odd).unwrap();
    assert_eq!((i.content_length, i.content_type.as_str()), (0, "text/css"));
}

#[test]
fn waits_grow_and_are_bounded() {
    assert_eq!(backoff_ms(1, 0), 375);
    assert_eq!(backoff_ms(1, 125), 500);
    assert_eq!(backoff_ms(1, 250), 625);
    assert_eq!(backoff_ms(1, 251), 375);
    assert_eq!(backoff_ms(2, 250), 1_000);
    assert_eq!(backoff_ms(6, 4_000), 16_000);
    assert_eq!(backoff_ms(7, 7_500), 30_000);
    assert_eq!(backoff_ms(u32::MAX, 15_000), 37_500);
    assert_eq!(retry_delay_ms(Some("3"), 1, 0), 3_000);
    assert_eq!(retry_delay_ms(Some("61"), 1, 0), 60_000);
    assert_eq!(retry_delay_ms(Some("3"), 0, 0), 3_000);
    assert_eq!(retry_delay_ms(Some("soon"), 1, 0), 375);
    assert_eq!(retry_delay_ms(None, 2, 0), 750);
}

#[test]
fn attempts_end() {
    let mut stats = RetryStats::default();
    let mut a = Attempts::first(2);
    assert_eq!(a.on_status(&mut stats, 503, Some("1"), 0), Some(1_000));
    assert_eq!(a.on_status(&mut stats, 404, None, 0), None);
    let failure = TransportFailure {
        timeout: true,
        connect: false,
        request: false,
        body: false,
    };
    assert!(is_retryable_transport_err(failure));
    assert_eq!(a.on_transport(&mut stats, failure, 0), Some(750));
    assert_eq!(a.on_status(&mut stats, 503, None, 0), None);
    assert_eq!(a.on_transport(&mut stats, failure, 0), None);
    assert_eq!((stats.throttle_503, stats.transport_err), (1, 1));
    assert_eq!(Attempts::first(u32::MAX).max_attempts, u32::MAX);
    assert_eq!(Attempts::first(0).on_status(&mut stats, 500, None, 0), None);
    let build = TransportFailure {
        timeout: false,
        connect: false,
        request: false,
        body: false,
    };
    assert_eq!(Attempts::first(5).on_transport(&mut stats, build, 0), None);
}
