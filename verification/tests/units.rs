use azcp::cli::args::{parse_bandwidth, parse_shard, resolve_progress};
use azcp::units::parse_size;

#[test]
fn accepts_human_units() {
    assert_eq!(parse_size("16MiB").unwrap(), 16 * 1024 * 1024);
    assert_eq!(parse_size("1GiB").unwrap(), 1024 * 1024 * 1024);
    assert_eq!(parse_size("16777216").unwrap(), 16 * 1024 * 1024);
    assert_eq!(parse_size("16MB").unwrap(), 16_000_000);
    assert_eq!(parse_size("1GB").unwrap(), 1_000_000_000);
    assert_eq!(parse_size("32G").unwrap(), 32_000_000_000);
    assert_eq!(parse_size("32Gi").unwrap(), 32 * 1024 * 1024 * 1024);
}

#[test]
fn rejects_garbage() {
    assert!(parse_size("16XYZ").is_err());
    assert!(parse_size("").is_err());
    assert!(parse_size("abc").is_err());
    assert!(parse_size("-1MiB").is_err());
}

#[test]
fn bandwidth_bit_units() {
    assert_eq!(parse_bandwidth("8bps").unwrap(), 1);
    assert_eq!(parse_bandwidth("1Kbps").unwrap(), 125);
    assert_eq!(parse_bandwidth("1Mbps").unwrap(), 125_000);
    assert_eq!(parse_bandwidth("1Gbps").unwrap(), 125_000_000);
    assert_eq!(parse_bandwidth("50Gbps").unwrap(), 6_250_000_000);
    assert_eq!(parse_bandwidth("200Mbps").unwrap(), 25_000_000);
}

#[test]
fn bandwidth_byte_units_decimal() {
    assert_eq!(parse_bandwidth("1KB/s").unwrap(), 1_000);
    assert_eq!(parse_bandwidth("1MB/s").unwrap(), 1_000_000);
    assert_eq!(parse_bandwidth("1GB/s").unwrap(), 1_000_000_000);
    assert_eq!(parse_bandwidth("500MB/s").unwrap(), 500_000_000);
}

#[test]
fn bandwidth_byte_units_binary() {
    assert_eq!(parse_bandwidth("1KiB/s").unwrap(), 1024);
    assert_eq!(parse_bandwidth("1MiB/s").unwrap(), 1024 * 1024);
    assert_eq!(parse_bandwidth("500MiB/s").unwrap(), 500 * 1024 * 1024);
    assert_eq!(parse_bandwidth("1GiB/s").unwrap(), 1024 * 1024 * 1024);
}

#[test]
fn bandwidth_bare_bytes() {
    assert_eq!(parse_bandwidth("12345").unwrap(), 12345);
    assert_eq!(parse_bandwidth("1000000").unwrap(), 1_000_000);
}

#[test]
fn bandwidth_case_insensitive() {
    assert_eq!(parse_bandwidth("50gbps").unwrap(), 6_250_000_000);
    assert_eq!(parse_bandwidth("1gib/s").unwrap(), 1024 * 1024 * 1024);
}

#[test]
fn bandwidth_rejects_garbage() {
    assert!(parse_bandwidth("").is_err());
    assert!(parse_bandwidth("nope").is_err());
    assert!(parse_bandwidth("100xyz").is_err());
    assert!(parse_bandwidth("-5Gbps").is_err());
    assert!(parse_bandwidth("0.0001bps").is_err());
}

#[test]
fn sizes_round_as_doubles_do() {
    let cases: [(&str, u64); 22] = [
        ("1.5GiB", 1_610_612_736),
        ("0.5KB", 500),
        ("1.0005KB", 1001),
        ("2.5", 3),
        ("0.5", 1),
        ("1.4999", 1),
        ("0.1GB", 100_000_000),
        ("0.3TiB", 329_853_488_333),
        ("123456789.987654321kb", 123_456_789_988),
        ("18446744073709551615", u64::MAX),
        ("18446744073709551616", u64::MAX),
        ("9007199254740993", 9_007_199_254_740_992),
        ("99999999999999999999TiB", u64::MAX),
        (".5K", 500),
        ("5.M", 5_000_000),
        ("3.7Ti", 4_068_193_022_771),
        ("0.49999999999999994", 0),
        ("993908.158176kib", 1_017_761_954),
        ("611097.60816gib", 656_161_060_427_756),
        ("126478448.613013910gb", 126_478_448_613_013_904),
        ("876309003.732294821kb", 876_309_003_732),
        (" 16 MiB ", 16_777_216),
    ];
    for (text, bytes) in cases {
        assert_eq!(parse_size(text), Ok(bytes), "{text}");
    }
}

#[test]
fn sizes_agree_with_doubles() {
    for i in 0..200u64 {
        let n = (i * 7919 % 1000) as f64 + (i * 104_729 % 100_000) as f64 / 100_000.0;
        for (unit, factor) in [("", 1.0), ("KB", 1e3), ("GiB", 1_073_741_824.0), ("TB", 1e12)] {
            let text = format!("{n}{unit}");
            assert_eq!(parse_size(&text), Ok((n * factor).round() as u64), "{text}");
        }
    }
}

#[test]
fn sizes_say_what_is_wrong() {
    let error = |s: &str| parse_size(s).unwrap_err();
    assert_eq!(error("  "), "empty size value");
    assert_eq!(
        error("Abc"),
        "size must start with a number, got \"Abc\" (try e.g. 32GiB, 1GB, 16777216)"
    );
    assert_eq!(error("1.2.3MB"), "bad size number \"1.2.3\" in \"1.2.3MB\"");
    assert_eq!(error("."), "bad size number \".\" in \".\"");
    assert_eq!(
        error("16XYZ"),
        "unknown size unit \"xyz\" in \"16XYZ\" (try GiB, MiB, GB, MB)"
    );
    let huge = "9".repeat(400);
    assert_eq!(
        error(&huge),
        format!("size must be non-negative and finite, got \"{huge}\"")
    );
}

#[test]
fn size_case_does_not_matter() {
    for (a, b) in [("1gib", "1GIB"), ("2.5Mb", "2.5mB"), ("7KI", "7ki")] {
        assert_eq!(parse_size(a), parse_size(b));
    }
}

#[test]
fn whole_sizes_are_exact() {
    for n in [1u64, 999, 4096, 123_456_789, 8_388_607] {
        assert_eq!(parse_size(&format!("{n}")), Ok(n));
        assert_eq!(parse_size(&format!("{n}KiB")), Ok(n * 1024));
        assert_eq!(parse_size(&format!("{n}GB")), Ok(n * 1_000_000_000));
    }
}

#[test]
fn bandwidths_round_as_doubles_do() {
    for (text, bytes) in [
        ("2.5Gbps", 312_500_000),
        ("0.3Mbps", 37_500),
        ("12bps", 2),
        ("4bps", 1),
        ("1.1gb/s", 1_100_000_000),
        ("99.99mib/s", 104_847_114),
        ("0.004kbps", 1),
        ("7.77tbps", 971_250_000_000),
        ("1MB", 1_000_000),
        ("100/s", 100),
    ] {
        assert_eq!(parse_bandwidth(text), Ok(bytes), "{text}");
    }
}

#[test]
fn bandwidths_say_what_is_wrong() {
    let error = |s: &str| parse_bandwidth(s).unwrap_err();
    assert_eq!(error(""), "empty bandwidth value");
    assert_eq!(
        error("fast"),
        "bandwidth must start with a number, got \"fast\" (try e.g. 50Gbps, 1GB/s, 500MiB/s)"
    );
    assert_eq!(error("1..2Gbps"), "bad bandwidth number \"1..2\" in \"1..2Gbps\"");
    assert_eq!(
        error("1G/s"),
        "unknown bandwidth unit \"g\" in \"1G/s\" (try Gbps, Mbps, GB/s, MiB/s, GiB/s, ...)"
    );
    assert_eq!(error("3bps"), "bandwidth \"3bps\" rounds to 0 bytes/sec");
    let huge = format!("{}bps", "9".repeat(400));
    assert_eq!(
        error(&huge),
        format!("bandwidth must be positive and finite, got \"{huge}\"")
    );
}

#[test]
fn shards_are_read() {
    assert_eq!(parse_shard("0/4"), Ok((0, 4)));
    assert_eq!(parse_shard("3/4"), Ok((3, 4)));
    assert_eq!(parse_shard("+1/2"), Ok((1, 2)));
    let error = |s: &str| parse_shard(s).unwrap_err();
    assert_eq!(error("3"), "expected INDEX/COUNT, got \"3\"");
    assert_eq!(error("x/4"), "bad shard index \"x\"");
    assert_eq!(error("1/-2"), "bad shard count \"-2\"");
    assert_eq!(error("1/2/3"), "bad shard count \"2/3\"");
    assert_eq!(error("0/0"), "shard count must be >= 1");
    assert_eq!(error("4/4"), "shard index 4 must be < count 4");
}

#[test]
fn progress_is_resolved() {
    assert!(!resolve_progress(true, true, true));
    assert!(resolve_progress(true, false, false));
    assert!(resolve_progress(false, false, true));
    assert!(!resolve_progress(false, false, false));
}

#[test]
fn spelling_of_units_does_not_matter() {
    for s in ["50Gbps", "1.5MiB", "7", "3 kb", "0", "x", ""] {
        let p = |x: &str| parse_bandwidth(x).ok();
        assert_eq!(p(&format!("{s}/s")), p(s), "{s}");
        assert_eq!(p(&s.to_ascii_uppercase()), p(s), "{s}");
        assert_eq!(p(&s.to_ascii_lowercase()), p(s), "{s}");
        assert_eq!(p(&format!(" {s} ")), p(s), "{s}");
        let q = |x: &str| parse_size(x).ok();
        assert_eq!(q(&s.to_ascii_uppercase()), q(s), "{s}");
        assert_eq!(q(&format!("\t{s}\n")), q(s), "{s}");
    }
    for u in ["K", "M", "G", "T", "k"] {
        let size = |tail: &str| parse_size(&format!("32{u}{tail}")).unwrap();
        assert_eq!(size(""), size("B"));
        assert_eq!(size("i"), size("iB"));
        assert!(size("") < size("i"));
    }
    assert_eq!(parse_size("32G"), Ok(32_000_000_000));
    assert_eq!(parse_size("32Gi"), Ok(34_359_738_368));
}
