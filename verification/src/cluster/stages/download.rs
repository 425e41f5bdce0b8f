//! What the download stage came to.
use crate::cluster::cli::Args;
use crate::config::TransferConfig;
use crate::engine::TransferSummary;
use crate::storage::blob::client::RetryStats;
use crate::text;
use crate::text::{decimal_text, join, owned};
use vstd::prelude::*;

verus! {

/// How often a rank retried, by cause.
#[derive(Debug, Clone, Copy)]
pub struct RankRetrySummary {
    pub throttle_503: u64,
    pub throttle_429: u64,
    pub server_5xx: u64,
    pub transport_err: u64,
}

impl Default for RankRetrySummary {
    fn default() -> (out: Self)
        ensures
            out == (RankRetrySummary {
                throttle_503: 0,
                throttle_429: 0,
                server_5xx: 0,
                transport_err: 0,
            }),
    {
        RankRetrySummary { throttle_503: 0, throttle_429: 0, server_5xx: 0, transport_err: 0 }
    }
}

/// The counters of a client, by value.
pub fn rank_summary(s: &RetryStats) -> (out: RankRetrySummary)
    ensures
        out == (RankRetrySummary {
            throttle_503: s.throttle_503,
            throttle_429: s.throttle_429,
            server_5xx: s.server_5xx,
            transport_err: s.transport_err,
        }),
{
    RankRetrySummary {
        throttle_503: s.throttle_503,
        throttle_429: s.throttle_429,
        server_5xx: s.server_5xx,
        transport_err: s.transport_err,
    }
}

/// How a rank downloads.
pub fn download_config(args: &Args, max_bandwidth: Option<u64>) -> (out: TransferConfig)
    ensures
        out == (TransferConfig {
            block_size: args.block_size as u64,
            concurrency: args.concurrency,
            parallel_files: args.parallel_files,
            dry_run: false,
            discard: false,
            overwrite: true,
            recursive: true,
            include_pattern: None,
            exclude_pattern: None,
            check_md5: false,
            progress: !args.no_progress,
            max_retries: args.max_retries,
            shard: None,
            shardlist: None,
            max_bandwidth_bytes_per_sec: max_bandwidth,
        }),
{
    TransferConfig {
        block_size: args.block_size as u64,
        concurrency: args.concurrency,
        parallel_files: args.parallel_files,
        dry_run: false,
        discard: false,
        overwrite: true,
        recursive: true,
        include_pattern: None,
        exclude_pattern: None,
        check_md5: false,
        progress: !args.no_progress,
        max_retries: args.max_retries,
        shard: None,
        shardlist: None,
        max_bandwidth_bytes_per_sec: max_bandwidth,
    }
}

/// What the stage of a rank ends with: an error where a file failed.
pub fn stage_result(s: &TransferSummary) -> (out: std::result::Result<(), String>)
    ensures
        match out {
            Ok(_) => s.failed == 0,
            Err(e) => s.failed > 0 && e@ == "download stage: "@ + text::decimal(s.failed as nat)
                + " of "@ + text::decimal(s.total_files as nat) + " files failed"@,
        },
{
    if s.failed == 0 {
        return Ok(());
    }
    let mut e = owned("download stage: ");
    e.append(decimal_text(s.failed).as_str());
    e.append(" of ");
    e.append(decimal_text(s.total_files).as_str());
    e.append(" files failed");
    Err(e)
}

pub open spec fn cause(label: Seq<char>, n: u64) -> Seq<Seq<char>> {
    if n > 0 {
        seq![label + text::decimal(n as nat)]
    } else {
        Seq::empty()
    }
}

/// The causes of retries that occurred.
pub open spec fn causes(s: RankRetrySummary) -> Seq<Seq<char>> {
    cause("503x"@, s.throttle_503) + cause("429x"@, s.throttle_429) + cause("5xxx"@, s.server_5xx)
        + cause("transport-errx"@, s.transport_err)
}

fn push_cause(parts: &mut Vec<String>, label: &str, n: u64)
    ensures
        text::views(final(parts)@) == text::views(old(parts)@) + cause(label@, n),
{
    let ghost before = parts@;
    if n > 0 {
        let mut part = owned(label);
        part.append(decimal_text(n).as_str());
        parts.push(part);
    }
    assert(text::views(parts@) =~= text::views(before) + cause(label@, n));
}

/// The line on the retries of the whole cluster; none where nobody retried. Only causes that
/// occurred are named.
pub fn cluster_retry_line(total: &RankRetrySummary, downloaders: usize) -> (out: Option<String>)
    ensures
        text::opt_view(out) == if causes(*total).len() == 0 {
            None
        } else {
            Some(
                "[cluster] retries: "@ + text::joined(causes(*total), " "@) + " across "@
                    + text::decimal(downloaders as nat) + " downloaders"@,
            )
        },
{
    let mut parts: Vec<String> = Vec::new();
    assert(text::views(parts@) =~= Seq::<Seq<char>>::empty());
    push_cause(&mut parts, "503x", total.throttle_503);
    push_cause(&mut parts, "429x", total.throttle_429);
    push_cause(&mut parts, "5xxx", total.server_5xx);
    push_cause(&mut parts, "transport-errx", total.transport_err);
    assert(text::views(parts@) =~= causes(*total));
    assert(parts@.len() == causes(*total).len());
    if parts.len() == 0 {
        return None;
    }
    let mut out = owned("[cluster] retries: ");
    out.append(join(&parts, " ").as_str());
    out.append(" across ");
    out.append(decimal_text(downloaders as u64).as_str());
    out.append(" downloaders");
    Some(out)
}

/// The line is there exactly where some rank retried.
pub proof fn law_retry_line_means_retries(s: RankRetrySummary)
    ensures
        causes(s).len() == 0 <==> s.throttle_503 == 0 && s.throttle_429 == 0 && s.server_5xx == 0
            && s.transport_err == 0,
{
}

/// A cause of retries is told exactly where it occurred, with its count.
pub proof fn law_causes_are_told(s: RankRetrySummary)
    ensures
        s.throttle_503 > 0 ==> causes(s).contains("503x"@ + text::decimal(s.throttle_503 as nat)),
        s.throttle_429 > 0 ==> causes(s).contains("429x"@ + text::decimal(s.throttle_429 as nat)),
        s.server_5xx > 0 ==> causes(s).contains("5xxx"@ + text::decimal(s.server_5xx as nat)),
        s.transport_err > 0 ==> causes(s).contains(
            "transport-errx"@ + text::decimal(s.transport_err as nat),
        ),
        causes(s).len() == (if s.throttle_503 > 0 {
            1int
        } else {
            0
        }) + (if s.throttle_429 > 0 {
            1int
        } else {
            0
        }) + (if s.server_5xx > 0 {
            1int
        } else {
            0
        }) + (if s.transport_err > 0 {
            1int
        } else {
            0
        }),
{
    let a = cause("503x"@, s.throttle_503);
    let b = cause("429x"@, s.throttle_429);
    let c = cause("5xxx"@, s.server_5xx);
    let d = cause("transport-errx"@, s.transport_err);
    let all = causes(s);
    if s.throttle_503 > 0 {
        assert(all[0] == a[0]);
    }
    if s.throttle_429 > 0 {
        assert(all[a.len() as int] == b[0]);
    }
    if s.server_5xx > 0 {
        assert(all[a.len() as int + b.len()] == c[0]);
    }
    if s.transport_err > 0 {
        assert(all[a.len() as int + b.len() + c.len()] == d[0]);
    }
}

} // verus!
