//! What a run says of its stages. Times and rates come as text.
use crate::text;
use crate::text::{decimal_text, owned};
use vstd::prelude::*;

verus! {

/// The line on the listing.
pub fn list_line(files: usize, bytes: u64, seconds: &str) -> (out: String)
    ensures
        out@ == "[list] "@ + text::decimal(files as nat) + " files, "@ + text::decimal(bytes as nat)
            + " bytes T="@ + seconds@ + "s"@,
{
    let mut out = owned("[list] ");
    out.append(decimal_text(files as u64).as_str());
    out.append(" files, ");
    out.append(decimal_text(bytes).as_str());
    out.append(" bytes T=");
    out.append(seconds);
    out.append("s");
    out
}

/// The line on what has to be transferred.
pub fn diff_line(transfers: usize, skipped: usize, seconds: &str) -> (out: String)
    ensures
        out@ == "[diff] "@ + text::decimal(transfers as nat) + " to transfer, "@ + text::decimal(
            skipped as nat,
        ) + " skipped T="@ + seconds@ + "s"@,
{
    let mut out = owned("[diff] ");
    out.append(decimal_text(transfers as u64).as_str());
    out.append(" to transfer, ");
    out.append(decimal_text(skipped as u64).as_str());
    out.append(" skipped T=");
    out.append(seconds);
    out.append("s");
    out
}

/// The line on the ranks that download, where not all do.
pub fn download_ranks_line(download_ranks: usize, total_ranks: usize) -> (out: Option<String>)
    ensures
        text::opt_view(out) == if download_ranks < total_ranks {
            Some(
                "[shard] "@ + text::decimal(download_ranks as nat) + "/"@ + text::decimal(
                    total_ranks as nat,
                ) + " ranks will download; remaining "@ + text::decimal(
                    (total_ranks - download_ranks) as nat,
                ) + " ranks bcast-only"@,
            )
        } else {
            None
        },
{
    if download_ranks >= total_ranks {
        return None;
    }
    let mut out = owned("[shard] ");
    out.append(decimal_text(download_ranks as u64).as_str());
    out.append("/");
    out.append(decimal_text(total_ranks as u64).as_str());
    out.append(" ranks will download; remaining ");
    out.append(decimal_text((total_ranks - download_ranks) as u64).as_str());
    out.append(" ranks bcast-only");
    Some(out)
}

/// The line on the shard size, where files are split.
pub fn shard_size_line(shard_size: u64, bcast_chunk: usize) -> (out: Option<String>)
    requires
        shard_size > 0 ==> bcast_chunk > 0,
    ensures
        text::opt_view(out) == if shard_size > 0 {
            Some(
                "[shard] range-sharding active: shard_size="@ + text::decimal(shard_size as nat)
                    + " bytes ("@ + text::decimal((shard_size as int / bcast_chunk as int) as nat)
                    + " chunks/shard)"@,
            )
        } else {
            None
        },
{
    if shard_size == 0 {
        return None;
    }
    let mut out = owned("[shard] range-sharding active: shard_size=");
    out.append(decimal_text(shard_size).as_str());
    out.append(" bytes (");
    out.append(decimal_text(shard_size / bcast_chunk as u64).as_str());
    out.append(" chunks/shard)");
    Some(out)
}

/// The line on what a rank downloads.
pub fn slice_line(rank: usize, ranges: usize, bytes: u64) -> (out: String)
    ensures
        out@ == "[shard] rank "@ + text::decimal(rank as nat) + ": "@ + text::decimal(
            ranges as nat,
        ) + " ranges, "@ + text::decimal(bytes as nat) + " bytes"@,
{
    let mut out = owned("[shard] rank ");
    out.append(decimal_text(rank as u64).as_str());
    out.append(": ");
    out.append(decimal_text(ranges as u64).as_str());
    out.append(" ranges, ");
    out.append(decimal_text(bytes).as_str());
    out.append(" bytes");
    out
}

/// The line on the download.
pub fn download_line(bytes: u64, seconds: &str, rate: &str) -> (out: String)
    ensures
        out@ == "[download] "@ + text::decimal(bytes as nat) + " bytes T="@ + seconds@ + "s BW="@
            + rate@,
{
    let mut out = owned("[download] ");
    out.append(decimal_text(bytes).as_str());
    out.append(" bytes T=");
    out.append(seconds);
    out.append("s BW=");
    out.append(rate);
    out
}

/// The line on the broadcast.
pub fn bcast_line(files: usize, bytes: u64, seconds: &str, rate: &str) -> (out: String)
    ensures
        out@ == "[bcast] "@ + text::decimal(files as nat) + " files "@ + text::decimal(bytes as nat)
            + " bytes T="@ + seconds@ + "s BW="@ + rate@,
{
    let mut out = owned("[bcast] ");
    out.append(decimal_text(files as u64).as_str());
    out.append(" files ");
    out.append(decimal_text(bytes).as_str());
    out.append(" bytes T=");
    out.append(seconds);
    out.append("s BW=");
    out.append(rate);
    out
}

/// The line on the file list: how many entries were written, where it was asked for.
pub fn filelist_line(saved: Option<usize>, seconds: &str) -> (out: String)
    ensures
        out@ == "[filelist] "@ + (match saved {
            Some(n) => "wrote "@ + text::decimal(n as nat) + " entries"@,
            None => "skipped (no --save-filelist)"@,
        }) + " T="@ + seconds@ + "s"@,
{
    let what = match saved {
        Some(n) => {
            let mut what = owned("wrote ");
            what.append(decimal_text(n as u64).as_str());
            what.append(" entries");
            what
        },
        None => owned("skipped (no --save-filelist)"),
    };
    let mut out = owned("[filelist] ");
    out.append(what.as_str());
    out.append(" T=");
    out.append(seconds);
    out.append("s");
    out
}

/// The line on the whole run.
pub fn total_line(seconds: &str) -> (out: String)
    ensures
        out@ == "[total] T="@ + seconds@ + "s"@,
{
    let mut out = owned("[total] T=");
    out.append(seconds);
    out.append("s");
    out
}

} // verus!
