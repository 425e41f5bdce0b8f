//! What the command line of `azcp-cluster` says, as plain values.
use crate::text;
use crate::text::{decimal_text, owned};
use crate::units;
use vstd::prelude::*;

verus! {

/// How a rank tells whether it already has a file.
#[derive(Debug, Clone, Copy, PartialEq, Eq)]
pub enum Compare {
    /// It never has.
    Never,
    /// By the size of the local file.
    Size,
    /// By the listing of an earlier run and the size of the local file.
    Filelist,
}

/// Which part of a run is done.
#[derive(Debug, Clone, Copy, PartialEq, Eq)]
pub enum Stage {
    All,
    Init,
    List,
    Download,
    Bcast,
}

#[derive(Debug)]
pub struct Args {
    pub source: String,
    pub dest: String,
    pub shardlist: Option<String>,
    pub compare: Compare,
    pub filelist: Option<String>,
    pub save_filelist: Option<String>,
    pub concurrency: usize,
    pub block_size: usize,
    pub parallel_files: usize,
    pub bcast_chunk: usize,
    pub bcast_pipeline: usize,
    pub bcast_writers: usize,
    pub no_bcast_direct: bool,
    pub max_retries: u32,
    pub max_bandwidth: Option<u64>,
    pub download_ranks: Option<usize>,
    pub verify: bool,
    pub no_progress: bool,
    pub stage: Stage,
    pub shard_size: u64,
    pub file_shards: Option<usize>,
}

/// Reads a size in bytes.
pub fn parse_size(s: &str) -> (out: std::result::Result<u64, String>)
    ensures
        units::agrees(out, units::size_of_text(s@)),
        text::is_ascii(text::trimmed(s@)) ==> units::agrees(out, units::ascii_size(s@)),
{
    units::parse_size(s)
}

/// What is wrong with the arguments taken together, if anything.
pub open spec fn complaint(a: Args) -> Option<Seq<char>> {
    if a.shard_size > 0 && a.file_shards is Some {
        Some("--shard-size and --file-shards are mutually exclusive; pass at most one"@)
    } else if a.shard_size > 0 && a.bcast_chunk == 0 {
        Some("--bcast-chunk must be > 0"@)
    } else if a.shard_size > 0 && a.shard_size as int % a.bcast_chunk as int != 0 {
        Some(
            "--shard-size ("@ + text::decimal(a.shard_size as nat)
                + ") must be a multiple of --bcast-chunk ("@ + text::decimal(a.bcast_chunk as nat)
                + ") so per-shard O_DIRECT padding never straddles shard boundaries"@,
        )
    } else if a.file_shards == Some(0usize) {
        Some("--file-shards must be >= 1"@)
    } else {
        None
    }
}

impl Args {
    /// Checks what only several arguments together can violate.
    pub fn validate(&self) -> (out: std::result::Result<(), String>)
        ensures
            match (out, complaint(*self)) {
                (Ok(_), None) => true,
                (Err(e), Some(m)) => e@ == m,
                _ => false,
            },
    {
        if self.shard_size > 0 && self.file_shards.is_some() {
            return Err(
                owned("--shard-size and --file-shards are mutually exclusive; pass at most one"),
            );
        }
        if self.shard_size > 0 {
            let chunk: u64 = self.bcast_chunk as u64;
            if chunk == 0 {
                return Err(owned("--bcast-chunk must be > 0"));
            }
            if self.shard_size % chunk != 0 {
                let mut e = owned("--shard-size (");
                e.append(decimal_text(self.shard_size).as_str());
                e.append(") must be a multiple of --bcast-chunk (");
                e.append(decimal_text(chunk).as_str());
                e.append(") so per-shard O_DIRECT padding never straddles shard boundaries");
                return Err(e);
            }
        }
        match self.file_shards {
            Some(n) => {
                if n == 0 {
                    return Err(owned("--file-shards must be >= 1"));
                }
            },
            None => {},
        }
        Ok(())
    }
}

/// Arguments go together exactly where a shard size comes without a number of shards and is a
/// multiple of a broadcast chunk that is not empty, and a number of shards is not zero.
pub proof fn law_arguments_that_go_together(a: Args)
    ensures
        complaint(a) is None <==> (a.shard_size > 0 ==> a.file_shards is None && a.bcast_chunk > 0
            && a.shard_size as int % a.bcast_chunk as int == 0) && a.file_shards != Some(0usize),
        a.shard_size > 0 && a.file_shards is Some ==> complaint(a) == Some(
            "--shard-size and --file-shards are mutually exclusive; pass at most one"@,
        ),
        a.shard_size == 0 && a.file_shards == Some(0usize) ==> complaint(a) == Some(
            "--file-shards must be >= 1"@,
        ),
        a.shard_size > 0 && a.file_shards is None && a.bcast_chunk == 0 ==> complaint(a) == Some(
            "--bcast-chunk must be > 0"@,
        ),
{
}

/// What is said of a shard size that no number of broadcast chunks fills.
pub proof fn law_uneven_shard_sizes_are_named(a: Args)
    requires
        a.shard_size > 0,
        a.file_shards is None,
        a.bcast_chunk > 0,
        a.shard_size as int % a.bcast_chunk as int != 0,
    ensures
        complaint(a) == Some(
            "--shard-size ("@ + text::decimal(a.shard_size as nat)
                + ") must be a multiple of --bcast-chunk ("@ + text::decimal(a.bcast_chunk as nat)
                + ") so per-shard O_DIRECT padding never straddles shard boundaries"@,
        ),
{
}

} // verus!
