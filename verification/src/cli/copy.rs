//! `azcp copy`: what is copied where.
use crate::cli::args::{resolve_progress, CopyArgs};
use crate::cli::list;
use crate::cli::list::format_size;
use crate::cluster::paths;
use crate::config::TransferConfig;
use crate::engine::transfer;
use crate::engine::transfer::name_in_path;
use crate::engine::TransferSummary;
use crate::error::AzcpError;
use crate::storage::blob::client::RetryStats;
use crate::storage::location::{BlobLocation, Location};
use crate::text;
use crate::text::{chars_of, clone_opt, decimal_text, owned, same_text};
use vstd::prelude::*;

verus! {

/// How a copy is done.
pub fn copy_config(args: &CopyArgs, is_terminal: bool) -> (out: TransferConfig)
    ensures
        out == (TransferConfig {
            block_size: args.block_size,
            concurrency: args.concurrency,
            parallel_files: args.parallel_files,
            dry_run: args.dry_run,
            discard: args.discard,
            overwrite: !args.no_overwrite,
            recursive: args.recursive,
            include_pattern: args.include_pattern,
            exclude_pattern: args.exclude_pattern,
            check_md5: args.check_md5,
            progress: !args.no_progress && (args.progress || is_terminal),
            max_retries: args.max_retries,
            shard: args.shard,
            shardlist: args.shardlist,
            max_bandwidth_bytes_per_sec: args.max_bandwidth,
        }),
{
    TransferConfig {
        block_size: args.block_size,
        concurrency: args.concurrency,
        parallel_files: args.parallel_files,
        dry_run: args.dry_run,
        discard: args.discard,
        overwrite: !args.no_overwrite,
        recursive: args.recursive,
        include_pattern: clone_opt(&args.include_pattern),
        exclude_pattern: clone_opt(&args.exclude_pattern),
        check_md5: args.check_md5,
        progress: resolve_progress(args.progress, args.no_progress, is_terminal),
        max_retries: args.max_retries,
        shard: args.shard,
        shardlist: clone_opt(&args.shardlist),
        max_bandwidth_bytes_per_sec: args.max_bandwidth,
    }
}

/// The way of a copy.
pub enum CopyRoute {
    Upload,
    Download,
    /// What is asked for cannot be done at all.
    Refused(AzcpError),
    /// What is asked for is not done, which is said and is no error.
    Unsupported(String),
}

/// Whether a route is the one between two locations. A list of blobs to read, and throwing the
/// data away, go with downloads only.
pub open spec fn is_route(
    out: CopyRoute,
    source: Location,
    dest: Location,
    discard: bool,
    shardlist: bool,
) -> bool {
    let local_source = source is Local;
    match out {
        CopyRoute::Upload => local_source && dest is AzureBlob && !discard && !shardlist,
        CopyRoute::Download => source is AzureBlob && dest is Local,
        CopyRoute::Refused(AzcpError::Transfer(m)) => local_source && if dest is AzureBlob
            && discard {
            m@ == "--discard is only valid for downloads (blob -> local)"@
        } else {
            shardlist && m@ == "--shardlist is only valid for downloads (blob -> local)"@
        },
        CopyRoute::Refused(_) => false,
        CopyRoute::Unsupported(m) => if local_source {
            dest is Local && !shardlist && m@ == "Local-to-local copy not supported. Use cp."@
        } else {
            dest is AzureBlob && m@ == "Server-to-server copy not yet implemented."@
        },
    }
}

/// The way of a copy between two locations.
pub fn copy_route(source: &Location, dest: &Location, discard: bool, shardlist: bool) -> (out:
    CopyRoute)
    ensures
        is_route(out, *source, *dest, discard, shardlist),
{
    match (source, dest) {
        (Location::Local(_), Location::AzureBlob(_)) => {
            if discard {
                return CopyRoute::Refused(
                    AzcpError::Transfer(
                        owned("--discard is only valid for downloads (blob -> local)"),
                    ),
                );
            }
            if shardlist {
                return CopyRoute::Refused(
                    AzcpError::Transfer(
                        owned("--shardlist is only valid for downloads (blob -> local)"),
                    ),
                );
            }
            CopyRoute::Upload
        },
        (Location::AzureBlob(_), Location::Local(_)) => CopyRoute::Download,
        (Location::AzureBlob(_), Location::AzureBlob(_)) => CopyRoute::Unsupported(
            owned("Server-to-server copy not yet implemented."),
        ),
        (Location::Local(_), Location::Local(_)) => {
            if shardlist {
                return CopyRoute::Refused(
                    AzcpError::Transfer(
                        owned("--shardlist is only valid for downloads (blob -> local)"),
                    ),
                );
            }
            CopyRoute::Unsupported(owned("Local-to-local copy not supported. Use cp."))
        },
    }
}

/// What an upload takes from its source.
#[derive(Debug, Clone, Copy, PartialEq, Eq)]
pub enum UploadKind {
    Directory,
    File,
    Missing,
}

pub fn upload_kind(is_dir: bool, is_file: bool) -> (out: UploadKind)
    ensures
        out == if is_dir {
            UploadKind::Directory
        } else if is_file {
            UploadKind::File
        } else {
            UploadKind::Missing
        },
{
    if is_dir {
        UploadKind::Directory
    } else if is_file {
        UploadKind::File
    } else {
        UploadKind::Missing
    }
}

/// What is said where the source of an upload does not exist.
pub fn missing_source(source: &str) -> (out: String)
    ensures
        out@ == "Source not found: "@ + source@,
{
    let mut out = owned("Source not found: ");
    out.append(source);
    out
}

/// The blob that a single file becomes: the one that the destination names, else one with the
/// name of the file.
pub fn single_blob_path(dest: &BlobLocation, file_name: &str) -> (out: String)
    ensures
        out@ == if dest.path@.len() == 0 {
            file_name@
        } else {
            dest.path@
        },
{
    if dest.path.as_str().unicode_len() == 0 {
        owned(file_name)
    } else {
        dest.path.clone()
    }
}

/// Whether a download takes all blobs below a path, not a single blob: it is recursive, or the
/// path is empty or ends in `/`.
pub open spec fn takes_tree(path: Seq<char>, recursive: bool) -> bool {
    recursive || path.len() == 0 || path.last() == '/'
}

pub fn downloads_tree(source: &BlobLocation, recursive: bool) -> (out: bool)
    ensures
        out == takes_tree(source.path@, recursive),
{
    let chars = chars_of(source.path.as_str());
    recursive || chars.len() == 0 || chars[chars.len() - 1] == '/'
}

/// What the names of all blobs below a path begin with.
pub open spec fn tree_of(path: Seq<char>) -> Seq<char> {
    if path.len() == 0 || path.last() == '/' {
        path
    } else {
        path.push('/')
    }
}

/// What the names of all blobs below the path of a location begin with.
pub fn tree_prefix(source: &BlobLocation) -> (out: String)
    ensures
        out@ == tree_of(source.path@),
{
    let chars = chars_of(source.path.as_str());
    let mut out = source.path.clone();
    if chars.len() > 0 && chars[chars.len() - 1] != '/' {
        out.push('/');
    }
    out
}

/// A recursive download keeps the paths below the one that it was given, with and without a `/`
/// at the end of that.
pub proof fn law_tree_keeps_relative_paths(path: Seq<char>, rel: Seq<char>)
    requires
        rel.len() > 0,
        rel[0] != '/',
    ensures
        paths::rel_path(tree_of(path), tree_of(path) + rel) == rel,
        path.len() > 0 ==> tree_of(tree_of(path)) == tree_of(path),
{
    let head = tree_of(path);
    assert((head + rel).take(head.len() as int) =~= head);
    assert((head + rel).skip(head.len() as int) =~= rel);
}

/// The name of the file that a path names. A path that names none, such as one that ends in
/// `..`, stands for itself.
pub open spec fn file_name_of(path: Seq<char>) -> Seq<char> {
    match transfer::last_part(text::split(path, '/')) {
        Some(p) => if p == ".."@ {
            path
        } else {
            p
        },
        None => path,
    }
}

/// The file that a single blob becomes in a directory.
pub fn single_file_name(source: &BlobLocation) -> (out: String)
    ensures
        out@ == file_name_of(source.path@),
{
    match name_in_path(source.path.as_str()) {
        Some(name) => {
            if same_text(name.as_str(), "..") {
                source.path.clone()
            } else {
                name
            }
        },
        None => source.path.clone(),
    }
}

/// What is said of a single file or blob.
pub fn transferred_message(name: &str, size: u64) -> (out: String)
    ensures
        out@ == "Transferred: "@ + name@ + " ("@ + list::human_size(size) + ")"@,
{
    let mut out = owned("Transferred: ");
    out.append(name);
    out.append(" (");
    out.append(format_size(size).as_str());
    out.append(")");
    out
}

/// What is said of a file or blob that exists and is not overwritten.
pub fn skipped_message(name: &str) -> (out: String)
    ensures
        out@ == "Skipped (already exists): "@ + name@,
{
    let mut out = owned("Skipped (already exists): ");
    out.append(name);
    out
}

/// What a command ends with: an error where a file failed.
pub fn check_summary(s: &TransferSummary) -> (out: std::result::Result<(), AzcpError>)
    ensures
        match out {
            Ok(_) => s.failed == 0,
            Err(AzcpError::Transfer(m)) => s.failed > 0 && m@ == text::decimal(s.failed as nat)
                + " file(s) failed to transfer"@,
            Err(_) => false,
        },
{
    if s.failed > 0 {
        let mut m = decimal_text(s.failed);
        m.append(" file(s) failed to transfer");
        return Err(AzcpError::Transfer(m));
    }
    Ok(())
}

/// The first line of a summary. `seconds` and `gbps` are the time and the rate as text.
pub open spec fn summary_head(
    op: Seq<char>,
    s: TransferSummary,
    seconds: Seq<char>,
    gbps: Seq<char>,
) -> Seq<char> {
    op + " complete: "@ + text::decimal(s.total_files as nat) + " files, "@ + list::human_size(
        s.total_bytes,
    ) + " in "@ + seconds + "s = "@ + gbps + " Gbps"@
}

/// The lines of a summary behind the first: what failed and what was skipped only where there
/// was any.
pub open spec fn summary_tail(s: TransferSummary) -> Seq<Seq<char>> {
    let done = seq!["  Succeeded: "@ + text::decimal(s.succeeded as nat)];
    let failed = if s.failed > 0 {
        done.push("  Failed:    "@ + text::decimal(s.failed as nat))
    } else {
        done
    };
    if s.skipped > 0 {
        failed.push("  Skipped:   "@ + text::decimal(s.skipped as nat))
    } else {
        failed
    }
}

fn counted_line(label: &str, n: u64) -> (out: String)
    ensures
        out@ == label@ + text::decimal(n as nat),
{
    let mut out = owned(label);
    out.append(decimal_text(n).as_str());
    out
}

/// The lines of a summary.
pub fn summary_lines(op: &str, s: &TransferSummary, seconds: &str, gbps: &str) -> (out: Vec<
    String,
>)
    ensures
        text::views(out@) == seq![summary_head(op@, *s, seconds@, gbps@)] + summary_tail(*s),
{
    let mut head = owned(op);
    head.append(" complete: ");
    head.append(decimal_text(s.total_files).as_str());
    head.append(" files, ");
    head.append(format_size(s.total_bytes).as_str());
    head.append(" in ");
    head.append(seconds);
    head.append("s = ");
    head.append(gbps);
    head.append(" Gbps");
    let mut out: Vec<String> = Vec::new();
    out.push(head);
    out.push(counted_line("  Succeeded: ", s.succeeded));
    if s.failed > 0 {
        out.push(counted_line("  Failed:    ", s.failed));
    }
    if s.skipped > 0 {
        out.push(counted_line("  Skipped:   ", s.skipped));
    }
    assert(text::views(out@) =~= seq![summary_head(op@, *s, seconds@, gbps@)] + summary_tail(*s));
    out
}

/// The line on retries.
pub fn retry_line(s: &RetryStats) -> (out: String)
    ensures
        out@ == if s.throttle_503 == 0 && s.throttle_429 == 0 && s.server_5xx == 0
            && s.transport_err == 0 {
            "  Retries:   none"@
        } else {
            "  Retries:   503x"@ + text::decimal(s.throttle_503 as nat) + " 429x"@ + text::decimal(
                s.throttle_429 as nat,
            ) + " 5xxx"@ + text::decimal(s.server_5xx as nat) + " transport-err x"@
                + text::decimal(s.transport_err as nat)
        },
{
    if s.throttle_503 == 0 && s.throttle_429 == 0 && s.server_5xx == 0 && s.transport_err == 0 {
        return owned("  Retries:   none");
    }
    let mut out = owned("  Retries:   503x");
    out.append(decimal_text(s.throttle_503).as_str());
    out.append(" 429x");
    out.append(decimal_text(s.throttle_429).as_str());
    out.append(" 5xxx");
    out.append(decimal_text(s.server_5xx).as_str());
    out.append(" transport-err x");
    out.append(decimal_text(s.transport_err).as_str());
    out
}

/// The shard of worker `i` of `workers` in a process that has a shard of its own, or none.
pub open spec fn sub_shard(shard: Option<(usize, usize)>, i: int, workers: int) -> (int, int) {
    match shard {
        Some((x, n)) => (x * workers + i, n * workers),
        None => (i, workers),
    }
}

/// The shard of worker `i` of `workers`. The shard of the process is split further, so that all
/// processes together run as many partitions as they have workers.
pub fn worker_shard(shard: Option<(usize, usize)>, i: usize, workers: usize) -> (out: (
    usize,
    usize,
))
    requires
        i < workers,
        shard matches Some(s) ==> s.0 < s.1 && s.1 * workers <= usize::MAX,
    ensures
        out.0 == sub_shard(shard, i as int, workers as int).0,
        out.1 == sub_shard(shard, i as int, workers as int).1,
        out.0 < out.1,
{
    match shard {
        Some((x, n)) => {
            proof {
                assert(x * workers + workers <= n * workers) by (nonlinear_arith)
                    requires
                        x + 1 <= n,
                ;
                assert(x * workers >= 0) by (nonlinear_arith);
            }
            (x * workers + i, n * workers)
        },
        None => (i, workers),
    }
}

/// The workers of all processes have shards of one partition, each its own: two of them have
/// the same one only where they are the same worker of the same process, and every shard has
/// its worker.
pub proof fn law_worker_shards_partition(
    n: usize,
    workers: int,
    x: usize,
    i: int,
    y: usize,
    j: int,
    k: int,
)
    requires
        workers > 0,
        x < n,
        y < n,
        0 <= i < workers,
        0 <= j < workers,
        0 <= k < n * workers,
    ensures
        sub_shard(Some((x, n)), i, workers).1 == n * workers,
        0 <= sub_shard(Some((x, n)), i, workers).0 < n * workers,
        sub_shard(Some((x, n)), i, workers) == sub_shard(Some((y, n)), j, workers) ==> x == y && i
            == j,
        0 <= k / workers < n,
        0 <= k % workers < workers,
        sub_shard(Some(((k / workers) as usize, n)), k % workers, workers).0 == k,
{
    let (x, y, n) = (x as int, y as int, n as int);
    assert(x * workers + workers <= n * workers) by (nonlinear_arith)
        requires
            x + 1 <= n,
            workers > 0,
    ;
    assert(x * workers >= 0) by (nonlinear_arith)
        requires
            x >= 0,
            workers > 0,
    ;
    if x * workers + i == y * workers + j {
        vstd::arithmetic::div_mod::lemma_fundamental_div_mod_converse(
            x * workers + i,
            workers,
            x,
            i,
        );
        vstd::arithmetic::div_mod::lemma_fundamental_div_mod_converse(
            y * workers + j,
            workers,
            y,
            j,
        );
    }
    vstd::arithmetic::div_mod::lemma_fundamental_div_mod(k, workers);
    vstd::arithmetic::div_mod::lemma_mod_bound(k, workers);
    let q = k / workers;
    assert((k / workers) * workers == workers * (k / workers)) by (nonlinear_arith);
    if q >= n {
        assert(workers * q >= n * workers) by (nonlinear_arith)
            requires
                q >= n,
                workers > 0,
        ;
    }
    if q < 0 {
        assert(workers * q <= -workers) by (nonlinear_arith)
            requires
                q <= -1,
                workers > 0,
        ;
    }
}

/// What a worker came to.
pub enum WorkerResult {
    Summary(TransferSummary),
    Nothing,
    Failed(AzcpError),
    Panicked,
}

/// The sums of the summaries of the workers.
pub open spec fn combined(results: Seq<WorkerResult>) -> (nat, nat, nat, nat, nat)
    decreases results.len(),
{
    if results.len() == 0 {
        (0, 0, 0, 0, 0)
    } else {
        let c = combined(results.drop_last());
        match results.last() {
            WorkerResult::Summary(s) => (
                c.0 + s.total_files as nat,
                c.1 + s.total_bytes as nat,
                c.2 + s.succeeded as nat,
                c.3 + s.failed as nat,
                c.4 + s.skipped as nat,
            ),
            _ => c,
        }
    }
}

/// The sums of the workers fit 64 bits.
pub open spec fn combined_fits(results: Seq<WorkerResult>) -> bool {
    let c = combined(results);
    c.0 <= u64::MAX && c.1 <= u64::MAX && c.2 <= u64::MAX && c.3 <= u64::MAX && c.4 <= u64::MAX
}

proof fn lemma_combined_grows(results: Seq<WorkerResult>, n: int)
    requires
        0 <= n <= results.len(),
    ensures
        combined(results.take(n)).0 <= combined(results).0,
        combined(results.take(n)).1 <= combined(results).1,
        combined(results.take(n)).2 <= combined(results).2,
        combined(results.take(n)).3 <= combined(results).3,
        combined(results.take(n)).4 <= combined(results).4,
    decreases results.len(),
{
    if n < results.len() {
        lemma_combined_grows(results.drop_last(), n);
        assert(results.drop_last().take(n) =~= results.take(n));
    } else {
        assert(results.take(n) =~= results);
    }
}

/// The summary of all workers.
pub fn combine(results: &Vec<WorkerResult>) -> (out: TransferSummary)
    requires
        combined_fits(results@),
    ensures
        (
            out.total_files as nat,
            out.total_bytes as nat,
            out.succeeded as nat,
            out.failed as nat,
            out.skipped as nat,
        ) == combined(results@),
{
    let mut out = TransferSummary {
        total_files: 0,
        total_bytes: 0,
        succeeded: 0,
        failed: 0,
        skipped: 0,
    };
    let mut i: usize = 0;
    assert(results@.take(0) =~= Seq::<WorkerResult>::empty());
    while i < results.len()
        invariant
            i <= results@.len(),
            combined_fits(results@),
            (
                out.total_files as nat,
                out.total_bytes as nat,
                out.succeeded as nat,
                out.failed as nat,
                out.skipped as nat,
            ) == combined(results@.take(i as int)),
        decreases results@.len() - i,
    {
        proof {
            assert(results@.take(i + 1).drop_last() =~= results@.take(i as int));
            lemma_combined_grows(results@, i + 1);
        }
        match &results[i] {
            WorkerResult::Summary(s) => {
                out.total_files = out.total_files + s.total_files;
                out.total_bytes = out.total_bytes + s.total_bytes;
                out.succeeded = out.succeeded + s.succeeded;
                out.failed = out.failed + s.failed;
                out.skipped = out.skipped + s.skipped;
            },
            _ => {},
        }
        i += 1;
    }
    assert(results@.take(results@.len() as int) =~= results@);
    out
}

/// The position of the first worker that failed, or the number of workers.
pub open spec fn first_failed(results: Seq<WorkerResult>, from: int) -> int
    decreases results.len() - from,
{
    if from >= results.len() || results[from] is Failed || results[from] is Panicked {
        from
    } else {
        first_failed(results, from + 1)
    }
}

/// The error that all workers together end with: that of the first that failed.
pub fn first_worker_error(results: Vec<WorkerResult>) -> (out: std::result::Result<(), AzcpError>)
    ensures
        ({
            let k = first_failed(results@, 0);
            if k >= results@.len() {
                out is Ok
            } else {
                match results@[k] {
                    WorkerResult::Failed(e) => out == std::result::Result::<(), AzcpError>::Err(e),
                    _ => out matches Err(AzcpError::Transfer(m)) && m@ == "worker "@
                        + text::decimal(k as nat) + " panicked"@,
                }
            }
        }),
{
    let mut rest = results;
    let ghost all = rest@;
    let n: usize = rest.len();
    let mut k: usize = 0;
    while k < n
        invariant
            k <= n,
            n == all.len(),
            rest@ == all,
            all == results@,
            first_failed(all, 0) == first_failed(all, k as int),
        decreases n - k,
    {
        let stop = match &rest[k] {
            WorkerResult::Failed(_) => true,
            WorkerResult::Panicked => true,
            _ => false,
        };
        if stop {
            let r = rest.swap_remove(k);
            return match r {
                WorkerResult::Failed(e) => Err(e),
                _ => {
                    let mut m = owned("worker ");
                    m.append(decimal_text(k as u64).as_str());
                    m.append(" panicked");
                    Err(AzcpError::Transfer(m))
                },
            };
        }
        k += 1;
    }
    Ok(())
}

/// A copy goes up from a local path to a blob and down from a blob to a local path. A list of
/// blobs or throwing the data away is refused for anything but a download, and copies within one
/// side are not done.
pub proof fn law_routes(
    out: CopyRoute,
    source: Location,
    dest: Location,
    discard: bool,
    shardlist: bool,
)
    requires
        is_route(out, source, dest, discard, shardlist),
    ensures
        out is Upload <==> source is Local && dest is AzureBlob && !discard && !shardlist,
        out is Download <==> source is AzureBlob && dest is Local,
        out is Unsupported <==> source is AzureBlob && dest is AzureBlob || source is Local && dest
            is Local && !shardlist,
        out is Refused <==> source is Local && (shardlist || dest is AzureBlob && discard),
{
}

/// A download takes a tree exactly where it is recursive or the path is that of a tree.
pub proof fn law_trees_are_taken(path: Seq<char>, recursive: bool)
    ensures
        takes_tree(path, true),
        takes_tree(path, false) <==> tree_of(path) == path,
        takes_tree(path, recursive) <==> recursive || takes_tree(path, false),
{
}

/// The names below a path begin with the path and a `/`.
pub proof fn law_trees_end_in_a_slash(path: Seq<char>)
    ensures
        tree_of(Seq::empty()).len() == 0,
        path.len() > 0 && path.last() != '/' ==> tree_of(path) == path + seq!['/'],
        path.len() > 0 && path.last() == '/' ==> tree_of(path) == path,
{
    if path.len() > 0 && path.last() != '/' {
        assert(path.push('/') =~= path + seq!['/']);
    }
}

/// The name of a file is what stands behind the last `/` of its path.
pub proof fn law_file_name_is_behind_the_last_slash(dir: Seq<char>, name: Seq<char>)
    requires
        name.len() > 0,
        !name.contains('/'),
        name != "."@,
        name != ".."@,
    ensures
        file_name_of(name) == name,
        file_name_of(dir + seq!['/'] + name) == name,
        file_name_of(dir + seq!['/'] + name + seq!['/']) == name,
        file_name_of(dir + seq!['/'] + ".."@) == dir + seq!['/'] + ".."@,
{
    text::lemma_split_behind(dir, '/', name);
    let none = Seq::<char>::empty();
    let path = dir + seq!['/'] + name;
    text::lemma_split_behind(path, '/', none);
    assert(path + seq!['/'] + none =~= path + seq!['/']);
    assert(text::split(dir, '/').push(name).last() == name);
    assert(seq![name].last() == name);
    assert(text::split(path, '/').push(none).drop_last() =~= text::split(path, '/'));
    assert(text::split(path, '/').push(none).last() == none);
    reveal_strlit("..");
    reveal_strlit(".");
    text::lemma_split_behind(dir, '/', ".."@);
    assert(text::split(dir, '/').push(".."@).last() == ".."@);
    assert(".."@.len() == 2 && "."@.len() == 1);
}

/// What the workers did adds up field by field; a worker without a summary adds nothing.
pub proof fn law_summaries_add_up(a: Seq<WorkerResult>, b: Seq<WorkerResult>, r: WorkerResult)
    ensures
        combined(a + b).0 == combined(a).0 + combined(b).0,
        combined(a + b).1 == combined(a).1 + combined(b).1,
        combined(a + b).2 == combined(a).2 + combined(b).2,
        combined(a + b).3 == combined(a).3 + combined(b).3,
        combined(a + b).4 == combined(a).4 + combined(b).4,
        r matches WorkerResult::Summary(s) ==> combined(seq![r]) == (
            s.total_files as nat,
            s.total_bytes as nat,
            s.succeeded as nat,
            s.failed as nat,
            s.skipped as nat,
        ),
        !(r is Summary) ==> combined(seq![r]) == (0nat, 0nat, 0nat, 0nat, 0nat),
    decreases b.len(),
{
    reveal_with_fuel(combined, 2);
    assert(seq![r].drop_last() =~= Seq::<WorkerResult>::empty());
    if b.len() == 0 {
        assert(a + b =~= a);
    } else {
        law_summaries_add_up(a, b.drop_last(), r);
        assert((a + b).drop_last() =~= a + b.drop_last());
        assert((a + b).last() == b.last());
    }
}

/// The failure that counts is that of the first worker that failed or panicked.
pub proof fn law_first_failed_worker_counts(results: Seq<WorkerResult>, from: int, i: int)
    requires
        0 <= from <= i <= results.len(),
        forall|k: int|
            from <= k < i ==> !((#[trigger] results[k]) is Failed) && !(results[k] is Panicked),
        i < results.len() ==> results[i] is Failed || results[i] is Panicked,
    ensures
        first_failed(results, from) == i,
    decreases i - from,
{
    if from < i {
        law_first_failed_worker_counts(results, from + 1, i);
    }
}

/// A summary tells how many files succeeded, and how many failed or were skipped exactly where
/// there were any.
pub proof fn law_summary_tells_failures(s: TransferSummary)
    ensures
        summary_tail(s).contains("  Succeeded: "@ + text::decimal(s.succeeded as nat)),
        s.failed > 0 ==> summary_tail(s).contains(
            "  Failed:    "@ + text::decimal(s.failed as nat),
        ),
        s.skipped > 0 ==> summary_tail(s).contains(
            "  Skipped:   "@ + text::decimal(s.skipped as nat),
        ),
        summary_tail(s).len() == 1 + (if s.failed > 0 {
            1int
        } else {
            0
        }) + (if s.skipped > 0 {
            1int
        } else {
            0
        }),
{
    let t = summary_tail(s);
    assert(t[0] == "  Succeeded: "@ + text::decimal(s.succeeded as nat));
    if s.failed > 0 {
        assert(t[1] == "  Failed:    "@ + text::decimal(s.failed as nat));
    }
    if s.skipped > 0 {
        assert(t[t.len() - 1] == "  Skipped:   "@ + text::decimal(s.skipped as nat));
    }
}

/// The first line of a summary names the operation, the files, the bytes, the time and the rate.
pub proof fn law_summary_names_its_figures(
    op: Seq<char>,
    s: TransferSummary,
    seconds: Seq<char>,
    gbps: Seq<char>,
)
    ensures
        summary_head(op, s, seconds, gbps) == op + " complete: "@ + text::decimal(
            s.total_files as nat,
        ) + " files, "@ + list::human_size(s.total_bytes) + " in "@ + seconds + "s = "@ + gbps
            + " Gbps"@,
{
}

/// What is said of a copy that is refused or not done.
pub proof fn law_refusals_say_why(
    out: CopyRoute,
    source: Location,
    dest: Location,
    discard: bool,
    shardlist: bool,
)
    requires
        is_route(out, source, dest, discard, shardlist),
    ensures
        source is Local && dest is AzureBlob && discard ==> (out matches CopyRoute::Refused(e) && e
            is Transfer && e->Transfer_0@
            == "--discard is only valid for downloads (blob -> local)"@),
        source is Local && shardlist && !(dest is AzureBlob && discard) ==> (
        out matches CopyRoute::Refused(e) && e is Transfer && e->Transfer_0@
            == "--shardlist is only valid for downloads (blob -> local)"@),
        source is Local && dest is Local && !shardlist ==> (out matches CopyRoute::Unsupported(m)
            && m@ == "Local-to-local copy not supported. Use cp."@),
        source is AzureBlob && dest is AzureBlob ==> (out matches CopyRoute::Unsupported(m) && m@
            == "Server-to-server copy not yet implemented."@),
{
}

/// Without a shard of the process, its workers have the shards of their own number.
pub proof fn law_workers_share_a_process(i: int, workers: int)
    requires
        0 <= i < workers,
    ensures
        sub_shard(None, i, workers).0 == i,
        sub_shard(None, i, workers).1 == workers,
{
}

} // verus!
