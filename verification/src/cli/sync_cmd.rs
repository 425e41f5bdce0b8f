//! `azcp sync`: what has to be transferred and what has to be deleted.
use crate::cli::args::{CompareMethod, SyncArgs};
use crate::cluster::paths;
use crate::cluster::paths::rel_below;
use crate::config::TransferConfig;
use crate::engine;
use crate::engine::blob_path_for;
use crate::engine::index;
use crate::engine::index::NameIndex;
use crate::error::AzcpError;
use crate::storage::blob::models;
use crate::storage::blob::models::{item_size, BlobItem};
use crate::storage::local;
use crate::storage::local::{LocalEntry, Timestamp};
use crate::storage::location::Location;
use crate::text;
use crate::text::{chars_of, clone_opt, decimal_text, join, owned, same_text};
use vstd::prelude::*;

verus! {

/// The way of a sync.
#[derive(Debug, Clone, Copy, PartialEq, Eq)]
pub enum SyncRoute {
    Upload,
    Download,
    Unsupported,
}

pub fn sync_route(source: &Location, dest: &Location) -> (out: SyncRoute)
    ensures
        out == if source is Local && dest is AzureBlob {
            SyncRoute::Upload
        } else if source is AzureBlob && dest is Local {
            SyncRoute::Download
        } else {
            SyncRoute::Unsupported
        },
{
    match (source, dest) {
        (Location::Local(_), Location::AzureBlob(_)) => SyncRoute::Upload,
        (Location::AzureBlob(_), Location::Local(_)) => SyncRoute::Download,
        _ => SyncRoute::Unsupported,
    }
}

/// How a sync transfers: recursively, over what is there, without digests.
pub fn sync_config(args: &SyncArgs) -> (out: TransferConfig)
    ensures
        out == (TransferConfig {
            recursive: true,
            overwrite: true,
            block_size: args.block_size,
            concurrency: args.concurrency,
            parallel_files: args.parallel_files,
            dry_run: args.dry_run,
            discard: false,
            check_md5: false,
            include_pattern: args.include_pattern,
            exclude_pattern: args.exclude_pattern,
            progress: args.progress,
            max_retries: args.max_retries,
            shard: args.shard,
            shardlist: None,
            max_bandwidth_bytes_per_sec: None,
        }),
{
    TransferConfig {
        recursive: true,
        overwrite: true,
        block_size: args.block_size,
        concurrency: args.concurrency,
        parallel_files: args.parallel_files,
        dry_run: args.dry_run,
        discard: false,
        check_md5: false,
        include_pattern: clone_opt(&args.include_pattern),
        exclude_pattern: clone_opt(&args.exclude_pattern),
        progress: args.progress,
        max_retries: args.max_retries,
        shard: args.shard,
        shardlist: None,
        max_bandwidth_bytes_per_sec: None,
    }
}

/// The point in time that `chrono` reads from an RFC 2822 date, as seconds and nanoseconds.
pub uninterp spec fn rfc2822_time(s: Seq<char>) -> Option<(i64, u32)>;

/// Calls `chrono::DateTime::parse_from_rfc2822` and reads `timestamp` and
/// `timestamp_subsec_nanos`. The result is a function of the text.
#[verifier::external_body]
pub(crate) fn parse_rfc2822(s: &str) -> (out: Option<(i64, u32)>)
    ensures
        out == rfc2822_time(s@),
{
    chrono::DateTime::parse_from_rfc2822(s).ok().map(|d| (d.timestamp(), d.timestamp_subsec_nanos()))
}

/// The time of the last change that a listing gives, where it is a date.
pub open spec fn blob_time(m: Option<String>) -> Option<Timestamp> {
    match m {
        Some(t) => match rfc2822_time(t@) {
            Some(x) => Some(Timestamp { secs: x.0, nanos: x.1 }),
            None => None,
        },
        None => None,
    }
}

pub fn parse_blob_lmt(m: &Option<String>) -> (out: Option<Timestamp>)
    ensures
        out == blob_time(*m),
{
    match m {
        Some(t) => match parse_rfc2822(t.as_str()) {
            Some((secs, nanos)) => Some(Timestamp { secs, nanos }),
            None => None,
        },
        None => None,
    }
}

/// What a sync knows of a blob.
#[derive(Debug)]
pub struct RemoteRecord {
    pub size: u64,
    pub last_modified: Option<Timestamp>,
    pub md5_b64: Option<String>,
}

/// What a sync knows of a blob of a listing.
pub open spec fn record_of(b: BlobItem) -> RemoteRecord {
    RemoteRecord {
        size: models::size_of(b),
        last_modified: match b.properties {
            Some(p) => blob_time(p.last_modified),
            None => None,
        },
        md5_b64: match b.properties {
            Some(p) => p.content_md5,
            None => None,
        },
    }
}

pub fn remote_record(b: &BlobItem) -> (out: RemoteRecord)
    ensures
        out == record_of(*b),
{
    match &b.properties {
        Some(p) => RemoteRecord {
            size: item_size(b),
            last_modified: parse_blob_lmt(&p.last_modified),
            md5_b64: clone_opt(&p.content_md5),
        },
        None => RemoteRecord { size: item_size(b), last_modified: None, md5_b64: None },
    }
}

/// The blobs of a listing by their path below a prefix. Of blobs with one path the last counts.
pub struct RemoteIndex {
    records: Vec<RemoteRecord>,
    names: Vec<String>,
    by_name: NameIndex,
}

/// The paths of the blobs below a prefix.
pub open spec fn rel_names(blobs: Seq<BlobItem>, prefix: Seq<char>) -> Seq<Seq<char>> {
    blobs.map_values(|b: BlobItem| paths::rel_path(prefix, b.name@))
}

pub open spec fn records_of(blobs: Seq<BlobItem>) -> Seq<RemoteRecord> {
    blobs.map_values(|b: BlobItem| record_of(b))
}

impl RemoteIndex {
    pub closed spec fn wf(&self) -> bool {
        &&& self.by_name.wf()
        &&& self.by_name.names() == text::views(self.names@)
        &&& self.records@.len() == self.names@.len()
    }

    pub closed spec fn rels(&self) -> Seq<Seq<char>> {
        text::views(self.names@)
    }

    pub closed spec fn entries(&self) -> Seq<RemoteRecord> {
        self.records@
    }

    /// The index of a listing.
    pub fn remote_index(blobs: &Vec<BlobItem>, prefix: &str) -> (out: RemoteIndex)
        ensures
            out.wf(),
            out.rels() == rel_names(blobs@, prefix@),
            out.entries() == records_of(blobs@),
    {
        let mut records: Vec<RemoteRecord> = Vec::new();
        let mut names: Vec<String> = Vec::new();
        let mut keys: Vec<Vec<char>> = Vec::new();
        let mut i: usize = 0;
        while i < blobs.len()
            invariant
                i <= blobs@.len(),
                records@.len() == i,
                names@.len() == i,
                keys@.len() == i,
                forall|j: int| 0 <= j < i ==> #[trigger] records@[j] == record_of(blobs@[j]),
                forall|j: int|
                    0 <= j < i ==> (#[trigger] names@[j])@ == paths::rel_path(
                        prefix@,
                        blobs@[j].name@,
                    ),
                forall|j: int| 0 <= j < i ==> (#[trigger] keys@[j])@ == names@[j]@,
            decreases blobs@.len() - i,
        {
            let rel = rel_below(prefix, blobs[i].name.as_str());
            keys.push(chars_of(rel.as_str()));
            names.push(rel);
            records.push(remote_record(&blobs[i]));
            i += 1;
        }
        let by_name = NameIndex::new(keys);
        assert(by_name.names() =~= text::views(names@));
        assert(text::views(names@) =~= rel_names(blobs@, prefix@));
        assert(records@ =~= records_of(blobs@));
        RemoteIndex { records, names, by_name }
    }

    /// What is known of the blob with this path.
    pub fn get(&self, rel: &str) -> (out: Option<&RemoteRecord>)
        requires
            self.wf(),
        ensures
            match out {
                Some(r) => exists|i: int| #[trigger]
                    index::is_last(self.rels(), rel@, i) && *r == self.entries()[i],
                None => !self.rels().contains(rel@),
            },
    {
        let key = chars_of(rel);
        match self.by_name.find(&key) {
            Some(i) => {
                assert(index::is_last(self.rels(), rel@, i as int));
                Some(&self.records[i])
            },
            None => None,
        }
    }

    /// The blobs that have no file any more: each path that is not among `live`, once, as the
    /// name of its blob.
    pub fn stale_blobs(&self, live: &NameIndex, dest_path: &str) -> (out: Vec<String>)
        requires
            self.wf(),
            live.wf(),
        ensures
            text::views(out@) == stale_names(self.rels(), live.names(), self.rels().len(), dest_path@),
    {
        let mut out: Vec<String> = Vec::new();
        let mut i: usize = 0;
        assert(text::views(out@) =~= Seq::<Seq<char>>::empty());
        while i < self.names.len()
            invariant
                i <= self.names@.len(),
                self.wf(),
                live.wf(),
                self.rels().len() == self.names@.len(),
                text::views(out@) == stale_names(self.rels(), live.names(), i as nat, dest_path@),
            decreases self.names@.len() - i,
        {
            let key = chars_of(self.names[i].as_str());
            assert(key@ == self.rels()[i as int]);
            let is_last = match self.by_name.find(&key) {
                Some(k) => {
                    proof {
                        assert(self.rels()[i as int] == key@);
                        if index::is_last(self.rels(), key@, i as int) {
                            assert(k == i);
                        }
                    }
                    k == i
                },
                None => {
                    assert(self.rels().contains(self.rels()[i as int]));
                    false
                },
            };
            let gone = live.find(&key).is_none();
            proof {
                assert(is_last == index::is_last(self.rels(), self.rels()[i as int], i as int));
                if !gone {
                    assert(live.names().contains(key@));
                }
            }
            if is_last && gone {
                let ghost before = out@;
                let name = blob_path_for(dest_path, self.names[i].as_str());
                out.push(name);
                assert(text::views(out@) =~= text::views(before).push(
                    engine::blob_name(dest_path@, self.rels()[i as int]),
                ));
            }
            i += 1;
        }
        out
    }
}

/// Of the first `n` paths, those that stand there for the last time and are not among `live`,
/// as names of blobs.
pub open spec fn stale_names(
    rels: Seq<Seq<char>>,
    live: Seq<Seq<char>>,
    n: nat,
    dest_path: Seq<char>,
) -> Seq<Seq<char>>
    decreases n,
{
    if n == 0 {
        Seq::empty()
    } else {
        let front = stale_names(rels, live, (n - 1) as nat, dest_path);
        let r = rels[n - 1];
        if index::is_last(rels, r, n - 1) && !live.contains(r) {
            front.push(engine::blob_name(dest_path, r))
        } else {
            front
        }
    }
}

proof fn lemma_blob_name_injective(prefix: Seq<char>, a: Seq<char>, b: Seq<char>)
    requires
        engine::blob_name(prefix, a) == engine::blob_name(prefix, b),
    ensures
        a == b,
{
    if prefix.len() > 0 {
        let head = text::trimmed_end_of(prefix, '/') + "/"@;
        let n = head.len() as int;
        assert((head + a).skip(n) =~= a);
        assert((head + b).skip(n) =~= b);
    }
}

proof fn lemma_stale_names(
    rels: Seq<Seq<char>>,
    live: Seq<Seq<char>>,
    n: nat,
    dest_path: Seq<char>,
    rel: Seq<char>,
)
    requires
        n <= rels.len(),
    ensures
        stale_names(rels, live, n, dest_path).contains(engine::blob_name(dest_path, rel)) <==> (
        exists|i: int| 0 <= i < n && #[trigger] index::is_last(rels, rel, i)) && !live.contains(
            rel,
        ),
    decreases n,
{
    let name = engine::blob_name(dest_path, rel);
    let all = stale_names(rels, live, n, dest_path);
    if n > 0 {
        let m = (n - 1) as nat;
        let front = stale_names(rels, live, m, dest_path);
        lemma_stale_names(rels, live, m, dest_path, rel);
        let r = rels[n - 1];
        if front.contains(name) {
            let k = front.index_of(name);
            assert(all[k] == name);
        }
        if index::is_last(rels, rel, n - 1) && !live.contains(rel) {
            assert(r == rel);
            assert(all.last() == name);
            assert(all.contains(name));
        }
        if all.contains(name) && !front.contains(name) {
            let k = all.index_of(name);
            if k < front.len() {
                assert(front[k] == name);
            }
            lemma_blob_name_injective(dest_path, r, rel);
        }
    }
}

/// Of the blobs that were listed, exactly those are deleted whose path is not among the files.
pub proof fn law_only_orphans_are_deleted(
    rels: Seq<Seq<char>>,
    live: Seq<Seq<char>>,
    dest_path: Seq<char>,
    rel: Seq<char>,
)
    requires
        rels.contains(rel),
    ensures
        stale_names(rels, live, rels.len(), dest_path).contains(engine::blob_name(dest_path, rel))
            <==> !live.contains(rel),
{
    lemma_stale_names(rels, live, rels.len(), dest_path, rel);
    index::lemma_has_last(rels, rel, rels.index_of(rel));
}

/// Whether a file or blob has to be transferred.
#[derive(Debug, Clone, Copy, PartialEq, Eq)]
pub enum Verdict {
    Transfer,
    Unchanged,
    /// The digest of the local file decides.
    NeedsDigest,
}

/// Whether a file has to be uploaded.
pub open spec fn upload_verdict(
    method: CompareMethod,
    size: u64,
    modified: Option<Timestamp>,
    remote: Option<RemoteRecord>,
    digest: Option<Seq<char>>,
) -> Verdict {
    match remote {
        None => Verdict::Transfer,
        Some(r) => match method {
            CompareMethod::Always => Verdict::Transfer,
            CompareMethod::Size => if r.size != size {
                Verdict::Transfer
            } else {
                Verdict::Unchanged
            },
            CompareMethod::SizeAndMtime => if r.size != size {
                Verdict::Transfer
            } else {
                match (modified, r.last_modified) {
                    (Some(l), Some(m)) => if l.secs > m.secs {
                        Verdict::Transfer
                    } else {
                        Verdict::Unchanged
                    },
                    _ => Verdict::Transfer,
                }
            },
            CompareMethod::Md5 => digest_verdict(size, r.size, text::opt_view(r.md5_b64), digest),
        },
    }
}

/// Whether content has changed, by digest.
pub open spec fn digest_verdict(
    local_size: u64,
    remote_size: u64,
    stored: Option<Seq<char>>,
    digest: Option<Seq<char>>,
) -> Verdict {
    if local_size != remote_size || stored is None {
        Verdict::Transfer
    } else {
        match digest {
            None => Verdict::NeedsDigest,
            Some(d) => if d == stored->0 {
                Verdict::Unchanged
            } else {
                Verdict::Transfer
            },
        }
    }
}

fn by_digest(
    local_size: u64,
    remote_size: u64,
    stored: &Option<String>,
    digest: &Option<String>,
) -> (out: Verdict)
    ensures
        out == digest_verdict(
            local_size,
            remote_size,
            text::opt_view(*stored),
            text::opt_view(*digest),
        ),
{
    if local_size != remote_size {
        return Verdict::Transfer;
    }
    match stored {
        None => Verdict::Transfer,
        Some(s) => match digest {
            None => Verdict::NeedsDigest,
            Some(d) => {
                if same_text(d.as_str(), s.as_str()) {
                    Verdict::Unchanged
                } else {
                    Verdict::Transfer
                }
            },
        },
    }
}

/// Whether a file has to be uploaded. Times are compared by whole seconds, which is what a
/// listing gives.
pub fn needs_upload(
    method: CompareMethod,
    local: &LocalEntry,
    remote: Option<&RemoteRecord>,
    digest: &Option<String>,
) -> (out: Verdict)
    ensures
        out == upload_verdict(
            method,
            local.size,
            local.modified,
            match remote {
                Some(r) => Some(*r),
                None => None,
            },
            text::opt_view(*digest),
        ),
{
    let r = match remote {
        Some(r) => r,
        None => return Verdict::Transfer,
    };
    match method {
        CompareMethod::Always => Verdict::Transfer,
        CompareMethod::Size => {
            if r.size != local.size {
                Verdict::Transfer
            } else {
                Verdict::Unchanged
            }
        },
        CompareMethod::SizeAndMtime => {
            if r.size != local.size {
                return Verdict::Transfer;
            }
            match (&local.modified, &r.last_modified) {
                (Some(l), Some(m)) => {
                    if l.secs > m.secs {
                        Verdict::Transfer
                    } else {
                        Verdict::Unchanged
                    }
                },
                _ => Verdict::Transfer,
            }
        },
        CompareMethod::Md5 => by_digest(local.size, r.size, &r.md5_b64, digest),
    }
}

/// Whether a blob has to be downloaded.
pub open spec fn download_verdict(
    method: CompareMethod,
    remote: RemoteRecord,
    local: Option<LocalEntry>,
    digest: Option<Seq<char>>,
) -> Verdict {
    match local {
        None => Verdict::Transfer,
        Some(l) => match method {
            CompareMethod::Always => Verdict::Transfer,
            CompareMethod::Size => if l.size != remote.size {
                Verdict::Transfer
            } else {
                Verdict::Unchanged
            },
            CompareMethod::SizeAndMtime => if l.size != remote.size {
                Verdict::Transfer
            } else {
                match (l.modified, remote.last_modified) {
                    (Some(t), Some(m)) => if local::after(m, t) {
                        Verdict::Transfer
                    } else {
                        Verdict::Unchanged
                    },
                    _ => Verdict::Transfer,
                }
            },
            CompareMethod::Md5 => digest_verdict(
                l.size,
                remote.size,
                text::opt_view(remote.md5_b64),
                digest,
            ),
        },
    }
}

/// Whether a blob has to be downloaded.
pub fn needs_download(
    method: CompareMethod,
    remote: &RemoteRecord,
    local: Option<&LocalEntry>,
    digest: &Option<String>,
) -> (out: Verdict)
    ensures
        out == download_verdict(
            method,
            *remote,
            match local {
                Some(l) => Some(*l),
                None => None,
            },
            text::opt_view(*digest),
        ),
{
    let l = match local {
        Some(l) => l,
        None => return Verdict::Transfer,
    };
    match method {
        CompareMethod::Always => Verdict::Transfer,
        CompareMethod::Size => {
            if l.size != remote.size {
                Verdict::Transfer
            } else {
                Verdict::Unchanged
            }
        },
        CompareMethod::SizeAndMtime => {
            if l.size != remote.size {
                return Verdict::Transfer;
            }
            match (&l.modified, &remote.last_modified) {
                (Some(t), Some(m)) => {
                    if m.is_after(t) {
                        Verdict::Transfer
                    } else {
                        Verdict::Unchanged
                    }
                },
                _ => Verdict::Transfer,
            }
        },
        CompareMethod::Md5 => by_digest(l.size, remote.size, &remote.md5_b64, digest),
    }
}

/// What is missing at the destination, or has another size there, is transferred whatever the
/// method.
pub proof fn law_missing_or_resized_is_transferred(
    method: CompareMethod,
    entry: LocalEntry,
    record: RemoteRecord,
    digest: Option<Seq<char>>,
)
    ensures
        upload_verdict(method, entry.size, entry.modified, None, digest) == Verdict::Transfer,
        download_verdict(method, record, None, digest) == Verdict::Transfer,
        entry.size != record.size ==> upload_verdict(
            method,
            entry.size,
            entry.modified,
            Some(record),
            digest,
        ) == Verdict::Transfer,
        entry.size != record.size ==> download_verdict(method, record, Some(entry), digest)
            == Verdict::Transfer,
{
}

/// Once the digest is known there is a verdict.
pub proof fn law_digest_decides(
    method: CompareMethod,
    size: u64,
    modified: Option<Timestamp>,
    remote: Option<RemoteRecord>,
    record: RemoteRecord,
    entry: Option<LocalEntry>,
    digest: Seq<char>,
)
    ensures
        upload_verdict(method, size, modified, remote, Some(digest)) != Verdict::NeedsDigest,
        download_verdict(method, record, entry, Some(digest)) != Verdict::NeedsDigest,
{
}

/// Right after a transfer nothing is transferred again: a blob of the same size that is not
/// older than the file, or has the digest of the file, counts as unchanged.
pub proof fn law_uploaded_is_unchanged(
    size: u64,
    modified: Timestamp,
    remote: RemoteRecord,
    digest: Seq<char>,
)
    requires
        remote.size == size,
        remote.last_modified is Some,
        remote.last_modified->0.secs >= modified.secs,
        text::opt_view(remote.md5_b64) == Some(digest),
    ensures
        upload_verdict(CompareMethod::Size, size, Some(modified), Some(remote), None)
            == Verdict::Unchanged,
        upload_verdict(CompareMethod::SizeAndMtime, size, Some(modified), Some(remote), None)
            == Verdict::Unchanged,
        upload_verdict(CompareMethod::Md5, size, Some(modified), Some(remote), Some(digest))
            == Verdict::Unchanged,
{
}

/// Right after a transfer nothing is transferred again: a file of the same size that is not
/// older than the blob, or has its digest, counts as unchanged.
pub proof fn law_downloaded_is_unchanged(
    remote: RemoteRecord,
    entry: LocalEntry,
    digest: Seq<char>,
)
    requires
        entry.size == remote.size,
        entry.modified is Some,
        remote.last_modified is Some,
        !local::after(remote.last_modified->0, entry.modified->0),
        text::opt_view(remote.md5_b64) == Some(digest),
    ensures
        download_verdict(CompareMethod::Size, remote, Some(entry), None) == Verdict::Unchanged,
        download_verdict(CompareMethod::SizeAndMtime, remote, Some(entry), None)
            == Verdict::Unchanged,
        download_verdict(CompareMethod::Md5, remote, Some(entry), Some(digest))
            == Verdict::Unchanged,
{
}

/// The list of names in a complaint: the first ten, and how many more there are.
pub open spec fn complaint_names(missing: Seq<Seq<char>>) -> Seq<char> {
    let sample = if missing.len() <= 10 {
        missing
    } else {
        missing.take(10)
    };
    let list = text::joined(sample, "\n  - "@);
    if missing.len() > 10 {
        list + "\n  ... and "@ + text::decimal((missing.len() - 10) as nat) + " more"@
    } else {
        list
    }
}

/// What is said where digests are missing.
pub open spec fn digest_complaint(missing: Seq<Seq<char>>, hint: Seq<char>) -> Seq<char> {
    "--compare-method md5 requires Content-MD5 on all remote blobs, but "@ + text::decimal(
        missing.len(),
    ) + " blob(s) are missing it:\n  - "@ + complaint_names(missing) + hint
}

/// The hint of an upload.
pub open spec fn upload_hint() -> Seq<char> {
    "\nhint: re-upload these with 'azcp copy --check-md5 ...' to populate Content-MD5, or use --compare-method size-and-mtime"@
}

/// The hint of a download.
pub open spec fn download_hint() -> Seq<char> {
    "\nhint: re-upload with 'azcp copy --check-md5 ...' or use --compare-method size-and-mtime"@
}

fn complain(missing: &Vec<String>, hint: &str) -> (out: std::result::Result<(), AzcpError>)
    ensures
        match out {
            Ok(_) => missing@.len() == 0,
            Err(AzcpError::Transfer(m)) => missing@.len() > 0 && m@ == digest_complaint(
                text::views(missing@),
                hint@,
            ),
            Err(_) => false,
        },
{
    if missing.len() == 0 {
        return Ok(());
    }
    let ghost all = text::views(missing@);
    let mut sample: Vec<String> = Vec::new();
    let mut i: usize = 0;
    while i < missing.len() && i < 10
        invariant
            i <= missing@.len(),
            i <= 10,
            sample@.len() == i,
            forall|j: int| 0 <= j < i ==> (#[trigger] sample@[j])@ == missing@[j]@,
        decreases missing@.len() - i,
    {
        sample.push(missing[i].clone());
        i += 1;
    }
    assert(text::views(sample@) =~= if all.len() <= 10 {
        all
    } else {
        all.take(10)
    });
    let mut m = owned("--compare-method md5 requires Content-MD5 on all remote blobs, but ");
    m.append(decimal_text(missing.len() as u64).as_str());
    m.append(" blob(s) are missing it:\n  - ");
    let ghost head = m@;
    let mut names = join(&sample, "\n  - ");
    if missing.len() > 10 {
        names.append("\n  ... and ");
        names.append(decimal_text((missing.len() - 10) as u64).as_str());
        names.append(" more");
    }
    assert(names@ == complaint_names(all));
    m.append(names.as_str());
    m.append(hint);
    Err(AzcpError::Transfer(m))
}

/// Whether a blob lacks a digest that a comparison needs: an empty one does not.
pub open spec fn lacks_digest(r: RemoteRecord) -> bool {
    r.size > 0 && r.md5_b64 is None
}

/// Of the first `n` paths, those of blobs that lack their digest.
pub open spec fn undigested(rels: Seq<Seq<char>>, entries: Seq<RemoteRecord>, n: nat) -> Seq<
    Seq<char>,
>
    decreases n,
{
    if n == 0 {
        Seq::empty()
    } else {
        let front = undigested(rels, entries, (n - 1) as nat);
        if lacks_digest(entries[n - 1]) {
            front.push(rels[n - 1])
        } else {
            front
        }
    }
}

/// Refuses an upload by digests where any blob at the destination has none, with or without a
/// file for it.
pub fn md5_preflight(remote: &RemoteIndex) -> (out: std::result::Result<(), AzcpError>)
    requires
        remote.wf(),
    ensures
        match out {
            Ok(_) => undigested(remote.rels(), remote.entries(), remote.rels().len()).len() == 0,
            Err(AzcpError::Transfer(m)) => undigested(
                remote.rels(),
                remote.entries(),
                remote.rels().len(),
            ).len() > 0 && m@ == digest_complaint(
                undigested(remote.rels(), remote.entries(), remote.rels().len()),
                upload_hint(),
            ),
            Err(_) => false,
        },
{
    let mut missing: Vec<String> = Vec::new();
    let mut i: usize = 0;
    let ghost rels = remote.rels();
    let ghost entries = remote.entries();
    assert(text::views(missing@) =~= Seq::<Seq<char>>::empty());
    while i < remote.names.len()
        invariant
            i <= remote.names@.len(),
            remote.wf(),
            rels == remote.rels(),
            rels.len() == remote.names@.len(),
            entries == remote.entries(),
            text::views(missing@) == undigested(rels, entries, i as nat),
        decreases remote.names@.len() - i,
    {
        let r = &remote.records[i];
        assert(*r == entries[i as int]);
        if r.size > 0 && r.md5_b64.is_none() {
            let ghost before = missing@;
            missing.push(remote.names[i].clone());
            assert(text::views(missing@) =~= text::views(before).push(rels[i as int]));
        }
        i += 1;
    }
    let hint =
        "\nhint: re-upload these with 'azcp copy --check-md5 ...' to populate Content-MD5, or use --compare-method size-and-mtime";
    assert(text::views(missing@).len() == missing@.len());
    complain(&missing, hint)
}

/// A sync by digests is refused exactly where some blob of the listing lacks its digest, and the
/// complaint is about just those blobs.
pub proof fn law_any_undigested_blob_is_named(
    rels: Seq<Seq<char>>,
    entries: Seq<RemoteRecord>,
    n: nat,
    name: Seq<char>,
)
    requires
        n <= rels.len(),
        rels.len() == entries.len(),
    ensures
        undigested(rels, entries, n).contains(name) <==> exists|i: int|
            0 <= i < n && #[trigger] rels[i] == name && lacks_digest(entries[i]),
        undigested(rels, entries, n).len() == 0 <==> forall|i: int|
            0 <= i < n ==> !lacks_digest(#[trigger] entries[i]),
    decreases n,
{
    if n > 0 {
        let m = (n - 1) as nat;
        let all = undigested(rels, entries, n);
        let front = undigested(rels, entries, m);
        law_any_undigested_blob_is_named(rels, entries, m, name);
        if front.contains(name) {
            let k = front.index_of(name);
            assert(all[k] == name);
        }
        if lacks_digest(entries[n - 1]) && rels[n - 1] == name {
            assert(all.last() == name);
        }
        if all.contains(name) && !front.contains(name) {
            let k = all.index_of(name);
            if k < front.len() {
                assert(front[k] == name);
            }
            assert(rels[n - 1] == name);
        }
    }
}

/// The blobs without a digest.
pub open spec fn undigested_blobs(blobs: Seq<BlobItem>) -> Seq<Seq<char>>
    decreases blobs.len(),
{
    if blobs.len() == 0 {
        Seq::empty()
    } else {
        let front = undigested_blobs(blobs.drop_last());
        if lacks_digest(record_of(blobs.last())) {
            front.push(blobs.last().name@)
        } else {
            front
        }
    }
}

/// Refuses a download by digests where a blob has none.
pub fn download_preflight(blobs: &Vec<BlobItem>) -> (out: std::result::Result<(), AzcpError>)
    ensures
        match out {
            Ok(_) => undigested_blobs(blobs@).len() == 0,
            Err(AzcpError::Transfer(m)) => undigested_blobs(blobs@).len() > 0 && m@
                == digest_complaint(undigested_blobs(blobs@), download_hint()),
            Err(_) => false,
        },
{
    let mut missing: Vec<String> = Vec::new();
    let mut i: usize = 0;
    assert(blobs@.take(0) =~= Seq::<BlobItem>::empty());
    assert(text::views(missing@) =~= Seq::<Seq<char>>::empty());
    while i < blobs.len()
        invariant
            i <= blobs@.len(),
            text::views(missing@) == undigested_blobs(blobs@.take(i as int)),
        decreases blobs@.len() - i,
    {
        assert(blobs@.take(i + 1).drop_last() =~= blobs@.take(i as int));
        let stored = match &blobs[i].properties {
            Some(p) => p.content_md5.is_some(),
            None => false,
        };
        if item_size(&blobs[i]) > 0 && !stored {
            let ghost before = missing@;
            missing.push(blobs[i].name.clone());
            assert(text::views(missing@) =~= text::views(before).push(blobs@[i as int].name@));
        }
        i += 1;
    }
    assert(blobs@.take(blobs@.len() as int) =~= blobs@);
    assert(text::views(missing@).len() == missing@.len());
    let hint =
        "\nhint: re-upload with 'azcp copy --check-md5 ...' or use --compare-method size-and-mtime";
    complain(&missing, hint)
}

/// The index of the files by their path. Of files with one path the last counts.
pub fn local_index(files: &Vec<LocalEntry>) -> (out: NameIndex)
    ensures
        out.wf(),
        out.names() == files@.map_values(|f: LocalEntry| f.relative_path@),
{
    let mut keys: Vec<Vec<char>> = Vec::new();
    let mut i: usize = 0;
    while i < files.len()
        invariant
            i <= files@.len(),
            keys@.len() == i,
            forall|j: int| 0 <= j < i ==> (#[trigger] keys@[j])@ == files@[j].relative_path@,
        decreases files@.len() - i,
    {
        keys.push(chars_of(files[i].relative_path.as_str()));
        i += 1;
    }
    let out = NameIndex::new(keys);
    assert(out.names() =~= files@.map_values(|f: LocalEntry| f.relative_path@));
    out
}

/// Whether a file stands there for the last time and has no blob.
pub open spec fn is_orphan(files: Seq<LocalEntry>, remote: Seq<Seq<char>>, i: int) -> bool {
    let names = files.map_values(|f: LocalEntry| f.relative_path@);
    index::is_last(names, files[i].relative_path@, i) && !remote.contains(files[i].relative_path@)
}

/// Of the first `n` files, the paths of those that stand there for the last time and have no
/// blob.
pub open spec fn orphans(
    files: Seq<LocalEntry>,
    remote: Seq<Seq<char>>,
    n: nat,
) -> Seq<usize>
    decreases n,
{
    if n == 0 {
        Seq::empty()
    } else {
        let front = orphans(files, remote, (n - 1) as nat);
        if is_orphan(files, remote, n - 1) {
            front.push(files[n - 1].path_id)
        } else {
            front
        }
    }
}

proof fn lemma_orphans(files: Seq<LocalEntry>, remote: Seq<Seq<char>>, n: nat, id: usize)
    requires
        n <= files.len(),
    ensures
        orphans(files, remote, n).contains(id) <==> exists|i: int|
            0 <= i < n && #[trigger] is_orphan(files, remote, i) && files[i].path_id == id,
    decreases n,
{
    let all = orphans(files, remote, n);
    if n > 0 {
        let m = (n - 1) as nat;
        let front = orphans(files, remote, m);
        lemma_orphans(files, remote, m, id);
        if front.contains(id) {
            let k = front.index_of(id);
            assert(all[k] == id);
        }
        if is_orphan(files, remote, n - 1) && files[n - 1].path_id == id {
            assert(all.last() == id);
        }
        if all.contains(id) && !front.contains(id) {
            let k = all.index_of(id);
            if k < front.len() {
                assert(front[k] == id);
            }
            assert(is_orphan(files, remote, n - 1));
        }
    }
}

/// Only files without a blob are deleted, and of each path without a blob a file is.
pub proof fn law_only_orphan_files_are_deleted(
    files: Seq<LocalEntry>,
    remote: Seq<Seq<char>>,
    id: usize,
    i: int,
)
    requires
        0 <= i < files.len(),
    ensures
        orphans(files, remote, files.len()).contains(id) ==> exists|k: int|
            0 <= k < files.len() && (#[trigger] files[k]).path_id == id && !remote.contains(
                files[k].relative_path@,
            ),
        !remote.contains(files[i].relative_path@) ==> exists|k: int|
            0 <= k < files.len() && (#[trigger] files[k]).relative_path@ == files[i].relative_path@
                && orphans(files, remote, files.len()).contains(files[k].path_id),
{
    let names = files.map_values(|f: LocalEntry| f.relative_path@);
    let name = files[i].relative_path@;
    lemma_orphans(files, remote, files.len(), id);
    assert(names[i] == name);
    index::lemma_has_last(names, name, i);
    let k = choose|k: int| #[trigger] index::is_last(names, name, k);
    if !remote.contains(name) {
        assert(names[k] == files[k].relative_path@);
        assert(is_orphan(files, remote, k));
        lemma_orphans(files, remote, files.len(), files[k].path_id);
    }
}

/// The files that have no blob any more.
pub fn stale_files(files: &Vec<LocalEntry>, remote: &RemoteIndex) -> (out: Vec<usize>)
    requires
        remote.wf(),
    ensures
        out@ == orphans(files@, remote.rels(), files@.len()),
{
    let mine = local_index(files);
    let mut out: Vec<usize> = Vec::new();
    let mut i: usize = 0;
    let ghost names = files@.map_values(|f: LocalEntry| f.relative_path@);
    while i < files.len()
        invariant
            i <= files@.len(),
            remote.wf(),
            mine.wf(),
            mine.names() == names,
            names == files@.map_values(|f: LocalEntry| f.relative_path@),
            out@ == orphans(files@, remote.rels(), i as nat),
        decreases files@.len() - i,
    {
        let key = chars_of(files[i].relative_path.as_str());
        assert(key@ == names[i as int]);
        let is_last = match mine.find(&key) {
            Some(k) => {
                proof {
                    if index::is_last(names, key@, i as int) {
                        assert(k == i);
                    }
                }
                k == i
            },
            None => {
                assert(names.contains(names[i as int]));
                false
            },
        };
        let gone = remote.get(files[i].relative_path.as_str()).is_none();
        proof {
            if !gone {
                assert(remote.rels().contains(key@));
            }
        }
        if is_last && gone {
            out.push(files[i].path_id);
        }
        i += 1;
    }
    out
}

/// What is said at the end of a sync. `verb` is `uploaded` or `downloaded`.
pub fn sync_footer(planned: u64, done: u64, verb: &str, unchanged: u64) -> (out: String)
    ensures
        out@ == "Sync complete: "@ + text::decimal(planned as nat) + " planned, "@ + text::decimal(
            done as nat,
        ) + " "@ + verb@ + ", "@ + text::decimal(unchanged as nat) + " unchanged"@,
{
    let mut out = owned("Sync complete: ");
    out.append(decimal_text(planned).as_str());
    out.append(" planned, ");
    out.append(decimal_text(done).as_str());
    out.append(" ");
    out.append(verb);
    out.append(", ");
    out.append(decimal_text(unchanged).as_str());
    out.append(" unchanged");
    out
}

/// A blob below the destination is deleted exactly where no file has its path.
pub proof fn law_a_blob_is_deleted_where_its_file_is_gone(
    blobs: Seq<BlobItem>,
    files: Seq<LocalEntry>,
    dest: Seq<char>,
    rel: Seq<char>,
    j: int,
)
    requires
        0 <= j < blobs.len(),
        dest.len() > 0,
        dest.last() != '/',
        rel.len() > 0,
        rel[0] != '/',
        blobs[j].name@ == dest + seq!['/'] + rel,
    ensures
        stale_names(
            rel_names(blobs, dest),
            files.map_values(|f: LocalEntry| f.relative_path@),
            blobs.len(),
            dest,
        ).contains(blobs[j].name@) <==> forall|i: int|
            0 <= i < files.len() ==> (#[trigger] files[i]).relative_path@ != rel,
{
    let rels = rel_names(blobs, dest);
    let live = files.map_values(|f: LocalEntry| f.relative_path@);
    paths::law_local_path_is_the_rest_of_the_name(dest, rel);
    engine::law_blob_names_are_below_their_prefix(dest, rel);
    assert(rels[j] == rel);
    assert(rels.contains(rel));
    law_only_orphans_are_deleted(rels, live, dest, rel);
    if live.contains(rel) {
        let i = live.index_of(rel);
        assert(files[i].relative_path@ == rel);
    } else {
        assert forall|i: int| 0 <= i < files.len() implies (#[trigger] files[i]).relative_path@
            != rel by {
            assert(live[i] == files[i].relative_path@);
            assert(live.contains(live[i]));
        }
    }
}

/// What is deleted was listed, and has no file.
pub proof fn law_what_is_deleted_was_listed(
    rels: Seq<Seq<char>>,
    live: Seq<Seq<char>>,
    n: nat,
    dest: Seq<char>,
    name: Seq<char>,
)
    requires
        n <= rels.len(),
        stale_names(rels, live, n, dest).contains(name),
    ensures
        exists|i: int|
            0 <= i < n && name == engine::blob_name(dest, #[trigger] rels[i]) && !live.contains(
                rels[i],
            ),
    decreases n,
{
    if n > 0 {
        let all = stale_names(rels, live, n, dest);
        let front = stale_names(rels, live, (n - 1) as nat, dest);
        if front.contains(name) {
            law_what_is_deleted_was_listed(rels, live, (n - 1) as nat, dest, name);
        } else {
            let k = all.index_of(name);
            if k < front.len() {
                assert(front[k] == name);
            }
            assert(name == engine::blob_name(dest, rels[n - 1]));
        }
    }
}

/// No blob is deleted twice.
pub proof fn law_nothing_is_deleted_twice(
    rels: Seq<Seq<char>>,
    live: Seq<Seq<char>>,
    n: nat,
    dest: Seq<char>,
)
    requires
        n <= rels.len(),
    ensures
        stale_names(rels, live, n, dest).no_duplicates(),
    decreases n,
{
    if n > 0 {
        let m = (n - 1) as nat;
        let front = stale_names(rels, live, m, dest);
        let r = rels[n - 1];
        let name = engine::blob_name(dest, r);
        law_nothing_is_deleted_twice(rels, live, m, dest);
        if index::is_last(rels, r, n - 1) {
            if front.contains(name) {
                lemma_stale_names(rels, live, m, dest, r);
                let i = choose|i: int| 0 <= i < m && #[trigger] index::is_last(rels, r, i);
                assert(rels[n - 1] != r);
            }
            assert forall|a: int, b: int| 0 <= a < front.len() && b == front.len() implies front.push(
                name,
            )[a] != front.push(name)[b] by {
                assert(front.contains(front[a]));
            }
        }
    }
}

/// A download by digests is refused exactly where a blob that is not empty has no digest, and
/// the complaint is about just those blobs.
pub proof fn law_any_undigested_blob_of_a_download_is_named(blobs: Seq<BlobItem>, b: BlobItem)
    ensures
        blobs.contains(b) && b.properties is Some && b.properties->0.content_length is Some
            && b.properties->0.content_length->0 > 0 && b.properties->0.content_md5 is None
            ==> undigested_blobs(blobs).contains(b.name@),
        (forall|i: int|
            0 <= i < blobs.len() ==> ((#[trigger] blobs[i]).properties matches Some(p) ==> (
            p.content_length matches Some(n) ==> n == 0 || p.content_md5 is Some)))
            ==> undigested_blobs(blobs).len() == 0,
    decreases blobs.len(),
{
    if blobs.len() > 0 {
        let front = blobs.drop_last();
        law_any_undigested_blob_of_a_download_is_named(front, b);
        if blobs.contains(b) {
            let i = blobs.index_of(b);
            if i < front.len() {
                assert(front[i] == b);
                if undigested_blobs(front).contains(b.name@) {
                    let k = undigested_blobs(front).index_of(b.name@);
                    assert(undigested_blobs(blobs)[k] == b.name@);
                }
            } else if lacks_digest(record_of(b)) {
                assert(undigested_blobs(blobs).last() == b.name@);
            }
        }
        if forall|i: int|
            0 <= i < blobs.len() ==> ((#[trigger] blobs[i]).properties matches Some(p) ==> (
            p.content_length matches Some(n) ==> n == 0 || p.content_md5 is Some)) {
            assert forall|i: int| 0 <= i < front.len() implies ((
            #[trigger] front[i]).properties matches Some(p) ==> (p.content_length matches Some(n)
                ==> n == 0 || p.content_md5 is Some)) by {
                assert(front[i] == blobs[i]);
            }
            assert(blobs[blobs.len() - 1] == blobs.last());
        }
    }
}

/// A complaint about missing digests tells how many there are and names the first ten, and how
/// many more there are where there are more.
pub proof fn law_complaints_name_the_first_ten(missing: Seq<Seq<char>>, hint: Seq<char>)
    requires
        missing.len() > 0,
    ensures
        missing.len() <= 10 ==> digest_complaint(missing, hint)
            == "--compare-method md5 requires Content-MD5 on all remote blobs, but "@
            + text::decimal(missing.len()) + " blob(s) are missing it:\n  - "@ + text::joined(
            missing,
            "\n  - "@,
        ) + hint,
        missing.len() > 10 ==> digest_complaint(missing, hint)
            == "--compare-method md5 requires Content-MD5 on all remote blobs, but "@
            + text::decimal(missing.len()) + " blob(s) are missing it:\n  - "@ + (text::joined(
            missing.subrange(0, 10),
            "\n  - "@,
        ) + "\n  ... and "@ + text::decimal((missing.len() - 10) as nat) + " more"@) + hint,
{
    if missing.len() > 10 {
        assert(missing.take(10) =~= missing.subrange(0, 10));
    }
}

/// What a sync knows of a blob is what the listing gives: its size, its time where that is a
/// date, and its digest.
pub proof fn law_records_are_what_is_listed(blobs: Seq<BlobItem>, i: int)
    requires
        0 <= i < blobs.len(),
    ensures
        records_of(blobs).len() == blobs.len(),
        blobs[i].properties matches Some(p) ==> {
            &&& p.content_length matches Some(n) ==> records_of(blobs)[i].size == n
            &&& p.content_length is None ==> records_of(blobs)[i].size == 0
            &&& records_of(blobs)[i].md5_b64 == p.content_md5
            &&& p.last_modified is None ==> records_of(blobs)[i].last_modified is None
            &&& p.last_modified matches Some(t) ==> match rfc2822_time(t@) {
                Some(x) => records_of(blobs)[i].last_modified == Some(
                    Timestamp { secs: x.0, nanos: x.1 },
                ),
                None => records_of(blobs)[i].last_modified is None,
            }
        },
        blobs[i].properties is None ==> records_of(blobs)[i].size == 0
            && records_of(blobs)[i].md5_b64 is None && records_of(blobs)[i].last_modified is None,
{
}

/// A blob lacks a digest exactly where it has bytes and no digest is stored with it.
pub proof fn law_empty_blobs_need_no_digest(r: RemoteRecord)
    ensures
        r.size == 0 ==> !lacks_digest(r),
        r.md5_b64 is Some ==> !lacks_digest(r),
        r.size > 0 && r.md5_b64 is None ==> lacks_digest(r),
{
}

} // verus!
