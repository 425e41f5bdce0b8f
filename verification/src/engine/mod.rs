//! The transfer engine: what is transferred, in which pieces, and by whom.
pub mod globs;
pub mod index;
pub mod lpt;
pub mod progress;
pub mod rate_limiter;
pub mod transfer;

use crate::cluster::paths;
use crate::cluster::paths::rel_below;
use crate::cluster::stages::shards;
use crate::encoding;
use crate::encoding::{base64_encode, digest_of, hashed_digest, Hasher};
use crate::engine::globs::Filter;
use crate::engine::lpt::{apply_shard, keep_owned};
use crate::error::AzcpError;
use crate::storage::blob::client;
use crate::storage::blob::models;
use crate::storage::blob::models::{item_size, BlobItem, BlockListEntry, UploadOptions};
use crate::storage::local;
use crate::storage::local::LocalEntry;
use crate::text;
use crate::text::{chars_of, decimal_chars, owned, same_text, string_of, trim_end_of};
use vstd::prelude::*;

verus! {

/// What a transfer came to.
#[derive(Debug)]
pub struct TransferSummary {
    pub total_files: u64,
    pub total_bytes: u64,
    pub succeeded: u64,
    pub failed: u64,
    pub skipped: u64,
}

impl Clone for TransferSummary {
    fn clone(&self) -> (out: Self)
        ensures
            out == *self,
    {
        TransferSummary {
            total_files: self.total_files,
            total_bytes: self.total_bytes,
            succeeded: self.succeeded,
            failed: self.failed,
            skipped: self.skipped,
        }
    }
}

/// The sum of the numbers.
pub open spec fn sum(s: Seq<u64>) -> nat
    decreases s.len(),
{
    if s.len() == 0 {
        0
    } else {
        sum(s.drop_last()) + s.last() as nat
    }
}

/// The sum of the first numbers is at most the sum of all.
pub proof fn lemma_sum_grows(s: Seq<u64>, n: int)
    requires
        0 <= n <= s.len(),
    ensures
        sum(s.take(n)) <= sum(s),
    decreases s.len(),
{
    if n < s.len() {
        lemma_sum_grows(s.drop_last(), n);
        assert(s.drop_last().take(n) =~= s.take(n));
    } else {
        assert(s.take(n) =~= s);
    }
}

/// The summary of a run that only says what it would do: everything counts as done.
pub open spec fn dry_run_summary(total_files: u64, total_bytes: u64) -> TransferSummary {
    TransferSummary { total_files, total_bytes, succeeded: total_files, failed: 0, skipped: 0 }
}

/// How the transfer of one file ended.
pub enum Outcome {
    Done,
    /// The destination exists and must not be overwritten.
    Exists,
    Failed,
}

/// How many outcomes are of each kind: done, failed, skipped.
pub open spec fn outcome_counts(outcomes: Seq<Outcome>) -> (nat, nat, nat)
    decreases outcomes.len(),
{
    if outcomes.len() == 0 {
        (0, 0, 0)
    } else {
        let c = outcome_counts(outcomes.drop_last());
        match outcomes.last() {
            Outcome::Done => (c.0 + 1, c.1, c.2),
            Outcome::Failed => (c.0, c.1 + 1, c.2),
            Outcome::Exists => (c.0, c.1, c.2 + 1),
        }
    }
}

/// Every outcome is counted once.
pub proof fn law_every_outcome_is_counted(outcomes: Seq<Outcome>)
    ensures
        outcome_counts(outcomes).0 + outcome_counts(outcomes).1 + outcome_counts(outcomes).2
            == outcomes.len(),
    decreases outcomes.len(),
{
    if outcomes.len() > 0 {
        law_every_outcome_is_counted(outcomes.drop_last());
    }
}

/// The summary of a run by its outcomes.
pub fn summarize(total_files: u64, total_bytes: u64, outcomes: &Vec<Outcome>) -> (out:
    TransferSummary)
    ensures
        out.total_files == total_files,
        out.total_bytes == total_bytes,
        out.succeeded == outcome_counts(outcomes@).0,
        out.failed == outcome_counts(outcomes@).1,
        out.skipped == outcome_counts(outcomes@).2,
{
    let mut succeeded: u64 = 0;
    let mut failed: u64 = 0;
    let mut skipped: u64 = 0;
    let mut i: usize = 0;
    assert(outcomes@.take(0) =~= Seq::<Outcome>::empty());
    while i < outcomes.len()
        invariant
            i <= outcomes@.len(),
            (succeeded as nat, failed as nat, skipped as nat) == outcome_counts(
                outcomes@.take(i as int),
            ),
            succeeded + failed + skipped == i,
        decreases outcomes@.len() - i,
    {
        assert(outcomes@.take(i + 1).drop_last() =~= outcomes@.take(i as int));
        match &outcomes[i] {
            Outcome::Done => {
                succeeded += 1;
            },
            Outcome::Failed => {
                failed += 1;
            },
            Outcome::Exists => {
                skipped += 1;
            },
        }
        i += 1;
    }
    assert(outcomes@.take(outcomes@.len() as int) =~= outcomes@);
    TransferSummary { total_files, total_bytes, succeeded, failed, skipped }
}

/// The summary of a run that only says what it would do.
pub fn summarize_dry_run(total_files: u64, total_bytes: u64) -> (out: TransferSummary)
    ensures
        out == dry_run_summary(total_files, total_bytes),
{
    TransferSummary { total_files, total_bytes, succeeded: total_files, failed: 0, skipped: 0 }
}

/// What a transfer came to: a destination that exists already is passed over, not failed.
pub open spec fn outcome_of(result: std::result::Result<(), AzcpError>) -> Outcome {
    match result {
        Ok(_) => Outcome::Done,
        Err(AzcpError::AlreadyExists(_)) => Outcome::Exists,
        Err(_) => Outcome::Failed,
    }
}

/// What an upload came to.
pub fn upload_outcome(result: &std::result::Result<(), AzcpError>) -> (out: Outcome)
    ensures
        out == outcome_of(*result),
{
    match result {
        Ok(_) => Outcome::Done,
        Err(AzcpError::AlreadyExists(_)) => Outcome::Exists,
        Err(_) => Outcome::Failed,
    }
}

/// What a download came to.
pub fn download_outcome(result: &std::result::Result<(), AzcpError>) -> (out: Outcome)
    ensures
        out == outcome_of(*result),
{
    upload_outcome(result)
}

/// The first of the errors, if any.
pub open spec fn first_failure(
    results: Seq<std::result::Result<(), AzcpError>>,
) -> std::result::Result<(), AzcpError>
    decreases results.len(),
{
    if results.len() == 0 {
        Ok(())
    } else if results[0] is Err {
        results[0]
    } else {
        first_failure(results.drop_first())
    }
}

/// What the parts of a file came to together: the first of their errors, if any.
pub fn join_parts(results: Vec<std::result::Result<(), AzcpError>>) -> (out: std::result::Result<
    (),
    AzcpError,
>)
    ensures
        out == first_failure(results@),
{
    let mut rest = results;
    let ghost all = rest@;
    let mut out: std::result::Result<(), AzcpError> = Ok(());
    assert(all.skip(all.len() as int) =~= Seq::empty());
    while rest.len() > 0
        invariant
            rest@.len() <= all.len(),
            rest@ == all.take(rest@.len() as int),
            out == first_failure(all.skip(rest@.len() as int)),
        decreases rest@.len(),
    {
        let ghost n = rest@.len();
        match rest.pop() {
            Some(r) => {
                assert(all.skip(n - 1).drop_first() =~= all.skip(n as int));
                assert(all.skip(n - 1)[0] == r);
                if r.is_err() {
                    out = r;
                }
            },
            None => {},
        }
        assert(rest@ == all.take(rest@.len() as int));
    }
    assert(all.skip(0) =~= all);
    out
}

/// A block of a file.
#[derive(Debug)]
pub struct Block {
    pub id: String,
    pub offset: u64,
    pub len: u64,
}

/// Whether a file is transferred in blocks, not as a whole: where it is not smaller than a
/// block.
pub open spec fn in_blocks(size: u64, block_size: u64) -> bool {
    size != 0 && size >= block_size
}

pub fn uses_blocks(size: u64, block_size: u64) -> (out: bool)
    ensures
        out == in_blocks(size, block_size),
{
    !(size == 0 || size < block_size)
}

/// `n` zeros.
pub open spec fn zeros(n: nat) -> Seq<u8> {
    Seq::new(n, |i: int| 48u8)
}

/// The ASCII bytes of digits.
pub open spec fn digit_bytes(s: Seq<char>) -> Seq<u8> {
    s.map_values(|c: char| c as u8)
}

/// The bytes of a number with at least six digits.
pub open spec fn padded(i: nat) -> Seq<u8> {
    let d = digit_bytes(text::decimal(i));
    if d.len() < 6 {
        zeros((6 - d.len()) as nat) + d
    } else {
        d
    }
}

/// The identifier of block `i`.
pub open spec fn block_id_of(i: nat) -> Seq<char> {
    encoding::base64_of(padded(i))
}

/// The identifier of block `i`: its number with six digits, in base64.
pub fn block_id(i: usize) -> (out: String)
    ensures
        out@ == block_id_of(i as nat),
{
    let chars = decimal_chars(i as u64);
    let ghost d = digit_bytes(text::decimal(i as nat));
    let mut bytes: Vec<u8> = Vec::new();
    if chars.len() < 6 {
        let mut k: usize = 0;
        let pad: usize = 6 - chars.len();
        while k < pad
            invariant
                k <= pad,
                bytes@ == zeros(k as nat),
            decreases pad - k,
        {
            bytes.push(48);
            assert(bytes@ =~= zeros((k + 1) as nat));
            k += 1;
        }
    }
    let ghost front = bytes@;
    let mut k: usize = 0;
    proof {
        text::lemma_decimal_digits(i as nat);
        assert(front + d.take(0) =~= front);
    }
    while k < chars.len()
        invariant
            k <= chars@.len(),
            chars@ == text::decimal(i as nat),
            d == digit_bytes(chars@),
            text::all_digits(chars@),
            bytes@ == front + d.take(k as int),
        decreases chars@.len() - k,
    {
        assert(text::is_digit(chars@[k as int]));
        bytes.push(chars[k] as u8);
        assert(d.take(k + 1) =~= d.take(k as int).push(d[k as int]));
        assert(bytes@ =~= front + d.take(k + 1));
        k += 1;
    }
    assert(d.take(d.len() as int) =~= d);
    assert(bytes@ =~= padded(i as nat));
    proof {
        assert(crate::binary64::tens(20) > u64::MAX) by {
            reveal_with_fuel(crate::binary64::tens, 21);
        }
        lemma_digits_length(i as nat, 20);
    }
    base64_encode(bytes.as_slice())
}

/// The blocks of a file.
pub open spec fn is_block_plan(size: u64, block_size: u64, blocks: Seq<Block>) -> bool {
    &&& blocks.len() == shards::piece_count(size, block_size)
    &&& forall|i: int|
        0 <= i < blocks.len() ==> {
            let p = shards::piece_of(0, size, block_size, i);
            &&& (#[trigger] blocks[i]).id@ == block_id_of(i as nat)
            &&& blocks[i].offset == p.byte_offset
            &&& blocks[i].len == p.byte_len
        }
}

/// Splits a file into blocks of `block_size` bytes, the last one with what is left.
pub fn plan_blocks(size: u64, block_size: u64) -> (out: Vec<Block>)
    requires
        block_size > 0,
        in_blocks(size, block_size),
        shards::piece_count(size, block_size) <= usize::MAX,
    ensures
        is_block_plan(size, block_size, out@),
{
    let mut out: Vec<Block> = Vec::new();
    let mut offset: u64 = 0;
    proof {
        shards::lemma_piece_count(size, block_size);
        assert(0 * block_size == 0) by (nonlinear_arith);
    }
    while offset < size
        invariant
            block_size > 0,
            in_blocks(size, block_size),
            shards::piece_count(size, block_size) <= usize::MAX,
            offset <= size,
            out@.len() <= shards::piece_count(size, block_size),
            offset < size ==> out@.len() < shards::piece_count(size, block_size) && offset
                == out@.len() * block_size,
            offset == size ==> out@.len() == shards::piece_count(size, block_size),
            forall|i: int|
                0 <= i < out@.len() ==> {
                    let p = shards::piece_of(0, size, block_size, i);
                    &&& (#[trigger] out@[i]).id@ == block_id_of(i as nat)
                    &&& out@[i].offset == p.byte_offset
                    &&& out@[i].len == p.byte_len
                },
        decreases size - offset,
    {
        let i: usize = out.len();
        let rest: u64 = size - offset;
        let len: u64 = if rest <= block_size {
            rest
        } else {
            block_size
        };
        proof {
            shards::law_pieces_cover_file(0, size, block_size, i as int);
            shards::law_piece_lengths(0, size, block_size, i as int);
            if i + 1 < shards::piece_count(size, block_size) {
                shards::lemma_piece_bounds(size, block_size, i + 1);
            }
            assert((i + 1) * block_size == i * block_size + block_size) by (nonlinear_arith);
        }
        out.push(Block { id: block_id(i), offset, len });
        offset = offset + len;
    }
    out
}

/// The identifiers of the blocks, in order.
pub fn block_entries(blocks: &Vec<Block>) -> (out: Vec<BlockListEntry>)
    ensures
        out@.len() == blocks@.len(),
        forall|i: int| 0 <= i < out@.len() ==> (#[trigger] out@[i]).id@ == blocks@[i].id@,
{
    let mut out: Vec<BlockListEntry> = Vec::new();
    let mut i: usize = 0;
    while i < blocks.len()
        invariant
            i <= blocks@.len(),
            out@.len() == i,
            forall|j: int| 0 <= j < i ==> (#[trigger] out@[j]).id@ == blocks@[j].id@,
        decreases blocks@.len() - i,
    {
        out.push(BlockListEntry { id: blocks[i].id.clone() });
        i += 1;
    }
    out
}

proof fn lemma_digits_length(n: nat, k: nat)
    requires
        n < crate::binary64::tens(k),
        k >= 1,
    ensures
        text::decimal(n).len() <= k,
    decreases k,
{
    if n >= 10 {
        assert(k >= 2) by {
            if k == 1 {
                assert(crate::binary64::tens(0) == 1);
                assert(crate::binary64::tens(1) == 10);
            }
        }
        lemma_digits_length(n / 10, (k - 1) as nat);
    }
}

proof fn lemma_padded(i: nat)
    requires
        i < 1_000_000,
    ensures
        padded(i).len() == 6,
        padded_value(padded(i)) == i,
{
    assert(crate::binary64::tens(6) == 1_000_000) by {
        reveal_with_fuel(crate::binary64::tens, 7);
    }
    lemma_digits_length(i, 6);
    text::lemma_decimal_digits(i);
    let d = text::decimal(i);
    text::law_decimal_parses_back(i, i);
    lemma_digit_bytes_value(d);
    let b = digit_bytes(d);
    if b.len() < 6 {
        lemma_zeros_value((6 - b.len()) as nat, b);
    }
}

/// The number that ASCII digits write.
spec fn padded_value(b: Seq<u8>) -> int
    decreases b.len(),
{
    if b.len() == 0 {
        0
    } else {
        padded_value(b.drop_last()) * 10 + (b.last() - 48)
    }
}

proof fn lemma_digit_bytes_value(d: Seq<char>)
    requires
        text::all_digits(d),
    ensures
        padded_value(digit_bytes(d)) == text::digits_value(d),
    decreases d.len(),
{
    if d.len() > 0 {
        assert(text::is_digit(d[d.len() - 1]));
        assert(digit_bytes(d).drop_last() =~= digit_bytes(d.drop_last()));
        assert forall|i: int| 0 <= i < d.len() - 1 implies text::is_digit(
            #[trigger] d.drop_last()[i],
        ) by {
            assert(d.drop_last()[i] == d[i]);
        }
        lemma_digit_bytes_value(d.drop_last());
    }
}

proof fn lemma_zeros_value(n: nat, b: Seq<u8>)
    ensures
        padded_value(zeros(n) + b) == padded_value(b),
    decreases n + b.len(),
{
    if b.len() > 0 {
        lemma_zeros_value(n, b.drop_last());
        assert((zeros(n) + b).drop_last() =~= zeros(n) + b.drop_last());
    } else if n > 0 {
        let m = (n - 1) as nat;
        assert((zeros(n) + b).drop_last() =~= zeros(m) + b);
        lemma_zeros_value(m, b);
    } else {
        assert(zeros(n) + b =~= b);
    }
}

/// Up to a million blocks have identifiers of one length, as the service requires, and no two
/// of them are the same.
pub proof fn law_block_ids(i: nat, j: nat)
    requires
        i < 1_000_000,
        j < 1_000_000,
    ensures
        block_id_of(i).len() == 8,
        block_id_of(i) == block_id_of(j) ==> i == j,
{
    lemma_padded(i);
    lemma_padded(j);
    let x = padded(i);
    let y = padded(j);
    encoding::lemma_base64_len(x);
    if block_id_of(i) == block_id_of(j) {
        encoding::law_base64_injective(x, y);
    }
}

/// The name of the blob for a file: below the prefix, where there is one.
pub open spec fn blob_name(prefix: Seq<char>, relative: Seq<char>) -> Seq<char> {
    if prefix.len() == 0 {
        relative
    } else {
        text::trimmed_end_of(prefix, '/') + "/"@ + relative
    }
}

/// The name of the blob for a file.
pub fn blob_path_for(prefix: &str, relative: &str) -> (out: String)
    ensures
        out@ == blob_name(prefix@, relative@),
{
    let p = chars_of(prefix);
    if p.len() == 0 {
        return owned(relative);
    }
    let mut out = string_of(trim_end_of(p.as_slice(), '/').as_slice());
    out.append("/");
    out.append(relative);
    out
}

/// A file that was uploaded below a prefix is found again under its own path when the blobs
/// below the prefix are listed. The path must not begin with `/`, nor the prefix end in more
/// than one, unless it is nothing else.
pub proof fn law_uploaded_file_is_found_again(prefix: Seq<char>, relative: Seq<char>)
    requires
        relative.len() > 0 ==> relative[0] != '/',
        prefix.len() < 2 || prefix[prefix.len() - 1] != '/' || prefix[prefix.len() - 2] != '/' || (
        forall|i: int| 0 <= i < prefix.len() ==> #[trigger] prefix[i] == '/'),
    ensures
        paths::rel_path(prefix, blob_name(prefix, relative)) == relative,
{
    let name = blob_name(prefix, relative);
    let n = prefix.len() as int;
    let below = seq!['/'] + relative;
    reveal_strlit("/");
    assert("/"@ =~= seq!['/']);
    assert(below.drop_first() =~= relative);
    if n == 0 {
        assert(name.take(0) =~= prefix);
        assert(name.skip(0) =~= relative);
    } else if prefix[n - 1] != '/' {
        assert(name.take(n) =~= prefix);
        assert(name.skip(n) =~= below);
        assert(text::trimmed_start_of(below, '/') == text::trimmed_start_of(relative, '/'));
    } else if n == 1 || prefix[n - 2] != '/' {
        assert(text::trimmed_end_of(prefix, '/') == text::trimmed_end_of(prefix.drop_last(), '/'));
        assert(text::trimmed_end_of(prefix, '/') =~= prefix.drop_last());
        assert(name =~= prefix + relative);
        assert(name.take(n) =~= prefix);
        assert(name.skip(n) =~= relative);
    } else {
        lemma_only_slashes(prefix);
        assert(name =~= below);
        if text::starts_with(name, prefix) {
            assert(name.take(n)[1] == prefix[1]);
            assert(name[1] == relative[0]);
        }
        assert(text::trimmed_start_of(below, '/') == text::trimmed_start_of(relative, '/'));
    }
}

proof fn lemma_only_slashes(s: Seq<char>)
    requires
        forall|i: int| 0 <= i < s.len() ==> #[trigger] s[i] == '/',
    ensures
        text::trimmed_end_of(s, '/').len() == 0,
    decreases s.len(),
{
    if s.len() > 0 {
        assert(s[s.len() - 1] == '/');
        assert forall|i: int| 0 <= i < s.drop_last().len() implies #[trigger] s.drop_last()[i]
            == '/' by {
            assert(s[i] == '/');
        }
        lemma_only_slashes(s.drop_last());
    }
}

/// The type of a file by the extension of its name.
pub open spec fn mime_of(ext: Seq<char>) -> Seq<char> {
    if ext == "html"@ || ext == "htm"@ {
        "text/html"@
    } else if ext == "css"@ {
        "text/css"@
    } else if ext == "js"@ {
        "application/javascript"@
    } else if ext == "json"@ {
        "application/json"@
    } else if ext == "xml"@ {
        "application/xml"@
    } else if ext == "txt"@ {
        "text/plain"@
    } else if ext == "csv"@ {
        "text/csv"@
    } else if ext == "png"@ {
        "image/png"@
    } else if ext == "jpg"@ || ext == "jpeg"@ {
        "image/jpeg"@
    } else if ext == "gif"@ {
        "image/gif"@
    } else if ext == "svg"@ {
        "image/svg+xml"@
    } else if ext == "pdf"@ {
        "application/pdf"@
    } else if ext == "zip"@ {
        "application/zip"@
    } else if ext == "gz"@ || ext == "gzip"@ {
        "application/gzip"@
    } else if ext == "tar"@ {
        "application/x-tar"@
    } else if ext == "wasm"@ {
        "application/wasm"@
    } else {
        "application/octet-stream"@
    }
}

/// The type of a file by the extension of its name, empty where it has none.
pub fn mime_from_extension(ext: &str) -> (out: String)
    ensures
        out@ == mime_of(ext@),
{
    if same_text(ext, "html") || same_text(ext, "htm") {
        owned("text/html")
    } else if same_text(ext, "css") {
        owned("text/css")
    } else if same_text(ext, "js") {
        owned("application/javascript")
    } else if same_text(ext, "json") {
        owned("application/json")
    } else if same_text(ext, "xml") {
        owned("application/xml")
    } else if same_text(ext, "txt") {
        owned("text/plain")
    } else if same_text(ext, "csv") {
        owned("text/csv")
    } else if same_text(ext, "png") {
        owned("image/png")
    } else if same_text(ext, "jpg") || same_text(ext, "jpeg") {
        owned("image/jpeg")
    } else if same_text(ext, "gif") {
        owned("image/gif")
    } else if same_text(ext, "svg") {
        owned("image/svg+xml")
    } else if same_text(ext, "pdf") {
        owned("application/pdf")
    } else if same_text(ext, "zip") {
        owned("application/zip")
    } else if same_text(ext, "gz") || same_text(ext, "gzip") {
        owned("application/gzip")
    } else if same_text(ext, "tar") {
        owned("application/x-tar")
    } else if same_text(ext, "wasm") {
        owned("application/wasm")
    } else {
        owned("application/octet-stream")
    }
}

/// The options of an upload.
pub fn upload_options(overwrite: bool, content_md5: Option<[u8; 16]>) -> (out: UploadOptions)
    ensures
        out == (UploadOptions { overwrite, content_md5 }),
{
    UploadOptions { overwrite, content_md5 }
}

/// The digest that an upload of data in memory sends, where digests are asked for.
pub fn content_digest(check_md5: bool, data: &[u8]) -> (out: Option<[u8; 16]>)
    ensures
        match out {
            Some(d) => check_md5 && d@ == encoding::md5_digest(data@),
            None => !check_md5,
        },
{
    if check_md5 {
        Some(digest_of(data))
    } else {
        None
    }
}

/// Whether a check came out as it should: nothing expected, or the digest expected, else the
/// mismatch.
pub open spec fn digest_checked(
    out: std::result::Result<(), AzcpError>,
    path: Seq<char>,
    expected: Option<Seq<char>>,
    digest: Seq<u8>,
) -> bool {
    let actual = encoding::base64_of(digest);
    match expected {
        None => out is Ok,
        Some(e) => match out {
            Ok(_) => e == actual,
            Err(AzcpError::Md5Mismatch { path: p, expected: x, actual: a }) => e != actual && p@
                == path && x@ == e && a@ == actual,
            Err(_) => false,
        },
    }
}

/// Checks a digest against the one that is stored with the blob.
pub fn verify_digest(blob_path: &str, expected: Option<&str>, digest: &[u8; 16]) -> (out:
    std::result::Result<(), AzcpError>)
    ensures
        digest_checked(out, blob_path@, text::opt_str_view(expected), digest@),
{
    let e = match expected {
        Some(e) => e,
        None => return Ok(()),
    };
    let actual = base64_encode(digest.as_slice());
    if same_text(e, actual.as_str()) {
        Ok(())
    } else {
        Err(
            AzcpError::Md5Mismatch {
                path: owned(blob_path),
                expected: owned(e),
                actual,
            },
        )
    }
}

/// Checks the data of a blob against the digest that is stored with it.
pub fn verify_md5(blob_path: &str, expected: Option<&str>, data: &[u8]) -> (out:
    std::result::Result<(), AzcpError>)
    ensures
        digest_checked(
            out,
            blob_path@,
            text::opt_str_view(expected),
            encoding::md5_digest(data@),
        ),
{
    if expected.is_none() {
        return Ok(());
    }
    let digest = digest_of(data);
    verify_digest(blob_path, expected, &digest)
}

/// Checks the bytes that a hasher was given, those of a file, against the digest that is stored
/// with the blob.
pub fn verify_hashed(blob_path: &str, expected: Option<&str>, h: Hasher) -> (out:
    std::result::Result<(), AzcpError>)
    ensures
        digest_checked(
            out,
            blob_path@,
            text::opt_str_view(expected),
            encoding::md5_digest(encoding::hashed(h)),
        ),
{
    let digest = hashed_digest(h);
    verify_digest(blob_path, expected, &digest)
}

/// Data that was uploaded with its digest passes the check against the digest that is stored
/// with the blob, and what is downloaded passes only where it has that digest.
pub proof fn law_sent_digest_is_checked(
    options: UploadOptions,
    content_type: Option<Seq<char>>,
    sent: Seq<u8>,
    path: Seq<char>,
    got: Seq<u8>,
    out: std::result::Result<(), AzcpError>,
)
    requires
        options.content_md5 matches Some(d) && d@ == encoding::md5_digest(sent),
        digest_checked(
            out,
            path,
            Some(encoding::base64_of(encoding::md5_digest(sent))),
            encoding::md5_digest(got),
        ),
    ensures
        client::upload_headers(options).contains(
            ("content-md5"@, encoding::base64_of(encoding::md5_digest(sent))),
        ),
        client::commit_headers(options, content_type).contains(
            ("x-ms-blob-content-md5"@, encoding::base64_of(encoding::md5_digest(sent))),
        ),
        out is Ok <==> encoding::md5_digest(got) == encoding::md5_digest(sent),
{
    let stored = encoding::base64_of(encoding::md5_digest(sent));
    let fresh = if options.overwrite {
        0int
    } else {
        1int
    };
    assert(client::upload_headers(options)[fresh + 1] == ("content-md5"@, stored));
    assert(client::commit_headers(options, content_type)[fresh] == (
        "x-ms-blob-content-md5"@,
        stored,
    ));
    if encoding::base64_of(encoding::md5_digest(got)) == stored {
        encoding::law_base64_injective(encoding::md5_digest(got), encoding::md5_digest(sent));
    }
}

/// What is taken of files that were found: those that pass the filter, and of them the shard.
pub open spec fn is_upload_selection(
    files: Seq<LocalEntry>,
    filter: Filter,
    shard: Option<(usize, usize)>,
    out: Seq<LocalEntry>,
) -> bool {
    let passed = files.filter(|f: LocalEntry| filter.accepts(f.relative_path@));
    is_share_of(
        passed,
        passed.map_values(|f: LocalEntry| (f.size, f.relative_path@)),
        shard,
        out,
    )
}

/// Whether `out` is the share of a shard in `items`: all of them without a shard, else what the
/// LPT partition by these keys gives it.
pub open spec fn is_share_of<T>(
    items: Seq<T>,
    keys: Seq<(u64, Seq<char>)>,
    shard: Option<(usize, usize)>,
    out: Seq<T>,
) -> bool {
    match shard {
        None => out == items,
        Some((idx, count)) => if count <= 1 {
            out == items
        } else {
            exists|owners: Seq<usize>| #[trigger]
                lpt::is_lpt(keys, count as int, owners) && out == lpt::owned_by(
                    items,
                    owners,
                    idx as int,
                )
        },
    }
}

/// Keeps the files that pass the filter, and of them the shard.
pub fn select_uploads(filter: &Filter, shard: Option<(usize, usize)>, files: Vec<LocalEntry>) -> (
    out: Vec<LocalEntry>)
    ensures
        is_upload_selection(files@, *filter, shard, out@),
{
    let mut items = files;
    let ghost all = items@;
    let mut marks: Vec<usize> = Vec::new();
    let mut i: usize = 0;
    while i < items.len()
        invariant
            i <= items@.len(),
            items@ == all,
            marks@.len() == i,
            forall|j: int|
                0 <= j < i ==> (#[trigger] marks@[j] == 1 <==> filter.accepts(
                    all[j].relative_path@,
                )),
        decreases items@.len() - i,
    {
        if filter.path_matches(items[i].relative_path.as_str()) {
            marks.push(1);
        } else {
            marks.push(0);
        }
        i += 1;
    }
    keep_owned(&mut items, &marks, 1);
    let ghost p = |f: LocalEntry| filter.accepts(f.relative_path@);
    proof {
        lpt::lemma_owned_is_filter(all, marks@, 1, p);
    }
    let ghost passed = items@;
    let name = |f: &LocalEntry| -> (r: String)
        ensures
            r@ == f.relative_path@,
        { f.relative_path.clone() };
    let size = |f: &LocalEntry| -> (r: u64)
        ensures
            r == f.size,
        { f.size };
    apply_shard(&mut items, shard, name, size);
    proof {
        let k = passed.map_values(|f: LocalEntry| (f.size, f.relative_path@));
        if let Some((idx, count)) = shard {
            if count > 1 {
                let (k2, owners) = choose|k2: Seq<(u64, Seq<char>)>, owners: Seq<usize>|
                    lpt::keyed(passed, name, size, k2) && #[trigger] lpt::is_lpt(
                        k2,
                        count as int,
                        owners,
                    ) && items@ == lpt::owned_by(passed, owners, idx as int);
                assert forall|j: int| 0 <= j < passed.len() implies k2[j] == #[trigger] k[j] by {
                    assert(size.ensures((&passed[j],), k2[j].0));
                }
                assert(k2 =~= k);
                assert(lpt::is_lpt(k, count as int, owners));
            }
        }
    }
    items
}

/// What is taken of blobs that were listed: those whose path below the prefix passes the
/// filter, and of them the shard.
pub open spec fn is_download_selection(
    blobs: Seq<BlobItem>,
    prefix: Seq<char>,
    filter: Filter,
    shard: Option<(usize, usize)>,
    out: Seq<BlobItem>,
) -> bool {
    let passed = blobs.filter(|b: BlobItem| filter.accepts(paths::rel_path(prefix, b.name@)));
    is_share_of(
        passed,
        passed.map_values(|b: BlobItem| (models::size_of(b), b.name@)),
        shard,
        out,
    )
}

/// Keeps the blobs whose path below the prefix passes the filter.
pub fn filter_blobs(filter: &Filter, prefix: &str, blobs: Vec<BlobItem>) -> (out: Vec<BlobItem>)
    ensures
        out@ == blobs@.filter(
            |b: BlobItem| filter.accepts(paths::rel_path(prefix@, b.name@)),
        ),
{
    let mut items = blobs;
    let ghost all = items@;
    let mut marks: Vec<usize> = Vec::new();
    let mut i: usize = 0;
    while i < items.len()
        invariant
            i <= items@.len(),
            items@ == all,
            marks@.len() == i,
            forall|j: int|
                0 <= j < i ==> (#[trigger] marks@[j] == 1 <==> filter.accepts(
                    paths::rel_path(prefix@, all[j].name@),
                )),
        decreases items@.len() - i,
    {
        let rel = rel_below(prefix, items[i].name.as_str());
        if filter.path_matches(rel.as_str()) {
            marks.push(1);
        } else {
            marks.push(0);
        }
        i += 1;
    }
    keep_owned(&mut items, &marks, 1);
    proof {
        let p = |b: BlobItem| filter.accepts(paths::rel_path(prefix@, b.name@));
        lpt::lemma_owned_is_filter(all, marks@, 1, p);
    }
    items
}

/// Keeps the blobs of a shard.
pub fn shard_blobs(shard: Option<(usize, usize)>, blobs: Vec<BlobItem>) -> (out: Vec<BlobItem>)
    ensures
        is_share_of(
            blobs@,
            blobs@.map_values(|b: BlobItem| (models::size_of(b), b.name@)),
            shard,
            out@,
        ),
{
    let mut items = blobs;
    let ghost passed = items@;
    let name = |b: &BlobItem| -> (r: String)
        ensures
            r@ == b.name@,
        { b.name.clone() };
    let size = |b: &BlobItem| -> (r: u64)
        ensures
            r == models::size_of(*b),
        { item_size(b) };
    apply_shard(&mut items, shard, name, size);
    proof {
        let k = passed.map_values(|b: BlobItem| (models::size_of(b), b.name@));
        if let Some((idx, count)) = shard {
            if count > 1 {
                let (k2, owners) = choose|k2: Seq<(u64, Seq<char>)>, owners: Seq<usize>|
                    lpt::keyed(passed, name, size, k2) && #[trigger] lpt::is_lpt(
                        k2,
                        count as int,
                        owners,
                    ) && items@ == lpt::owned_by(passed, owners, idx as int);
                assert forall|j: int| 0 <= j < passed.len() implies k2[j] == #[trigger] k[j] by {
                    assert(size.ensures((&passed[j],), k2[j].0));
                }
                assert(k2 =~= k);
                assert(lpt::is_lpt(k, count as int, owners));
            }
        }
    }
    items
}

/// Keeps the blobs whose path below the prefix passes the filter, and of them the shard.
pub fn select_downloads(
    filter: &Filter,
    shard: Option<(usize, usize)>,
    prefix: &str,
    blobs: Vec<BlobItem>,
) -> (out: Vec<BlobItem>)
    ensures
        is_download_selection(blobs@, prefix@, *filter, shard, out@),
{
    let passed = filter_blobs(filter, prefix, blobs);
    shard_blobs(shard, passed)
}

/// All bytes of the files.
pub fn upload_total(files: &Vec<LocalEntry>) -> (out: u64)
    requires
        sum(local::entry_sizes(files@)) <= u64::MAX,
    ensures
        out == sum(local::entry_sizes(files@)),
{
    let mut total: u64 = 0;
    let ghost sizes = local::entry_sizes(files@);
    let mut i: usize = 0;
    assert(sizes.take(0) =~= Seq::<u64>::empty());
    while i < files.len()
        invariant
            i <= files@.len(),
            sizes == local::entry_sizes(files@),
            sum(sizes) <= u64::MAX,
            total == sum(sizes.take(i as int)),
        decreases files@.len() - i,
    {
        proof {
            assert(sizes.take(i + 1).drop_last() =~= sizes.take(i as int));
            lemma_sum_grows(sizes, i + 1);
        }
        total = total + files[i].size;
        i += 1;
    }
    assert(sizes.take(sizes.len() as int) =~= sizes);
    total
}

/// All bytes of the blobs, as far as their sizes are known.
pub fn download_total(blobs: &Vec<BlobItem>) -> (out: u64)
    requires
        sum(models::sizes_of(blobs@)) <= u64::MAX,
    ensures
        out == sum(models::sizes_of(blobs@)),
{
    let mut total: u64 = 0;
    let ghost sizes = models::sizes_of(blobs@);
    let mut i: usize = 0;
    assert(sizes.take(0) =~= Seq::<u64>::empty());
    while i < blobs.len()
        invariant
            i <= blobs@.len(),
            sizes == models::sizes_of(blobs@),
            sum(sizes) <= u64::MAX,
            total == sum(sizes.take(i as int)),
        decreases blobs@.len() - i,
    {
        proof {
            assert(sizes.take(i + 1).drop_last() =~= sizes.take(i as int));
            lemma_sum_grows(sizes, i + 1);
        }
        total = total + item_size(&blobs[i]);
        i += 1;
    }
    assert(sizes.take(sizes.len() as int) =~= sizes);
    total
}

/// The name of a blob is the path of the file below the prefix, with one `/` between the two.
pub proof fn law_blob_names_are_below_their_prefix(prefix: Seq<char>, relative: Seq<char>)
    requires
        prefix.len() > 0,
        prefix.last() != '/',
    ensures
        blob_name(prefix, relative) == prefix + seq!['/'] + relative,
        blob_name(prefix.push('/'), relative) == prefix + seq!['/'] + relative,
        blob_name(Seq::empty(), relative) == relative,
{
    reveal_strlit("/");
    assert("/"@ =~= seq!['/']);
    assert(prefix.push('/').drop_last() =~= prefix);
    reveal_with_fuel(text::trimmed_end_of, 2);
}

/// A summary counts the outcomes of each kind.
pub proof fn law_outcomes_are_counted_by_kind(outcomes: Seq<Outcome>)
    ensures
        outcome_counts(outcomes).0 == outcomes.filter(|o: Outcome| o is Done).len(),
        outcome_counts(outcomes).1 == outcomes.filter(|o: Outcome| o is Failed).len(),
        outcome_counts(outcomes).2 == outcomes.filter(|o: Outcome| o is Exists).len(),
    decreases outcomes.len(),
{
    reveal(Seq::filter);
    if outcomes.len() > 0 {
        law_outcomes_are_counted_by_kind(outcomes.drop_last());
    }
}

/// A transfer without an error is done; of the errors, that the destination exists means that it
/// was passed over, and any other that it failed.
pub proof fn law_outcomes_follow_from_errors(result: std::result::Result<(), AzcpError>)
    ensures
        outcome_of(result) is Done <==> result is Ok,
        outcome_of(result) is Exists <==> result is Err && result->Err_0 is AlreadyExists,
        outcome_of(result) is Failed <==> result is Err && !(result->Err_0 is AlreadyExists),
{
}

/// A dry run counts everything as done.
pub proof fn law_dry_run_counts_everything(files: u64, bytes: u64)
    ensures
        dry_run_summary(files, bytes).total_files == files,
        dry_run_summary(files, bytes).total_bytes == bytes,
        dry_run_summary(files, bytes).succeeded == files,
        dry_run_summary(files, bytes).failed == 0,
        dry_run_summary(files, bytes).skipped == 0,
{
}

/// The parts of a file are well together exactly where each is, and the first error in order is
/// the one that is reported.
pub proof fn law_first_error_is_reported(
    results: Seq<std::result::Result<(), AzcpError>>,
    i: int,
)
    ensures
        first_failure(results) is Ok <==> forall|k: int|
            0 <= k < results.len() ==> (#[trigger] results[k]) is Ok,
        0 <= i < results.len() && results[i] is Err && (forall|k: int|
            0 <= k < i ==> (#[trigger] results[k]) is Ok) ==> first_failure(results) == results[i],
    decreases results.len(),
{
    if results.len() > 0 {
        let rest = results.drop_first();
        law_first_error_is_reported(rest, i - 1);
        assert forall|k: int| 0 <= k < rest.len() implies rest[k] == #[trigger] results[k + 1] by {}
        if forall|k: int| 0 <= k < rest.len() ==> (#[trigger] rest[k]) is Ok {
            assert forall|k: int| 0 < k < results.len() implies (#[trigger] results[k]) is Ok by {
                assert(rest[k - 1] == results[k]);
            }
        }
        if forall|k: int| 0 <= k < results.len() ==> (#[trigger] results[k]) is Ok {
            assert forall|k: int| 0 <= k < rest.len() implies (#[trigger] rest[k]) is Ok by {
                assert(rest[k] == results[k + 1]);
            }
        }
        if 0 < i < results.len() && results[i] is Err && (forall|k: int|
            0 <= k < i ==> (#[trigger] results[k]) is Ok) {
            assert(results[0] is Ok);
            assert(rest[i - 1] == results[i]);
            assert forall|k: int| 0 <= k < i - 1 implies (#[trigger] rest[k]) is Ok by {
                assert(rest[k] == results[k + 1]);
            }
        }
    }
}

/// Sizes add up.
pub proof fn law_sizes_add_up(a: Seq<u64>, b: Seq<u64>, x: u64)
    ensures
        sum(a + b) == sum(a) + sum(b),
        sum(seq![x]) == x,
        sum(Seq::empty()) == 0,
    decreases b.len(),
{
    reveal_with_fuel(sum, 2);
    assert(seq![x].drop_last() =~= Seq::<u64>::empty());
    if b.len() == 0 {
        assert(a + b =~= a);
    } else {
        law_sizes_add_up(a, b.drop_last(), x);
        assert((a + b).drop_last() =~= a + b.drop_last());
        assert((a + b).last() == b.last());
    }
}

/// The blocks of a file follow each other from its first byte to its last, all of the size of a
/// block but the last, which is not longer and not empty.
pub proof fn law_blocks_cover_the_file(
    size: u64,
    block_size: u64,
    blocks: Seq<Block>,
    i: int,
)
    requires
        block_size > 0,
        in_blocks(size, block_size),
        is_block_plan(size, block_size, blocks),
        0 <= i < blocks.len(),
    ensures
        blocks[0].offset == 0,
        i + 1 < blocks.len() ==> blocks[i + 1].offset == blocks[i].offset + blocks[i].len
            && blocks[i].len == block_size,
        i + 1 == blocks.len() ==> blocks[i].offset + blocks[i].len == size,
        0 < blocks[i].len <= block_size,
{
    shards::law_pieces_cover_file(0, size, block_size, i);
    shards::law_piece_lengths(0, size, block_size, i);
    shards::lemma_piece_bounds(size, block_size, i);
    shards::lemma_piece_count(size, block_size);
    if i + 1 < blocks.len() {
        assert(blocks[i + 1].offset == shards::piece_of(0, size, block_size, i + 1).byte_offset);
    }
    assert(blocks[0].offset == shards::piece_of(0, size, block_size, 0).byte_offset);
}

/// A file is transferred in blocks exactly where it has bytes and is not smaller than a block.
pub proof fn law_small_files_are_sent_whole(size: u64, block_size: u64)
    requires
        block_size > 0,
    ensures
        size < block_size ==> !in_blocks(size, block_size),
        size >= block_size ==> in_blocks(size, block_size),
{
}

/// The identifier of a block is the base64 form of the six digits that write its number.
pub proof fn law_block_id_writes_its_number(i: nat, d: Seq<char>)
    requires
        d.len() == 6,
        text::all_digits(d),
        text::digits_value(d) == i,
    ensures
        block_id_of(i) == encoding::base64_of(d.map_values(|c: char| c as u8)),
{
    let b = digit_bytes(d);
    assert(b =~= d.map_values(|c: char| c as u8));
    lemma_digit_bytes_value(d);
    assert forall|k: int| 0 <= k < b.len() implies 48 <= #[trigger] b[k] <= 57 by {
        assert(text::is_digit(d[k]));
    }
    assert(crate::binary64::tens(6) == 1_000_000) by {
        reveal_with_fuel(crate::binary64::tens, 7);
    }
    lemma_padded_bound(b);
    lemma_padded(i);
    let p = padded(i);
    assert forall|k: int| 0 <= k < p.len() implies 48 <= #[trigger] p[k] <= 57 by {
        let n = text::decimal(i);
        text::lemma_decimal_digits(i);
        if n.len() >= 6 || k >= 6 - n.len() {
            let at = if n.len() < 6 {
                k - (6 - n.len())
            } else {
                k
            };
            assert(text::is_digit(n[at]));
            assert(p[k] == digit_bytes(n)[at]);
        }
    }
    lemma_padded_unique(b, p);
}

proof fn lemma_padded_bound(b: Seq<u8>)
    requires
        forall|k: int| 0 <= k < b.len() ==> 48 <= #[trigger] b[k] <= 57,
    ensures
        0 <= padded_value(b) < crate::binary64::tens(b.len()),
    decreases b.len(),
{
    if b.len() > 0 {
        let front = b.drop_last();
        assert forall|k: int| 0 <= k < front.len() implies 48 <= #[trigger] front[k] <= 57 by {
            assert(front[k] == b[k]);
        }
        lemma_padded_bound(front);
        assert(48 <= b[b.len() - 1] <= 57);
    }
}

proof fn lemma_padded_unique(x: Seq<u8>, y: Seq<u8>)
    requires
        x.len() == y.len(),
        forall|k: int| 0 <= k < x.len() ==> 48 <= #[trigger] x[k] <= 57,
        forall|k: int| 0 <= k < y.len() ==> 48 <= #[trigger] y[k] <= 57,
        padded_value(x) == padded_value(y),
    ensures
        x == y,
    decreases x.len(),
{
    if x.len() > 0 {
        let a = x.drop_last();
        let b = y.drop_last();
        assert forall|k: int| 0 <= k < a.len() implies 48 <= #[trigger] a[k] <= 57 by {
            assert(a[k] == x[k]);
        }
        assert forall|k: int| 0 <= k < b.len() implies 48 <= #[trigger] b[k] <= 57 by {
            assert(b[k] == y[k]);
        }
        assert(48 <= x[x.len() - 1] <= 57);
        assert(48 <= y[y.len() - 1] <= 57);
        lemma_padded_unique(a, b);
        assert(x =~= a.push(x.last()));
        assert(y =~= b.push(y.last()));
    } else {
        assert(x =~= y);
    }
}

/// The types of files by their extensions; any other extension is that of plain bytes.
pub proof fn law_types_by_extension(ext: Seq<char>)
    ensures
        ext == "html"@ || ext == "htm"@ ==> mime_of(ext) == "text/html"@,
        ext == "css"@ ==> mime_of(ext) == "text/css"@,
        ext == "js"@ ==> mime_of(ext) == "application/javascript"@,
        ext == "json"@ ==> mime_of(ext) == "application/json"@,
        ext == "xml"@ ==> mime_of(ext) == "application/xml"@,
        ext == "txt"@ ==> mime_of(ext) == "text/plain"@,
        ext == "csv"@ ==> mime_of(ext) == "text/csv"@,
        ext == "png"@ ==> mime_of(ext) == "image/png"@,
        ext == "jpg"@ || ext == "jpeg"@ ==> mime_of(ext) == "image/jpeg"@,
        ext == "gif"@ ==> mime_of(ext) == "image/gif"@,
        ext == "svg"@ ==> mime_of(ext) == "image/svg+xml"@,
        ext == "pdf"@ ==> mime_of(ext) == "application/pdf"@,
        ext == "zip"@ ==> mime_of(ext) == "application/zip"@,
        ext == "gz"@ || ext == "gzip"@ ==> mime_of(ext) == "application/gzip"@,
        ext == "tar"@ ==> mime_of(ext) == "application/x-tar"@,
        ext == "wasm"@ ==> mime_of(ext) == "application/wasm"@,
        !seq![
            "html"@,
            "htm"@,
            "css"@,
            "js"@,
            "json"@,
            "xml"@,
            "txt"@,
            "csv"@,
            "png"@,
            "jpg"@,
            "jpeg"@,
            "gif"@,
            "svg"@,
            "pdf"@,
            "zip"@,
            "gz"@,
            "gzip"@,
            "tar"@,
            "wasm"@,
        ].contains(ext) ==> mime_of(ext) == "application/octet-stream"@,
{
    reveal_strlit("html");
    reveal_strlit("htm");
    reveal_strlit("css");
    reveal_strlit("js");
    reveal_strlit("json");
    reveal_strlit("xml");
    reveal_strlit("txt");
    reveal_strlit("csv");
    reveal_strlit("png");
    reveal_strlit("jpg");
    reveal_strlit("jpeg");
    reveal_strlit("gif");
    reveal_strlit("svg");
    reveal_strlit("pdf");
    reveal_strlit("zip");
    reveal_strlit("gz");
    reveal_strlit("gzip");
    reveal_strlit("tar");
    reveal_strlit("wasm");
    assert("html"@.len() == 4 && "html"@[0] == 'h' && "html"@[1] == 't' && "html"@[2] == 'm');
    assert("htm"@.len() == 3 && "htm"@[0] == 'h' && "htm"@[1] == 't' && "htm"@[2] == 'm');
    assert("css"@.len() == 3 && "css"@[0] == 'c' && "css"@[1] == 's' && "css"@[2] == 's');
    assert("js"@.len() == 2 && "js"@[0] == 'j' && "js"@[1] == 's');
    assert("json"@.len() == 4 && "json"@[0] == 'j' && "json"@[1] == 's' && "json"@[2] == 'o');
    assert("xml"@.len() == 3 && "xml"@[0] == 'x' && "xml"@[1] == 'm' && "xml"@[2] == 'l');
    assert("txt"@.len() == 3 && "txt"@[0] == 't' && "txt"@[1] == 'x' && "txt"@[2] == 't');
    assert("csv"@.len() == 3 && "csv"@[0] == 'c' && "csv"@[1] == 's' && "csv"@[2] == 'v');
    assert("png"@.len() == 3 && "png"@[0] == 'p' && "png"@[1] == 'n' && "png"@[2] == 'g');
    assert("jpg"@.len() == 3 && "jpg"@[0] == 'j' && "jpg"@[1] == 'p' && "jpg"@[2] == 'g');
    assert("jpeg"@.len() == 4 && "jpeg"@[0] == 'j' && "jpeg"@[1] == 'p' && "jpeg"@[2] == 'e');
    assert("gif"@.len() == 3 && "gif"@[0] == 'g' && "gif"@[1] == 'i' && "gif"@[2] == 'f');
    assert("svg"@.len() == 3 && "svg"@[0] == 's' && "svg"@[1] == 'v' && "svg"@[2] == 'g');
    assert("pdf"@.len() == 3 && "pdf"@[0] == 'p' && "pdf"@[1] == 'd' && "pdf"@[2] == 'f');
    assert("zip"@.len() == 3 && "zip"@[0] == 'z' && "zip"@[1] == 'i' && "zip"@[2] == 'p');
    assert("gz"@.len() == 2 && "gz"@[0] == 'g' && "gz"@[1] == 'z');
    assert("gzip"@.len() == 4 && "gzip"@[0] == 'g' && "gzip"@[1] == 'z' && "gzip"@[2] == 'i');
    assert("tar"@.len() == 3 && "tar"@[0] == 't' && "tar"@[1] == 'a' && "tar"@[2] == 'r');
    assert("wasm"@.len() == 4 && "wasm"@[0] == 'w' && "wasm"@[1] == 'a' && "wasm"@[2] == 's');
    let known = seq![
        "html"@,
        "htm"@,
        "css"@,
        "js"@,
        "json"@,
        "xml"@,
        "txt"@,
        "csv"@,
        "png"@,
        "jpg"@,
        "jpeg"@,
        "gif"@,
        "svg"@,
        "pdf"@,
        "zip"@,
        "gz"@,
        "gzip"@,
        "tar"@,
        "wasm"@,
    ];
    if !known.contains(ext) {
        assert forall|i: int| 0 <= i < 19 implies ext != #[trigger] known[i] by {
            assert(known.contains(known[i]));
        }
        assert(ext != known[0] && ext != known[1] && ext != known[2] && ext != known[3]);
        assert(ext != known[4] && ext != known[5] && ext != known[6] && ext != known[7]);
        assert(ext != known[8] && ext != known[9] && ext != known[10] && ext != known[11]);
        assert(ext != known[12] && ext != known[13] && ext != known[14] && ext != known[15]);
        assert(ext != known[16] && ext != known[17] && ext != known[18]);
    }
}

proof fn lemma_filter_holds<T>(s: Seq<T>, p: spec_fn(T) -> bool, x: T)
    ensures
        s.filter(p).contains(x) <==> s.contains(x) && p(x),
    decreases s.len(),
{
    reveal(Seq::filter);
    if s.len() > 0 {
        let front = s.drop_last();
        lemma_filter_holds(front, p, x);
        let kept = front.filter(p);
        if s.contains(x) {
            let i = s.index_of(x);
            if i < front.len() {
                assert(front[i] == x);
            }
        }
        if front.contains(x) {
            let i = front.index_of(x);
            assert(s[i] == x);
        }
        if p(s.last()) {
            if kept.contains(x) {
                let i = kept.index_of(x);
                assert(kept.push(s.last())[i] == x);
            }
            if s.last() == x {
                assert(kept.push(s.last())[kept.len() as int] == x);
                assert(s[s.len() - 1] == x);
            }
            if kept.push(s.last()).contains(x) && !kept.contains(x) {
                let i = kept.push(s.last()).index_of(x);
                if i < kept.len() {
                    assert(kept[i] == x);
                }
            }
        }
    }
}

/// Without a shard, an upload takes exactly the files whose path matches a pattern of the first
/// set, where there is one, and none of the second.
pub proof fn law_upload_takes_what_matches(
    files: Seq<LocalEntry>,
    filter: Filter,
    out: Seq<LocalEntry>,
    f: LocalEntry,
)
    requires
        is_upload_selection(files, filter, None, out),
    ensures
        out.contains(f) <==> files.contains(f) && (filter.included matches Some(s) ==> exists|i: int|
            0 <= i < globs::set_patterns(s).len() && #[trigger] globs::glob_match(
                globs::set_patterns(s)[i],
                f.relative_path@,
            )) && (filter.excluded matches Some(s) ==> forall|i: int|
            0 <= i < globs::set_patterns(s).len() ==> !(#[trigger] globs::glob_match(
                globs::set_patterns(s)[i],
                f.relative_path@,
            ))),
{
    lemma_filter_holds(files, |f: LocalEntry| filter.accepts(f.relative_path@), f);
}

/// Without a shard, a download takes exactly the blobs whose path below the prefix matches a
/// pattern of the first set, where there is one, and none of the second.
pub proof fn law_download_takes_what_matches(
    blobs: Seq<BlobItem>,
    prefix: Seq<char>,
    filter: Filter,
    out: Seq<BlobItem>,
    b: BlobItem,
)
    requires
        is_download_selection(blobs, prefix, filter, None, out),
    ensures
        out.contains(b) <==> blobs.contains(b) && (filter.included matches Some(s) ==> exists|i: int|
            0 <= i < globs::set_patterns(s).len() && #[trigger] globs::glob_match(
                globs::set_patterns(s)[i],
                paths::rel_path(prefix, b.name@),
            )) && (filter.excluded matches Some(s) ==> forall|i: int|
            0 <= i < globs::set_patterns(s).len() ==> !(#[trigger] globs::glob_match(
                globs::set_patterns(s)[i],
                paths::rel_path(prefix, b.name@),
            ))),
{
    lemma_filter_holds(blobs, |b: BlobItem| filter.accepts(paths::rel_path(prefix, b.name@)), b);
}

/// The shares of all shards are together everything that passed, each item once.
pub proof fn law_shares_are_the_whole<T>(
    items: Seq<T>,
    keys: Seq<(u64, Seq<char>)>,
    shares: Seq<Seq<T>>,
)
    requires
        keys.len() == items.len(),
        0 < shares.len() <= usize::MAX,
        forall|i: int|
            0 <= i < shares.len() ==> is_share_of(
                items,
                keys,
                Some((i as usize, shares.len() as usize)),
                #[trigger] shares[i],
            ),
    ensures
        lpt::together(shares) == items.to_multiset(),
{
    let count = shares.len() as int;
    assert(shares[0] == shares[0]);
    if count == 1 {
        reveal_with_fuel(lpt::together, 2);
        assert(shares.last() == items);
        assert(shares.drop_last() =~= Seq::<Seq<T>>::empty());
        assert(vstd::multiset::Multiset::<T>::empty().add(items.to_multiset())
            =~= items.to_multiset());
    } else {
        let owners = choose|owners: Seq<usize>| #[trigger]
            lpt::is_lpt(keys, count, owners) && shares[0] == lpt::owned_by(items, owners, 0);
        assert forall|i: int| 0 <= i < shares.len() implies #[trigger] shares[i] == lpt::owned_by(
            items,
            owners,
            i,
        ) by {
            let mine = choose|mine: Seq<usize>| #[trigger]
                lpt::is_lpt(keys, count, mine) && shares[i] == lpt::owned_by(items, mine, i);
            lpt::law_partition_unique(keys, count, owners, mine);
        }
        lpt::law_owners_are_bins(keys, count, owners);
        lpt::lemma_together(items, shares, owners);
        lpt::law_shards_partition(items, owners, shares.len());
    }
}

/// Without a shard everything is taken.
pub proof fn law_no_shard_takes_everything<T>(
    items: Seq<T>,
    keys: Seq<(u64, Seq<char>)>,
    out: Seq<T>,
)
    requires
        is_share_of(items, keys, None, out) || is_share_of(items, keys, Some((0, 1)), out),
    ensures
        out == items,
{
}

/// A digest that differs is reported with the blob, the digest that was expected and the one that
/// was found.
pub proof fn law_mismatches_name_both_digests(
    out: std::result::Result<(), AzcpError>,
    path: Seq<char>,
    expected: Seq<char>,
    digest: Seq<u8>,
)
    requires
        digest_checked(out, path, Some(expected), digest),
    ensures
        out is Ok <==> expected == encoding::base64_of(digest),
        out matches Err(e) ==> (e matches AzcpError::Md5Mismatch { path: p, expected: x, actual: a }
            && p@ == path && x@ == expected && a@ == encoding::base64_of(digest)),
{
}

/// Where no digest is expected, any content passes.
pub proof fn law_nothing_expected_passes(
    out: std::result::Result<(), AzcpError>,
    path: Seq<char>,
    digest: Seq<u8>,
)
    requires
        digest_checked(out, path, None, digest),
    ensures
        out is Ok,
{
}

proof fn lemma_owned_mapped<T, U>(items: Seq<T>, owners: Seq<usize>, idx: int, f: spec_fn(T) -> U)
    ensures
        lpt::owned_by(items, owners, idx).map_values(f) == lpt::owned_by(
            items.map_values(f),
            owners,
            idx,
        ),
    decreases items.len(),
{
    let here = items.map_values(f);
    if items.len() == 0 {
        assert(lpt::owned_by(items, owners, idx).map_values(f) =~= lpt::owned_by(here, owners, idx));
    } else {
        let front = items.drop_last();
        lemma_owned_mapped(front, owners, idx, f);
        assert(front.map_values(f) =~= here.drop_last());
        assert(here.last() == f(items.last()));
        assert(lpt::owned_by(items, owners, idx).map_values(f) =~= lpt::owned_by(here, owners, idx));
    }
}

/// The share of a shard is what its bin owns in the partition by sizes and names.
pub proof fn law_share_is_what_its_bin_owns<T>(
    items: Seq<T>,
    keys: Seq<(u64, Seq<char>)>,
    idx: usize,
    count: usize,
    owners: Seq<usize>,
    out: Seq<T>,
)
    requires
        count > 1,
        lpt::is_lpt(keys, count as int, owners),
        is_share_of(items, keys, Some((idx, count)), out),
    ensures
        out == lpt::owned_by(items, owners, idx as int),
{
    let mine = choose|mine: Seq<usize>| #[trigger]
        lpt::is_lpt(keys, count as int, mine) && out == lpt::owned_by(items, mine, idx as int);
    lpt::law_partition_unique(keys, count as int, owners, mine);
}

/// The shares of an upload hold about the same: one has at most the largest file more bytes than
/// another.
pub proof fn law_upload_shares_are_balanced(
    files: Seq<LocalEntry>,
    filter: Filter,
    count: usize,
    a: usize,
    b: usize,
    of_a: Seq<LocalEntry>,
    of_b: Seq<LocalEntry>,
    largest: u64,
)
    requires
        count > 1,
        a < count,
        b < count,
        is_upload_selection(files, filter, Some((a, count)), of_a),
        is_upload_selection(files, filter, Some((b, count)), of_b),
        sum(
            local::entry_sizes(files.filter(|f: LocalEntry| filter.accepts(f.relative_path@))),
        ) <= u64::MAX,
        forall|i: int| 0 <= i < files.len() ==> (#[trigger] files[i]).size <= largest,
    ensures
        sum(local::entry_sizes(of_a)) <= sum(local::entry_sizes(of_b)) + largest,
{
    let p = |f: LocalEntry| filter.accepts(f.relative_path@);
    let passed = files.filter(p);
    let key = |f: LocalEntry| (f.size, f.relative_path@);
    let size = |f: LocalEntry| f.size;
    let k = passed.map_values(key);
    let n = count as int;
    let owners = choose|owners: Seq<usize>| #[trigger]
        lpt::is_lpt(k, n, owners) && of_a == lpt::owned_by(passed, owners, a as int);
    law_share_is_what_its_bin_owns(passed, k, b, count, owners, of_b);
    assert(lpt::key_sizes(k) =~= passed.map_values(size));
    assert(lpt::key_sizes(k) =~= local::entry_sizes(passed));
    lemma_owned_mapped(passed, owners, a as int, size);
    lemma_owned_mapped(passed, owners, b as int, size);
    assert(local::entry_sizes(of_a) =~= of_a.map_values(size));
    assert(local::entry_sizes(of_b) =~= of_b.map_values(size));
    assert forall|i: int| 0 <= i < k.len() implies (#[trigger] k[i]).0 <= largest by {
        lemma_filter_holds(files, p, passed[i]);
        assert(passed.contains(passed[i]));
        let j = files.index_of(passed[i]);
        assert(files[j].size <= largest);
    }
    lpt::law_bins_are_balanced(k, n, owners, largest, a as int, b as int);
}

/// The shares of a download hold about the same: one has at most the largest blob more bytes than
/// another.
pub proof fn law_download_shares_are_balanced(
    blobs: Seq<BlobItem>,
    prefix: Seq<char>,
    filter: Filter,
    count: usize,
    a: usize,
    b: usize,
    of_a: Seq<BlobItem>,
    of_b: Seq<BlobItem>,
    largest: u64,
)
    requires
        count > 1,
        a < count,
        b < count,
        is_download_selection(blobs, prefix, filter, Some((a, count)), of_a),
        is_download_selection(blobs, prefix, filter, Some((b, count)), of_b),
        sum(
            models::sizes_of(
                blobs.filter(|b: BlobItem| filter.accepts(paths::rel_path(prefix, b.name@))),
            ),
        ) <= u64::MAX,
        forall|i: int| 0 <= i < blobs.len() ==> models::size_of(#[trigger] blobs[i]) <= largest,
    ensures
        sum(models::sizes_of(of_a)) <= sum(models::sizes_of(of_b)) + largest,
{
    let p = |b: BlobItem| filter.accepts(paths::rel_path(prefix, b.name@));
    let passed = blobs.filter(p);
    let key = |b: BlobItem| (models::size_of(b), b.name@);
    let size = |b: BlobItem| models::size_of(b);
    let k = passed.map_values(key);
    let n = count as int;
    let owners = choose|owners: Seq<usize>| #[trigger]
        lpt::is_lpt(k, n, owners) && of_a == lpt::owned_by(passed, owners, a as int);
    law_share_is_what_its_bin_owns(passed, k, b, count, owners, of_b);
    assert(lpt::key_sizes(k) =~= passed.map_values(size));
    assert(lpt::key_sizes(k) =~= models::sizes_of(passed));
    lemma_owned_mapped(passed, owners, a as int, size);
    lemma_owned_mapped(passed, owners, b as int, size);
    assert(models::sizes_of(of_a) =~= of_a.map_values(size));
    assert(models::sizes_of(of_b) =~= of_b.map_values(size));
    assert forall|i: int| 0 <= i < k.len() implies (#[trigger] k[i]).0 <= largest by {
        lemma_filter_holds(blobs, p, passed[i]);
        assert(passed.contains(passed[i]));
        let j = blobs.index_of(passed[i]);
        assert(models::size_of(blobs[j]) <= largest);
    }
    lpt::law_bins_are_balanced(k, n, owners, largest, a as int, b as int);
}

} // verus!
