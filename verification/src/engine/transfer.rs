//! How a single file is transferred: under which name, as what, and in which parts.
use crate::cluster::paths;
use crate::cluster::paths::rel_below;
use crate::cluster::stages::shards;
use crate::engine;
use crate::engine::{blob_path_for, mime_from_extension, plan_blocks, uses_blocks, Block};
use crate::error::AzcpError;
use crate::storage::blob::models;
use crate::storage::blob::models::{item_size, BlobItem};
use crate::storage::local::LocalEntry;
use crate::text;
use crate::text::{chars_of, clone_opt, owned, same_chars, slice_of, split_at_char, string_of};
use vstd::prelude::*;

verus! {

/// In which parts a file is transferred.
pub enum Parts {
    Whole,
    Blocks(Vec<Block>),
}

/// Whether a file of this size is transferred in these parts: in blocks where it is not smaller
/// than one.
pub open spec fn is_parts(size: u64, block_size: u64, parts: Parts) -> bool {
    match parts {
        Parts::Whole => !engine::in_blocks(size, block_size),
        Parts::Blocks(b) => engine::in_blocks(size, block_size) && engine::is_block_plan(
            size,
            block_size,
            b@,
        ),
    }
}

/// In which parts a file is transferred.
pub fn plan_parts(size: u64, block_size: u64) -> (out: Parts)
    requires
        block_size > 0,
        shards::piece_count(size, block_size) <= usize::MAX,
    ensures
        is_parts(size, block_size, out),
{
    if uses_blocks(size, block_size) {
        Parts::Blocks(plan_blocks(size, block_size))
    } else {
        Parts::Whole
    }
}

/// Whether a range of a file is transferred in these requests, each with its offset in the file
/// and its length: block by block, an empty range with none.
pub open spec fn is_range_plan(
    byte_offset: u64,
    byte_len: u64,
    block_size: u64,
    requests: Seq<(u64, u64)>,
) -> bool {
    &&& requests.len() == if byte_len == 0 {
        0
    } else {
        shards::piece_count(byte_len, block_size)
    }
    &&& forall|i: int|
        0 <= i < requests.len() ==> {
            let p = shards::piece_of(0, byte_len, block_size, i);
            &&& (#[trigger] requests[i]).0 == byte_offset + p.byte_offset
            &&& requests[i].1 == p.byte_len
        }
}

/// The requests for a range of a file.
pub fn plan_range(byte_offset: u64, byte_len: u64, block_size: u64) -> (out: Vec<(u64, u64)>)
    requires
        block_size > 0,
        byte_offset + byte_len <= u64::MAX,
        shards::piece_count(byte_len, block_size) <= usize::MAX,
    ensures
        is_range_plan(byte_offset, byte_len, block_size, out@),
{
    let mut out: Vec<(u64, u64)> = Vec::new();
    if byte_len == 0 {
        return out;
    }
    match plan_parts(byte_len, block_size) {
        Parts::Whole => {
            out.push((byte_offset, byte_len));
            assert(0 * block_size == 0) by (nonlinear_arith);
        },
        Parts::Blocks(blocks) => {
            let mut i: usize = 0;
            while i < blocks.len()
                invariant
                    i <= blocks@.len(),
                    byte_len > 0,
                    byte_offset + byte_len <= u64::MAX,
                    engine::is_block_plan(byte_len, block_size, blocks@),
                    out@.len() == i,
                    forall|j: int|
                        0 <= j < i ==> {
                            let p = shards::piece_of(0, byte_len, block_size, j);
                            &&& (#[trigger] out@[j]).0 == byte_offset + p.byte_offset
                            &&& out@[j].1 == p.byte_len
                        },
                decreases blocks@.len() - i,
            {
                let block = &blocks[i];
                proof {
                    shards::lemma_piece_bounds(byte_len, block_size, i as int);
                }
                out.push((byte_offset + block.offset, block.len));
                i += 1;
            }
        },
    }
    out
}

/// The place behind the last of the characters `c` before `n`, or 0.
pub open spec fn behind_last(s: Seq<char>, c: char, n: int) -> int
    decreases n,
{
    if n <= 0 {
        0
    } else if s[n - 1] == c {
        n
    } else {
        behind_last(s, c, n - 1)
    }
}

fn find_behind_last(s: &[char], c: char) -> (out: usize)
    ensures
        out == behind_last(s@, c, s@.len() as int),
        out <= s@.len(),
{
    let mut n: usize = s.len();
    while n > 0
        invariant
            n <= s@.len(),
            behind_last(s@, c, n as int) == behind_last(s@, c, s@.len() as int),
        decreases n,
    {
        if s[n - 1] == c {
            return n;
        }
        n -= 1;
    }
    0
}

/// The last part of a path that is neither empty nor `.`.
pub open spec fn last_part(parts: Seq<Seq<char>>) -> Option<Seq<char>>
    decreases parts.len(),
{
    if parts.len() == 0 {
        None
    } else if parts.last().len() == 0 || parts.last() == "."@ {
        last_part(parts.drop_last())
    } else {
        Some(parts.last())
    }
}

/// The extension of a name: what stands behind its last dot, unless that is its first
/// character.
pub open spec fn extension_of_name(name: Seq<char>) -> Seq<char> {
    let at = behind_last(name, '.', name.len() as int);
    if at <= 1 {
        Seq::empty()
    } else {
        name.skip(at)
    }
}

/// The extension of the file that a path names, empty where it has none.
pub open spec fn extension_of(path: Seq<char>) -> Seq<char> {
    match last_part(text::split(path, '/')) {
        Some(name) => extension_of_name(name),
        None => Seq::empty(),
    }
}

/// The last part of a path, without separators and `.` parts at its end.
pub fn name_in_path(path: &str) -> (out: Option<String>)
    ensures
        text::opt_view(out) == last_part(text::split(path@, '/')),
{
    let chars = chars_of(path);
    let parts = split_at_char(chars.as_slice(), '/');
    let here = chars_of(".");
    let ghost all = text::pieces(parts@);
    let mut n: usize = parts.len();
    assert(all.take(n as int) =~= all);
    while n > 0
        invariant
            n <= parts@.len(),
            all == text::pieces(parts@),
            all == text::split(path@, '/'),
            here@ == "."@,
            last_part(all.take(n as int)) == last_part(all),
        decreases n,
    {
        let p = parts[n - 1].as_slice();
        assert(all.take(n as int).last() == p@);
        assert(all.take(n as int).drop_last() =~= all.take(n - 1));
        if p.len() > 0 && !same_chars(p, here.as_slice()) {
            return Some(string_of(p));
        }
        n -= 1;
    }
    None
}

/// The type of a file by its path.
pub fn mime_from_path(path: &str) -> (out: String)
    ensures
        out@ == engine::mime_of(extension_of(path@)),
{
    let none = String::new();
    assert(none@ =~= Seq::<char>::empty());
    let name = match name_in_path(path) {
        Some(name) => chars_of(name.as_str()),
        None => return mime_from_extension(none.as_str()),
    };
    let at: usize = find_behind_last(name.as_slice(), '.');
    if at <= 1 {
        return mime_from_extension(none.as_str());
    }
    let ext = slice_of(name.as_slice(), at, name.len());
    assert(ext@ =~= name@.skip(at as int));
    mime_from_extension(string_of(ext.as_slice()).as_str())
}

/// How a file is uploaded.
pub struct UploadPlan {
    pub blob_path: String,
    pub content_type: String,
    pub parts: Parts,
}

/// How a file is uploaded below a prefix.
pub fn plan_upload(prefix: &str, entry: &LocalEntry, block_size: u64) -> (out: UploadPlan)
    requires
        block_size > 0,
        shards::piece_count(entry.size, block_size) <= usize::MAX,
    ensures
        out.blob_path@ == engine::blob_name(prefix@, entry.relative_path@),
        out.content_type@ == engine::mime_of(extension_of(entry.relative_path@)),
        is_parts(entry.size, block_size, out.parts),
{
    UploadPlan {
        blob_path: blob_path_for(prefix, entry.relative_path.as_str()),
        content_type: mime_from_path(entry.relative_path.as_str()),
        parts: plan_parts(entry.size, block_size),
    }
}

/// How a blob is downloaded.
pub struct DownloadPlan {
    /// The path below the destination.
    pub local_path: String,
    pub size: u64,
    /// The digest that the file has to have, where it is checked and known.
    pub expected_md5: Option<String>,
    pub parts: Parts,
}

/// The digest that is stored with a blob.
pub open spec fn stored_md5(item: BlobItem) -> Option<String> {
    match item.properties {
        Some(p) => p.content_md5,
        None => None,
    }
}

/// How a blob below a prefix is downloaded. A blob of unknown size is downloaded as a whole.
pub fn plan_download(prefix: &str, item: &BlobItem, check_md5: bool, block_size: u64) -> (out:
    DownloadPlan)
    requires
        block_size > 0,
        shards::piece_count(models::size_of(*item), block_size) <= usize::MAX,
    ensures
        out.local_path@ == paths::rel_path(prefix@, item.name@),
        out.size == models::size_of(*item),
        out.expected_md5 == if check_md5 {
            stored_md5(*item)
        } else {
            None
        },
        is_parts(out.size, block_size, out.parts),
{
    let size = item_size(item);
    let expected_md5 = match (&item.properties, check_md5) {
        (Some(p), true) => clone_opt(&p.content_md5),
        _ => None,
    };
    DownloadPlan {
        local_path: rel_below(prefix, item.name.as_str()),
        size,
        expected_md5,
        parts: plan_parts(size, block_size),
    }
}

/// Whether a download passes over a file: it exists and must not be overwritten.
pub fn skips_download(overwrite: bool, exists: bool) -> (out: bool)
    ensures
        out == (!overwrite && exists),
{
    !overwrite && exists
}

/// Whether a download may go ahead: not where the file exists and must not be overwritten, which
/// is then what the download came to.
pub open spec fn is_admission(
    out: std::result::Result<(), AzcpError>,
    overwrite: bool,
    exists: bool,
    name: Seq<char>,
) -> bool {
    match out {
        Ok(_) => overwrite || !exists,
        Err(AzcpError::AlreadyExists(n)) => !overwrite && exists && n@ == name,
        Err(_) => false,
    }
}

/// Lets a download go ahead, or refuses it.
pub fn admit_download(overwrite: bool, exists: bool, name: &str) -> (out: std::result::Result<
    (),
    AzcpError,
>)
    ensures
        is_admission(out, overwrite, exists, name@),
{
    if skips_download(overwrite, exists) {
        Err(AzcpError::AlreadyExists(owned(name)))
    } else {
        Ok(())
    }
}

/// A file that exists and must not be overwritten counts as skipped, not as done or failed.
pub proof fn law_existing_file_is_skipped(
    admitted: std::result::Result<(), AzcpError>,
    name: Seq<char>,
    before: Seq<engine::Outcome>,
)
    requires
        is_admission(admitted, false, true, name),
    ensures
        engine::outcome_of(admitted) == engine::Outcome::Exists,
        engine::outcome_counts(before.push(engine::outcome_of(admitted))) == (
            engine::outcome_counts(before).0,
            engine::outcome_counts(before).1,
            engine::outcome_counts(before).2 + 1,
        ),
{
    assert(before.push(engine::outcome_of(admitted)).drop_last() =~= before);
}

/// What a dry run says of an upload.
pub fn would_upload(relative: &str) -> (out: String)
    ensures
        out@ == "  [dry-run] would upload: "@ + relative@,
{
    let mut out = owned("  [dry-run] would upload: ");
    out.append(relative);
    out
}

/// What a dry run says of a download.
pub fn would_download(name: &str) -> (out: String)
    ensures
        out@ == "  [dry-run] would download: "@ + name@,
{
    let mut out = owned("  [dry-run] would download: ");
    out.append(name);
    out
}

/// What is said of a file that failed.
pub fn failed_message(name: &str, error: &str) -> (out: String)
    ensures
        out@ == "ERROR: "@ + name@ + ": "@ + error@,
{
    let mut out = owned("ERROR: ");
    out.append(name);
    out.append(": ");
    out.append(error);
    out
}

/// A file is sent whole exactly where it is empty or smaller than a block, else in blocks that
/// follow each other from its first byte to its last.
pub proof fn law_parts_are_the_whole_file(size: u64, block_size: u64, parts: Parts, i: int)
    requires
        block_size > 0,
        is_parts(size, block_size, parts),
    ensures
        parts is Whole <==> size < block_size,
        parts matches Parts::Blocks(b) ==> b@.len() > 0 && b@[0].offset == 0 && (0 <= i < b@.len()
            ==> 0 < b@[i].len <= block_size && b@[i].offset + b@[i].len == if i + 1 < b@.len() {
            b@[i + 1].offset
        } else {
            size
        }),
{
    shards::lemma_piece_count(size, block_size);
    match parts {
        Parts::Blocks(b) => {
            engine::law_blocks_cover_the_file(size, block_size, b@, 0);
            if 0 <= i < b@.len() {
                engine::law_blocks_cover_the_file(size, block_size, b@, i);
            }
        },
        Parts::Whole => {},
    }
}

/// The requests for a range follow each other from its first byte to its last, none of them
/// empty or longer than a block; an empty range has none.
pub proof fn law_requests_are_the_whole_range(
    byte_offset: u64,
    byte_len: u64,
    block_size: u64,
    requests: Seq<(u64, u64)>,
    i: int,
)
    requires
        block_size > 0,
        is_range_plan(byte_offset, byte_len, block_size, requests),
    ensures
        byte_len == 0 <==> requests.len() == 0,
        byte_len > 0 ==> requests[0].0 == byte_offset,
        0 <= i < requests.len() ==> 0 < requests[i].1 <= block_size && requests[i].0
            + requests[i].1 == if i + 1 < requests.len() {
            requests[i + 1].0 as int
        } else {
            byte_offset + byte_len
        },
{
    shards::lemma_piece_count(byte_len, block_size);
    if byte_len > 0 {
        shards::law_pieces_cover_file(0, byte_len, block_size, 0);
        assert(requests[0].0 == byte_offset);
    }
    if 0 <= i < requests.len() {
        shards::law_pieces_cover_file(0, byte_len, block_size, i);
        shards::law_piece_lengths(0, byte_len, block_size, i);
        if i + 1 < requests.len() {
            assert(requests[i + 1].0 == byte_offset + shards::piece_of(
                0,
                byte_len,
                block_size,
                i + 1,
            ).byte_offset);
        }
    }
}

proof fn lemma_behind_last(s: Seq<char>, c: char, n: int, at: int)
    requires
        0 <= at <= n <= s.len(),
        at > 0 ==> s[at - 1] == c,
        forall|k: int| at <= k < n ==> s[k] != c,
    ensures
        behind_last(s, c, n) == at,
    decreases n,
{
    if n > at {
        lemma_behind_last(s, c, n - 1, at);
    }
}

/// The extension of a file is what stands behind the last dot of its name: not behind one in a
/// directory, and not behind one that the name begins with.
pub proof fn law_extension_is_behind_the_last_dot(
    dir: Seq<char>,
    stem: Seq<char>,
    ext: Seq<char>,
)
    requires
        stem.len() > 0,
        !stem.contains('/'),
        !ext.contains('.'),
        !ext.contains('/'),
    ensures
        extension_of(stem + seq!['.'] + ext) == ext,
        extension_of(dir + seq!['/'] + (stem + seq!['.'] + ext)) == ext,
        !stem.contains('.') ==> extension_of(stem).len() == 0,
        !stem.contains('.') ==> extension_of(dir + seq!['/'] + stem).len() == 0,
        !stem.contains('.') ==> extension_of(dir + seq!['/'] + (seq!['.'] + stem)).len() == 0,
{
    reveal_strlit(".");
    let name = stem + seq!['.'] + ext;
    let n = name.len() as int;
    if name.contains('/') {
        let k = name.index_of('/');
        if k < stem.len() {
            assert(stem[k] == '/');
        } else if k > stem.len() {
            assert(ext[k - stem.len() - 1] == '/');
        }
    }
    assert forall|k: int| stem.len() + 1 <= k < n implies name[k] != '.' by {
        assert(name[k] == ext[k - stem.len() - 1]);
    }
    assert(name[stem.len() as int] == '.');
    lemma_behind_last(name, '.', n, stem.len() as int + 1);
    assert(name.skip(stem.len() as int + 1) =~= ext);
    text::lemma_split_behind(dir, '/', name);
    assert(name != "."@);
    assert(seq![name].last() == name);
    assert(text::split(dir, '/').push(name).last() == name);
    if !stem.contains('.') {
        let hidden = seq!['.'] + stem;
        text::lemma_split_behind(dir, '/', stem);
        assert(stem[0] != '.') by {
            assert(stem.contains(stem[0]));
        }
        assert forall|k: int| 0 <= k < stem.len() implies stem[k] != '.' by {
            assert(stem.contains(stem[k]));
        }
        lemma_behind_last(stem, '.', stem.len() as int, 0);
        assert(text::split(dir, '/').push(stem).last() == stem);
        assert(seq![stem].last() == stem);
        if hidden.contains('/') {
            let k = hidden.index_of('/');
            assert(stem[k - 1] == '/');
        }
        text::lemma_split_behind(dir, '/', hidden);
        assert(text::split(dir, '/').push(hidden).last() == hidden);
        assert forall|k: int| 1 <= k < hidden.len() implies hidden[k] != '.' by {
            assert(hidden[k] == stem[k - 1]);
        }
        lemma_behind_last(hidden, '.', hidden.len() as int, 1);
        assert(hidden.len() > 1);
    }
}

/// A `/` at the end of a path does not matter, nor does a `/.`.
pub proof fn law_end_of_a_path_does_not_matter(path: Seq<char>)
    ensures
        extension_of(path + seq!['/']) == extension_of(path),
        extension_of(path + seq!['/', '.']) == extension_of(path),
{
    reveal_strlit(".");
    let none = Seq::<char>::empty();
    text::lemma_split_behind(path, '/', none);
    assert(path + seq!['/'] + none =~= path + seq!['/']);
    let parts = text::split(path, '/');
    assert(parts.push(none).drop_last() =~= parts);
    let here = seq!['.'];
    assert(here =~= "."@);
    assert(!here.contains('/'));
    text::lemma_split_behind(path, '/', here);
    assert(path + seq!['/'] + here =~= path + seq!['/', '.']);
    assert(parts.push(here).drop_last() =~= parts);
}

/// The digest that a download checks is the one that the listing gives for the blob.
pub proof fn law_stored_digest_is_the_listed_one(item: BlobItem)
    ensures
        item.properties matches Some(p) ==> stored_md5(item) == p.content_md5,
        item.properties is None ==> stored_md5(item) is None,
{
}

/// A download is refused exactly where the file exists and must not be overwritten.
pub proof fn law_only_existing_files_are_refused(
    out: std::result::Result<(), AzcpError>,
    overwrite: bool,
    exists: bool,
    name: Seq<char>,
)
    requires
        is_admission(out, overwrite, exists, name),
    ensures
        out is Err <==> exists && !overwrite,
        out matches Err(e) ==> e is AlreadyExists && e->AlreadyExists_0@ == name,
{
}

} // verus!
