//! What the command line says, as plain values.
use crate::binary64;
use crate::text;
use crate::text::{
    chars_of, decimal_text, ends, find_from, owned, parse_usize, quoted, same_text, slice_of,
    string_of, to_lowercase, trim,
};
use crate::units;
use crate::units::{number_end, read_numeral};
use vstd::prelude::*;

verus! {

/// Whether progress is shown: an explicit refusal wins, next an explicit wish, and otherwise it
/// is shown where standard error is a terminal.
pub fn resolve_progress(progress: bool, no_progress: bool, is_terminal: bool) -> (out: bool)
    ensures
        out == (!no_progress && (progress || is_terminal)),
{
    if no_progress {
        return false;
    }
    if progress {
        return true;
    }
    is_terminal
}

/// The factor and the divisor of a unit of bandwidth, in lower case, without `/s`.
pub open spec fn bandwidth_unit(u: Seq<char>) -> Option<(u64, u64)> {
    if u == ""@ || u == "b"@ || u == "byte"@ || u == "bytes"@ {
        Some((1, 1))
    } else if u == "kb"@ {
        Some((1_000, 1))
    } else if u == "mb"@ {
        Some((1_000_000, 1))
    } else if u == "gb"@ {
        Some((1_000_000_000, 1))
    } else if u == "tb"@ {
        Some((1_000_000_000_000, 1))
    } else if u == "kib"@ {
        Some((0x400, 1))
    } else if u == "mib"@ {
        Some((0x10_0000, 1))
    } else if u == "gib"@ {
        Some((0x4000_0000, 1))
    } else if u == "tib"@ {
        Some((0x100_0000_0000, 1))
    } else if u == "bps"@ {
        Some((1, 8))
    } else if u == "kbps"@ {
        Some((125, 1))
    } else if u == "mbps"@ {
        Some((125_000, 1))
    } else if u == "gbps"@ {
        Some((125_000_000, 1))
    } else if u == "tbps"@ {
        Some((125_000_000_000, 1))
    } else {
        None
    }
}

/// A text without `/s` at its end.
pub open spec fn without_per_second(lower: Seq<char>) -> Seq<char> {
    if text::ends_with(lower, "/s"@) {
        lower.take(lower.len() - "/s"@.len())
    } else {
        lower
    }
}

/// The bandwidth that a text in lower case gives, or what is wrong with it. `s` is the text as
/// it was given.
pub open spec fn lowered_bandwidth(lower: Seq<char>, s: Seq<char>) -> std::result::Result<
    u64,
    Seq<char>,
> {
    let body = without_per_second(lower);
    let num = units::number_of(body);
    let unit = units::unit_of(body);
    let q = text::debug_form(s);
    let whole = units::whole_of(num);
    let fraction = units::fraction_of(num);
    if num.len() == 0 {
        Err(
            "bandwidth must start with a number, got "@ + q
                + " (try e.g. 50Gbps, 1GB/s, 500MiB/s)"@,
        )
    } else if !units::is_numeral(num) {
        Err("bad bandwidth number "@ + text::debug_form(num) + " in "@ + q)
    } else if binary64::of_decimal(whole, fraction) >= vstd::arithmetic::power2::pow2(2098) {
        Err("bandwidth must be positive and finite, got "@ + q)
    } else {
        match bandwidth_unit(unit) {
            None => Err(
                "unknown bandwidth unit "@ + text::debug_form(unit) + " in "@ + q
                    + " (try Gbps, Mbps, GB/s, MiB/s, GiB/s, ...)"@,
            ),
            Some((factor, divisor)) => {
                let n = binary64::scaled(whole, fraction, factor as nat, divisor as nat)->0;
                if n == 0 {
                    Err("bandwidth "@ + q + " rounds to 0 bytes/sec"@)
                } else {
                    Ok(units::held(n))
                }
            },
        }
    }
}

/// The bandwidth that a text gives, in bytes per second, or what is wrong with it.
pub open spec fn bandwidth_of_text(s: Seq<char>) -> std::result::Result<u64, Seq<char>> {
    let raw = text::trimmed(s);
    if raw.len() == 0 {
        Err("empty bandwidth value"@)
    } else {
        lowered_bandwidth(text::lowercase(raw), s)
    }
}

/// The bandwidth that an ASCII text gives, in bytes per second, or what is wrong with it.
pub open spec fn ascii_bandwidth(s: Seq<char>) -> std::result::Result<u64, Seq<char>> {
    let raw = text::trimmed(s);
    if raw.len() == 0 {
        Err("empty bandwidth value"@)
    } else {
        lowered_bandwidth(text::lowered(raw), s)
    }
}

fn unit_rate(u: &str) -> (out: Option<(u64, u64)>)
    ensures
        out == bandwidth_unit(u@),
{
    if same_text(u, "") || same_text(u, "b") || same_text(u, "byte") || same_text(u, "bytes") {
        Some((1, 1))
    } else if same_text(u, "kb") {
        Some((1_000, 1))
    } else if same_text(u, "mb") {
        Some((1_000_000, 1))
    } else if same_text(u, "gb") {
        Some((1_000_000_000, 1))
    } else if same_text(u, "tb") {
        Some((1_000_000_000_000, 1))
    } else if same_text(u, "kib") {
        Some((0x400, 1))
    } else if same_text(u, "mib") {
        Some((0x10_0000, 1))
    } else if same_text(u, "gib") {
        Some((0x4000_0000, 1))
    } else if same_text(u, "tib") {
        Some((0x100_0000_0000, 1))
    } else if same_text(u, "bps") {
        Some((1, 8))
    } else if same_text(u, "kbps") {
        Some((125, 1))
    } else if same_text(u, "mbps") {
        Some((125_000, 1))
    } else if same_text(u, "gbps") {
        Some((125_000_000, 1))
    } else if same_text(u, "tbps") {
        Some((125_000_000_000, 1))
    } else {
        None
    }
}

/// Reads a bandwidth from a text in lower case. `s` is the text as it was given.
pub fn parse_lowered_bandwidth(lower: &str, s: &str) -> (out: std::result::Result<u64, String>)
    ensures
        units::agrees(out, lowered_bandwidth(lower@, s@)),
{
    let all = chars_of(lower);
    let suffix = chars_of("/s");
    let body = if ends(all.as_slice(), suffix.as_slice()) {
        slice_of(all.as_slice(), 0, all.len() - suffix.len())
    } else {
        slice_of(all.as_slice(), 0, all.len())
    };
    assert(body@ =~= without_per_second(lower@));
    let end = number_end(body.as_slice());
    let num = slice_of(body.as_slice(), 0, end);
    assert(num@ =~= units::number_of(body@));
    let tail = slice_of(body.as_slice(), end, body.len());
    assert(tail@ =~= body@.skip(end as int));
    let q = quoted(s);
    if num.len() == 0 {
        let mut e = owned("bandwidth must start with a number, got ");
        e.append(q.as_str());
        e.append(" (try e.g. 50Gbps, 1GB/s, 500MiB/s)");
        return Err(e);
    }
    let (whole, fraction) = match read_numeral(num.as_slice()) {
        Some(x) => x,
        None => {
            let mut e = owned("bad bandwidth number ");
            e.append(quoted(string_of(num.as_slice()).as_str()).as_str());
            e.append(" in ");
            e.append(q.as_str());
            return Err(e);
        },
    };
    let unit = string_of(trim(tail.as_slice()).as_slice());
    let rate = unit_rate(unit.as_str());
    let (factor, divisor) = match rate {
        Some(x) => x,
        None => (1, 1),
    };
    match binary64::scale(whole.as_slice(), fraction.as_slice(), factor, divisor) {
        None => {
            let mut e = owned("bandwidth must be positive and finite, got ");
            e.append(q.as_str());
            Err(e)
        },
        Some(n) => {
            if rate.is_none() {
                let mut e = owned("unknown bandwidth unit ");
                e.append(quoted(unit.as_str()).as_str());
                e.append(" in ");
                e.append(q.as_str());
                e.append(" (try Gbps, Mbps, GB/s, MiB/s, GiB/s, ...)");
                return Err(e);
            }
            if n == 0 {
                let mut e = owned("bandwidth ");
                e.append(q.as_str());
                e.append(" rounds to 0 bytes/sec");
                return Err(e);
            }
            Ok(n)
        },
    }
}

/// Reads a bandwidth in bytes per second: bit rates (`50Gbps`, `200Mbps`), byte rates in
/// decimal (`1GB/s`) and binary units (`500MiB/s`), or plain bytes per second. Upper and lower
/// case are the same, and `/s` may be left out.
pub fn parse_bandwidth(s: &str) -> (out: std::result::Result<u64, String>)
    ensures
        units::agrees(out, bandwidth_of_text(s@)),
        text::is_ascii(text::trimmed(s@)) ==> units::agrees(out, ascii_bandwidth(s@)),
{
    let chars = chars_of(s);
    let raw = trim(chars.as_slice());
    if raw.len() == 0 {
        return Err(owned("empty bandwidth value"));
    }
    let text = string_of(raw.as_slice());
    let lower = to_lowercase(text.as_str());
    parse_lowered_bandwidth(lower.as_str(), s)
}

/// A bandwidth that is accepted is never zero.
pub proof fn law_bandwidth_is_positive(s: Seq<char>)
    ensures
        bandwidth_of_text(s) matches Ok(n) ==> n >= 1,
        ascii_bandwidth(s) matches Ok(n) ==> n >= 1,
{
}

/// Upper and lower case are the same, and blanks around a bandwidth do not matter.
pub proof fn law_bandwidth_spelling_does_not_matter(s: Seq<char>)
    requires
        text::is_ascii(s),
    ensures
        text::is_ascii(text::trimmed(s)),
        text::is_ascii(text::trimmed(text::lowered(s))),
        text::is_ascii(text::trimmed(text::uppered(s))),
        units::same_value(ascii_bandwidth(text::lowered(s)), ascii_bandwidth(s)),
        units::same_value(ascii_bandwidth(text::uppered(s)), ascii_bandwidth(s)),
        forall|a: Seq<char>, b: Seq<char>|
            text::all_white(a) && text::all_white(b) ==> units::same_value(
                #[trigger] ascii_bandwidth(a + s + b),
                ascii_bandwidth(s),
            ),
{
    text::lemma_case(s);
    text::lemma_trimmed_ascii(s);
    text::lemma_trimmed_ascii(text::lowered(s));
    text::lemma_trimmed_ascii(text::uppered(s));
    assert forall|a: Seq<char>, b: Seq<char>|
        text::all_white(a) && text::all_white(b) implies units::same_value(
        #[trigger] ascii_bandwidth(a + s + b),
        ascii_bandwidth(s),
    ) by {
        text::lemma_trimmed_padded(a, s, b);
    }
}

/// White space behind a text is no part of its number.
proof fn lemma_number_len_padded(x: Seq<char>, w: Seq<char>)
    requires
        text::all_white(w),
    ensures
        units::number_len(x + w) == units::number_len(x),
        0 <= units::number_len(x) <= x.len(),
    decreases x.len(),
{
    if x.len() == 0 {
        assert(x + w =~= w);
    } else {
        assert((x + w)[0] == x[0]);
        assert((x + w).drop_first() =~= x.drop_first() + w);
        lemma_number_len_padded(x.drop_first(), w);
    }
}

/// The `/s` at the end is optional.
pub proof fn law_per_second_is_optional(s: Seq<char>)
    requires
        text::is_ascii(s),
        !text::ends_with(text::trimmed(s), "/s"@),
        !text::ends_with(text::trimmed(s), "/S"@),
    ensures
        text::is_ascii(text::trimmed(s)),
        text::is_ascii(text::trimmed(s + "/s"@)),
        units::same_value(ascii_bandwidth(s + "/s"@), ascii_bandwidth(s)),
{
    reveal_strlit("/s");
    reveal_strlit("/S");
    let end = "/s"@;
    let front = text::trimmed_start(s);
    let raw = text::trimmed(s);
    let tail = front.skip(raw.len() as int);
    text::lemma_trimmed_ascii(s);
    assert(text::is_ascii(s + end));
    text::lemma_trimmed_ascii(s + end);
    text::lemma_trimmed_start(s);
    text::lemma_trimmed_end(front);
    // What is trimmed in front goes first, and nothing is trimmed behind `/s`.
    let gone = s.take(s.len() - front.len());
    assert(s + end =~= gone + (front + end));
    text::lemma_trimmed_padded(gone, front + end, Seq::empty());
    assert(gone + (front + end) + Seq::<char>::empty() =~= s + end);
    assert((front + end)[0] == if front.len() > 0 {
        front[0]
    } else {
        '/'
    });
    text::lemma_trimmed_same(front + end);
    assert(text::trimmed(s + end) == front + end);
    // In lower case: the trimmed text, white space, `/s`.
    let x = text::lowered(raw);
    let w = text::lowered(tail);
    assert(text::lowered(front + end) =~= x + w + end);
    assert((x + w + end).skip((x + w).len() as int) =~= end);
    assert((x + w + end).take((x + w).len() as int) =~= x + w);
    assert(without_per_second(x + w + end) == x + w);
    assert(!text::ends_with(x, end)) by {
        if text::ends_with(x, end) {
            let n = x.len() - 2;
            assert(x.skip(n)[0] == '/' && x.skip(n)[1] == 's');
            assert(text::lower_char(raw[n]) == '/' && text::lower_char(raw[n + 1]) == 's');
            lemma_lower_is(raw[n]);
            lemma_lower_is(raw[n + 1]);
            if raw[n + 1] == 's' {
                assert(raw.skip(n) =~= "/s"@);
            } else {
                assert(raw.skip(n) =~= "/S"@);
            }
        }
    }
    assert(text::all_white(w)) by {
        assert forall|i: int| 0 <= i < w.len() implies text::is_white(#[trigger] w[i]) by {
            text::lemma_case_of(tail[i]);
        }
    }
    lemma_number_len_padded(x, w);
    let n = units::number_len(x);
    assert((x + w).take(n) =~= x.take(n));
    assert((x + w).skip(n) =~= x.skip(n) + w);
    text::lemma_trimmed_padded(Seq::empty(), x.skip(n), w);
    assert(Seq::<char>::empty() + x.skip(n) + w =~= x.skip(n) + w);
}

proof fn lemma_lower_is(c: char)
    ensures
        text::lower_char(c) == '/' ==> c == '/',
        text::lower_char(c) == 's' ==> c == 's' || c == 'S',
{
    if 'A' <= c && c <= 'Z' {
        assert(text::lower_char(c) as u32 == c as u32 + 32);
    }
}

/// The shard that a text gives, or what is wrong with it.
pub open spec fn shard_of_text(s: Seq<char>) -> std::result::Result<(usize, usize), Seq<char>> {
    let at = text::find(s, '/');
    let left = s.take(at);
    let right = s.skip(at + 1);
    if at >= s.len() {
        Err("expected INDEX/COUNT, got "@ + text::debug_form(s))
    } else {
        match text::parsed_number(left, usize::MAX as nat) {
            None => Err("bad shard index "@ + text::debug_form(left)),
            Some(i) => match text::parsed_number(right, usize::MAX as nat) {
                None => Err("bad shard count "@ + text::debug_form(right)),
                Some(n) => if n == 0 {
                    Err("shard count must be >= 1"@)
                } else if i >= n {
                    Err(
                        "shard index "@ + text::decimal(i) + " must be < count "@ + text::decimal(
                            n,
                        ),
                    )
                } else {
                    Ok((i as usize, n as usize))
                },
            },
        }
    }
}

/// Reads a shard, `INDEX/COUNT`.
pub fn parse_shard(s: &str) -> (out: std::result::Result<(usize, usize), String>)
    ensures
        match (out, shard_of_text(s@)) {
            (Ok(a), Ok(b)) => a == b,
            (Err(a), Err(b)) => a@ == b,
            _ => false,
        },
        out matches Ok(x) ==> x.0 < x.1,
{
    let chars = chars_of(s);
    let at = find_from(chars.as_slice(), '/', 0);
    proof {
        assert(chars@.skip(0) =~= chars@);
        text::lemma_find(s@, '/');
    }
    if at >= chars.len() {
        let mut e = owned("expected INDEX/COUNT, got ");
        e.append(quoted(s).as_str());
        return Err(e);
    }
    let left = slice_of(chars.as_slice(), 0, at);
    let right = slice_of(chars.as_slice(), at + 1, chars.len());
    assert(left@ =~= s@.take(at as int));
    assert(right@ =~= s@.skip(at + 1));
    let i = match parse_usize(left.as_slice()) {
        Some(i) => i,
        None => {
            let mut e = owned("bad shard index ");
            e.append(quoted(string_of(left.as_slice()).as_str()).as_str());
            return Err(e);
        },
    };
    let n = match parse_usize(right.as_slice()) {
        Some(n) => n,
        None => {
            let mut e = owned("bad shard count ");
            e.append(quoted(string_of(right.as_slice()).as_str()).as_str());
            return Err(e);
        },
    };
    if n == 0 {
        return Err(owned("shard count must be >= 1"));
    }
    if i >= n {
        let mut e = owned("shard index ");
        e.append(decimal_text(i as u64).as_str());
        e.append(" must be < count ");
        e.append(decimal_text(n as u64).as_str());
        return Err(e);
    }
    Ok((i, n))
}

/// What `azcp copy` is told.
pub struct CopyArgs {
    pub source: String,
    pub destination: String,
    pub recursive: bool,
    pub no_overwrite: bool,
    pub block_size: u64,
    pub concurrency: usize,
    pub parallel_files: usize,
    pub max_retries: u32,
    pub dry_run: bool,
    pub discard: bool,
    pub check_md5: bool,
    pub include_pattern: Option<String>,
    pub exclude_pattern: Option<String>,
    pub progress: bool,
    pub no_progress: bool,
    pub shard: Option<(usize, usize)>,
    pub workers: usize,
    pub shardlist: Option<String>,
    pub max_bandwidth: Option<u64>,
}

/// What `azcp sync` is told.
pub struct SyncArgs {
    pub source: String,
    pub destination: String,
    pub concurrency: usize,
    pub block_size: u64,
    pub parallel_files: usize,
    pub max_retries: u32,
    pub dry_run: bool,
    pub delete_destination: bool,
    pub compare_method: CompareMethod,
    pub include_pattern: Option<String>,
    pub exclude_pattern: Option<String>,
    pub progress: bool,
    pub no_progress: bool,
    pub shard: Option<(usize, usize)>,
}

/// How a sync decides whether a file is transferred again.
#[derive(Debug, Clone, Copy)]
pub enum CompareMethod {
    /// Where the sizes differ.
    Size,
    /// Where the sizes differ or the source is newer than the destination.
    SizeAndMtime,
    /// Where the local digest differs from the one that is stored with the blob.
    Md5,
    /// Always.
    Always,
}

/// What `azcp ls` is told.
pub struct ListArgs {
    pub url: String,
    pub recursive: bool,
    pub machine_readable: bool,
}

/// What `azcp rm` is told.
pub struct RemoveArgs {
    pub url: String,
    pub recursive: bool,
    pub dry_run: bool,
    pub concurrency: usize,
    pub max_retries: u32,
    pub include_pattern: Option<String>,
    pub exclude_pattern: Option<String>,
    pub progress: bool,
    pub no_progress: bool,
}

/// What `azcp mk` is told.
pub struct MakeArgs {
    pub url: String,
}

/// A command of `azcp`.
pub enum Command {
    /// Copy data between the local file system and Azure Blob Storage.
    Copy(CopyArgs),
    /// Transfer only what changed.
    Sync(SyncArgs),
    /// List containers or blobs.
    List(ListArgs),
    /// Remove blobs or containers.
    Remove(RemoveArgs),
    /// Create a container or a local directory.
    Make(MakeArgs),
    /// Show the environment variables.
    Env,
}

/// What `azcp` is told.
pub struct Cli {
    pub command: Command,
    pub log_level: String,
}

impl Cli {
    /// Whether the command is shared out between workers: a copy that asks for more than one.
    pub fn uses_workers(&self) -> (out: bool)
        ensures
            out == match self.command {
                Command::Copy(a) => a.workers > 1,
                _ => false,
            },
    {
        match &self.command {
            Command::Copy(a) => a.workers > 1,
            _ => false,
        }
    }
}

/// The units of bandwidths: bytes by thousands and by 1024, and bits by thousands, eight of them
/// a byte.
pub open spec fn is_bandwidth_unit(u: Seq<char>, m: nat) -> bool {
    ||| (u == "b"@ || u == "byte"@ || u == "bytes"@) && m == 1
    ||| (u == "kb"@) && m == 1000
    ||| (u == "mb"@) && m == 1000 * 1000
    ||| (u == "gb"@) && m == 1000 * 1000 * 1000
    ||| (u == "tb"@) && m == 1000 * 1000 * 1000 * 1000
    ||| (u == "kib"@) && m == 1024
    ||| (u == "mib"@) && m == 1024 * 1024
    ||| (u == "gib"@) && m == 1024 * 1024 * 1024
    ||| (u == "tib"@) && m == 1024 * 1024 * 1024 * 1024
    ||| u == "kbps"@ && 8 * m == 1000
    ||| u == "mbps"@ && 8 * m == 1000 * 1000
    ||| u == "gbps"@ && 8 * m == 1000 * 1000 * 1000
    ||| u == "tbps"@ && 8 * m == 1000 * 1000 * 1000 * 1000
}

proof fn lemma_bandwidth_unit(u: Seq<char>, m: nat)
    requires
        is_bandwidth_unit(u, m),
    ensures
        bandwidth_unit(u) == Some((m as u64, 1u64)),
        0 < m <= u64::MAX,
{
    reveal_strlit("");
    reveal_strlit("b");
    reveal_strlit("byte");
    reveal_strlit("bytes");
    reveal_strlit("kb");
    reveal_strlit("mb");
    reveal_strlit("gb");
    reveal_strlit("tb");
    reveal_strlit("kib");
    reveal_strlit("mib");
    reveal_strlit("gib");
    reveal_strlit("tib");
    reveal_strlit("bps");
    reveal_strlit("kbps");
    reveal_strlit("mbps");
    reveal_strlit("gbps");
    reveal_strlit("tbps");
    assert(""@.len() == 0);
    assert("b"@.len() == 1 && "b"@[0] == 'b');
    assert("byte"@.len() == 4 && "byte"@[0] == 'b' && "byte"@[1] == 'y' && "byte"@[2] == 't' && "byte"@[3] == 'e');
    assert("bytes"@.len() == 5 && "bytes"@[0] == 'b' && "bytes"@[1] == 'y' && "bytes"@[2] == 't' && "bytes"@[3] == 'e' && "bytes"@[4] == 's');
    assert("kb"@.len() == 2 && "kb"@[0] == 'k' && "kb"@[1] == 'b');
    assert("mb"@.len() == 2 && "mb"@[0] == 'm' && "mb"@[1] == 'b');
    assert("gb"@.len() == 2 && "gb"@[0] == 'g' && "gb"@[1] == 'b');
    assert("tb"@.len() == 2 && "tb"@[0] == 't' && "tb"@[1] == 'b');
    assert("kib"@.len() == 3 && "kib"@[0] == 'k' && "kib"@[1] == 'i' && "kib"@[2] == 'b');
    assert("mib"@.len() == 3 && "mib"@[0] == 'm' && "mib"@[1] == 'i' && "mib"@[2] == 'b');
    assert("gib"@.len() == 3 && "gib"@[0] == 'g' && "gib"@[1] == 'i' && "gib"@[2] == 'b');
    assert("tib"@.len() == 3 && "tib"@[0] == 't' && "tib"@[1] == 'i' && "tib"@[2] == 'b');
    assert("bps"@.len() == 3 && "bps"@[0] == 'b' && "bps"@[1] == 'p' && "bps"@[2] == 's');
    assert("kbps"@.len() == 4 && "kbps"@[0] == 'k' && "kbps"@[1] == 'b' && "kbps"@[2] == 'p' && "kbps"@[3] == 's');
    assert("mbps"@.len() == 4 && "mbps"@[0] == 'm' && "mbps"@[1] == 'b' && "mbps"@[2] == 'p' && "mbps"@[3] == 's');
    assert("gbps"@.len() == 4 && "gbps"@[0] == 'g' && "gbps"@[1] == 'b' && "gbps"@[2] == 'p' && "gbps"@[3] == 's');
    assert("tbps"@.len() == 4 && "tbps"@[0] == 't' && "tbps"@[1] == 'b' && "tbps"@[2] == 'p' && "tbps"@[3] == 's');
}

/// A bandwidth is its number times its unit, whatever the case of the letters, where that fits
/// 53 binary digits and is not zero.
pub proof fn law_bandwidth_is_number_times_unit(n: Seq<char>, t: Seq<char>, m: nat)
    requires
        text::all_digits(n),
        n.len() > 0,
        t.len() > 0,
        forall|i: int|
            0 <= i < t.len() ==> 'A' <= #[trigger] t[i] && t[i] <= 'Z' || 'a' <= t[i] && t[i]
                <= 'z',
        is_bandwidth_unit(text::lowered(t), m),
        text::digits_value(n) * m < 0x20_0000_0000_0000,
    ensures
        text::digits_value(n) > 0 ==> ascii_bandwidth(n + t) == std::result::Result::<
            u64,
            Seq<char>,
        >::Ok((text::digits_value(n) * m) as u64),
        text::digits_value(n) == 0 ==> ascii_bandwidth(n + t) is Err,
{
    reveal_strlit("/s");
    units::lemma_ascii_size(n, t);
    lemma_bandwidth_unit(text::lowered(t), m);
    units::lemma_plain_numeral(n);
    units::law_whole_numbers_are_exact(n, m);
    let low = text::lowered(text::trimmed(n + t));
    let s = n + t;
    assert(s[0] == n[0] && s.last() == t.last());
    text::lemma_trimmed_same(s);
    assert(!text::ends_with(low, "/s"@)) by {
        if text::ends_with(low, "/s"@) {
            let k = low.len() - 2;
            assert(low.skip(k)[0] == '/');
            assert(low[k] == text::lower_char(s[k]));
            lemma_lower_is(s[k]);
            if k < n.len() {
                assert(text::is_digit(n[k]));
            } else {
                assert(s[k] == t[k - n.len()]);
            }
        }
    }
    let d = text::digits_value(n);
    assert(d > 0 ==> d * m > 0) by (nonlinear_arith)
        requires
            m > 0,
    ;
    assert(d == 0 ==> d * m == 0) by (nonlinear_arith);
}

/// A shard is an index and a count with a `/` between them, the index below the count.
pub proof fn law_shards_are_read_back(i: nat, n: nat)
    requires
        i <= usize::MAX,
        n <= usize::MAX,
    ensures
        i < n ==> shard_of_text(text::decimal(i) + seq!['/'] + text::decimal(n))
            == std::result::Result::<(usize, usize), Seq<char>>::Ok((i as usize, n as usize)),
        i >= n ==> shard_of_text(text::decimal(i) + seq!['/'] + text::decimal(n)) is Err,
{
    let a = text::decimal(i);
    let b = text::decimal(n);
    let s = a + seq!['/'] + b;
    text::lemma_decimal_digits(i);
    text::law_decimal_parses_back(i, usize::MAX as nat);
    text::law_decimal_parses_back(n, usize::MAX as nat);
    assert forall|k: int| 0 <= k < a.len() implies s[k] != '/' by {
        assert(text::is_digit(a[k]));
        assert(s[k] == a[k]);
    }
    assert(s[a.len() as int] == '/');
    text::lemma_find_is(s, '/', a.len() as int);
    assert(s.take(a.len() as int) =~= a);
    assert(s.skip(a.len() as int + 1) =~= b);
}

/// What is no shard: a text without a `/`, and one with something other than a number on either
/// side of it.
pub proof fn law_what_is_no_shard(a: Seq<char>, b: Seq<char>)
    requires
        !a.contains('/'),
    ensures
        shard_of_text(a) is Err,
        text::parsed_number(a, usize::MAX as nat) is None || text::parsed_number(
            b,
            usize::MAX as nat,
        ) is None ==> shard_of_text(a + seq!['/'] + b) is Err,
{
    let s = a + seq!['/'] + b;
    text::lemma_find(a, '/');
    if text::find(a, '/') < a.len() {
        assert(a.contains(a[text::find(a, '/')]));
    }
    assert forall|k: int| 0 <= k < a.len() implies s[k] != '/' by {
        assert(a.contains(a[k]));
    }
    assert(s[a.len() as int] == '/');
    text::lemma_find_is(s, '/', a.len() as int);
    assert(s.take(a.len() as int) =~= a);
    assert(s.skip(a.len() as int + 1) =~= b);
}

/// A text whose lower case is that of its ASCII letters is read as an ASCII text.
pub proof fn law_ascii_bandwidths_are_bandwidths(s: Seq<char>)
    requires
        text::lowercase(text::trimmed(s)) == text::lowered(text::trimmed(s)),
    ensures
        bandwidth_of_text(s) == ascii_bandwidth(s),
{
}

/// What is said of a text that is no shard names the part that is wrong.
pub proof fn law_shard_complaints(a: Seq<char>, b: Seq<char>, i: nat, n: nat)
    requires
        !a.contains('/'),
        n <= i <= usize::MAX,
    ensures
        shard_of_text(a)->Err_0 == "expected INDEX/COUNT, got "@ + text::debug_form(a),
        n == 0 ==> shard_of_text(text::decimal(i) + seq!['/'] + text::decimal(n))->Err_0
            == "shard count must be >= 1"@,
        n > 0 ==> shard_of_text(text::decimal(i) + seq!['/'] + text::decimal(n))->Err_0
            == "shard index "@ + text::decimal(i) + " must be < count "@ + text::decimal(n),
        text::parsed_number(a, usize::MAX as nat) is None ==> shard_of_text(
            a + seq!['/'] + text::decimal(n),
        )->Err_0 == "bad shard index "@ + text::debug_form(a),
        text::parsed_number(b, usize::MAX as nat) is None ==> shard_of_text(
            text::decimal(i) + seq!['/'] + b,
        )->Err_0 == "bad shard count "@ + text::debug_form(b),
{
    law_what_is_no_shard(a, a);
    lemma_shard_parts(a, text::decimal(n));
    let d = text::decimal(i);
    text::lemma_decimal_digits(i);
    if d.contains('/') {
        let k = d.index_of('/');
        assert(text::is_digit(d[k]));
    }
    lemma_shard_parts(d, text::decimal(n));
    lemma_shard_parts(d, b);
    text::law_decimal_parses_back(i, usize::MAX as nat);
    text::law_decimal_parses_back(n, usize::MAX as nat);
    text::lemma_find(a, '/');
    if text::find(a, '/') < a.len() {
        assert(a.contains(a[text::find(a, '/')]));
    }
}

proof fn lemma_shard_parts(a: Seq<char>, b: Seq<char>)
    requires
        !a.contains('/'),
    ensures
        text::find(a + seq!['/'] + b, '/') == a.len(),
        (a + seq!['/'] + b).take(a.len() as int) == a,
        (a + seq!['/'] + b).skip(a.len() as int + 1) == b,
{
    let s = a + seq!['/'] + b;
    assert forall|k: int| 0 <= k < a.len() implies s[k] != '/' by {
        assert(a.contains(a[k]));
    }
    assert(s[a.len() as int] == '/');
    text::lemma_find_is(s, '/', a.len() as int);
    assert(s.take(a.len() as int) =~= a);
    assert(s.skip(a.len() as int + 1) =~= b);
}

/// Eight bits a second are a byte a second.
pub proof fn law_eight_bits_are_a_byte(n: Seq<char>, t: Seq<char>, k: nat)
    requires
        text::all_digits(n),
        n.len() > 0,
        t.len() == 3,
        forall|i: int|
            0 <= i < t.len() ==> 'A' <= #[trigger] t[i] && t[i] <= 'Z' || 'a' <= t[i] && t[i]
                <= 'z',
        text::lowered(t) == "bps"@,
        text::digits_value(n) == 8 * k,
        0 < 8 * k < 0x20_0000_0000_0000,
    ensures
        ascii_bandwidth(n + t) == std::result::Result::<u64, Seq<char>>::Ok(k as u64),
{
    reveal_strlit("/s");
    units::lemma_ascii_size(n, t);
    lemma_bits_unit();
    units::lemma_plain_numeral(n);
    binary64::lemma_exact_eighth(n, k);
    let s = n + t;
    assert(s[0] == n[0] && s.last() == t.last());
    text::lemma_trimmed_same(s);
    let low = text::lowered(text::trimmed(s));
    assert(!text::ends_with(low, "/s"@)) by {
        if text::ends_with(low, "/s"@) {
            let at = low.len() - 2;
            assert(low.skip(at)[0] == '/');
            assert(low[at] == text::lower_char(s[at]));
            lemma_lower_is(s[at]);
            assert(s[at] == t[at - n.len()]);
        }
    }
}

proof fn lemma_bits_unit()
    ensures
        bandwidth_unit("bps"@) == Some((1u64, 8u64)),
{
    reveal_strlit("");
    reveal_strlit("b");
    reveal_strlit("byte");
    reveal_strlit("bytes");
    reveal_strlit("kb");
    reveal_strlit("mb");
    reveal_strlit("gb");
    reveal_strlit("tb");
    reveal_strlit("kib");
    reveal_strlit("mib");
    reveal_strlit("gib");
    reveal_strlit("tib");
    reveal_strlit("bps");
    assert("kib"@.len() == 3 && "kib"@[0] == 'k');
    assert("mib"@.len() == 3 && "mib"@[0] == 'm');
    assert("gib"@.len() == 3 && "gib"@[0] == 'g');
    assert("tib"@.len() == 3 && "tib"@[0] == 't');
    assert("bps"@.len() == 3 && "bps"@[0] == 'b');
}

/// What is said of a text that is no bandwidth: that it is empty, or the text and what is wrong
/// with it.
pub proof fn law_bandwidth_complaints(t: Seq<char>, blank: Seq<char>)
    requires
        t.len() > 0,
        forall|i: int|
            0 <= i < t.len() ==> 'A' <= #[trigger] t[i] && t[i] <= 'Z' || 'a' <= t[i] && t[i]
                <= 'z',
        text::all_white(blank),
    ensures
        ascii_bandwidth(blank) == std::result::Result::<u64, Seq<char>>::Err(
            "empty bandwidth value"@,
        ),
        ascii_bandwidth(t) == std::result::Result::<u64, Seq<char>>::Err(
            "bandwidth must start with a number, got "@ + text::debug_form(t)
                + " (try e.g. 50Gbps, 1GB/s, 500MiB/s)"@,
        ),
{
    text::law_trimming_takes_the_white_space(blank, t, blank);
    text::lemma_trimmed_same(t);
    let low = text::lowered(t);
    text::lemma_case_of(t[0]);
    assert(low[0] == text::lower_char(t[0]));
    assert('a' <= low[0] && low[0] <= 'z');
    reveal_strlit("/s");
    if text::ends_with(low, "/s"@) {
        let at = low.len() - 2;
        assert(low.skip(at)[0] == '/');
        assert(low[at] == text::lower_char(t[at]));
        lemma_lower_is(t[at]);
        assert(t[at] == '/');
    }
}

} // verus!
