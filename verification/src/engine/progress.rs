//! What a progress display says.
use crate::storage::blob::client::RetryStats;
use crate::text;
use crate::text::{decimal_text, join, owned};
use vstd::prelude::*;

verus! {

/// A cause of retries and its count, where there were any.
pub open spec fn retry_part(label: Seq<char>, n: u64) -> Seq<Seq<char>> {
    if n > 0 {
        seq![label + text::decimal(n as nat)]
    } else {
        Seq::empty()
    }
}

/// What is said of retries: nothing where there were none.
pub open spec fn retry_text(s: RetryStats) -> Seq<char> {
    let parts = retry_part("503x"@, s.throttle_503) + retry_part("429x"@, s.throttle_429)
        + retry_part("5xx×"@, s.server_5xx) + retry_part("net×"@, s.transport_err);
    if parts.len() == 0 {
        Seq::empty()
    } else {
        "[retry "@ + text::joined(parts, " "@) + "]"@
    }
}

fn push_part(parts: &mut Vec<String>, label: &str, n: u64)
    ensures
        text::views(final(parts)@) == text::views(old(parts)@) + retry_part(label@, n),
{
    let ghost before = parts@;
    if n > 0 {
        let mut part = owned(label);
        part.append(decimal_text(n).as_str());
        parts.push(part);
    }
    assert(text::views(parts@) =~= text::views(before) + retry_part(label@, n));
}

/// What is said of retries.
pub fn format_retry_stats(s: &RetryStats) -> (out: String)
    ensures
        out@ == retry_text(*s),
{
    let mut parts: Vec<String> = Vec::new();
    assert(text::views(parts@) =~= Seq::<Seq<char>>::empty());
    push_part(&mut parts, "503x", s.throttle_503);
    push_part(&mut parts, "429x", s.throttle_429);
    push_part(&mut parts, "5xx×", s.server_5xx);
    push_part(&mut parts, "net×", s.transport_err);
    proof {
        let all = retry_part("503x"@, s.throttle_503) + retry_part("429x"@, s.throttle_429)
            + retry_part("5xx×"@, s.server_5xx) + retry_part("net×"@, s.transport_err);
        assert(text::views(parts@) =~= all);
        assert(parts@.len() == all.len());
    }
    if parts.len() == 0 {
        return String::new();
    }
    let mut out = owned("[retry ");
    out.append(join(&parts, " ").as_str());
    out.append("]");
    out
}

/// The files and bytes of a display. Counters are those of 64 bits.
pub struct ProgressState {
    pub total_files: u64,
    pub files_done: u64,
    pub total_bytes: u64,
}

/// What a display says: how many files are done, and the retries where there were any.
pub open spec fn message(done: u64, total: u64, stats: Option<RetryStats>) -> Seq<char> {
    let base = text::decimal(done as nat) + "/"@ + text::decimal(total as nat) + " files"@;
    match stats {
        Some(s) => if retry_text(s).len() == 0 {
            base
        } else {
            base + " "@ + retry_text(s)
        },
        None => base,
    }
}

impl ProgressState {
    pub fn new(total_files: u64, total_bytes: u64) -> (out: ProgressState)
        ensures
            out.total_files == total_files,
            out.total_bytes == total_bytes,
            out.files_done == 0,
    {
        ProgressState { total_files, files_done: 0, total_bytes }
    }

    /// More work was found. Gives the length of the bar, which is never 0.
    pub fn add_total(&mut self, files: u64, bytes: u64) -> (len: u64)
        requires
            old(self).total_files + files <= u64::MAX,
            old(self).total_bytes + bytes <= u64::MAX,
        ensures
            final(self).total_files == old(self).total_files + files,
            final(self).total_bytes == old(self).total_bytes + bytes,
            final(self).files_done == old(self).files_done,
            len == if final(self).total_bytes == 0 {
                1
            } else {
                final(self).total_bytes
            },
    {
        self.total_files = self.total_files + files;
        self.total_bytes = self.total_bytes + bytes;
        if self.total_bytes == 0 {
            1
        } else {
            self.total_bytes
        }
    }

    /// A file is done.
    pub fn complete_file(&mut self)
        requires
            old(self).files_done < u64::MAX,
        ensures
            final(self).files_done == old(self).files_done + 1,
            final(self).total_files == old(self).total_files,
            final(self).total_bytes == old(self).total_bytes,
    {
        self.files_done = self.files_done + 1;
    }

    /// What the display says.
    pub fn message(&self, stats: Option<&RetryStats>) -> (out: String)
        ensures
            out@ == message(
                self.files_done,
                self.total_files,
                match stats {
                    Some(s) => Some(*s),
                    None => None,
                },
            ),
    {
        let mut out = decimal_text(self.files_done);
        out.append("/");
        out.append(decimal_text(self.total_files).as_str());
        out.append(" files");
        match stats {
            Some(s) => {
                let r = format_retry_stats(s);
                if r.as_str().unicode_len() > 0 {
                    out.append(" ");
                    out.append(r.as_str());
                }
            },
            None => {},
        }
        out
    }
}

/// A cause of retries is told exactly where it occurred, with its count, in the order 503, 429,
/// other errors of the service, errors of the network; without retries nothing is told.
pub proof fn law_retries_are_told_by_cause(s: RetryStats)
    ensures
        s.throttle_503 == 0 && s.throttle_429 == 0 && s.server_5xx == 0 && s.transport_err == 0
            <==> retry_text(s).len() == 0,
        s.throttle_503 > 0 && s.throttle_429 == 0 && s.server_5xx == 0 && s.transport_err == 0
            ==> retry_text(s) == "[retry "@ + ("503x"@ + text::decimal(s.throttle_503 as nat))
            + "]"@,
        s.throttle_503 == 0 && s.throttle_429 > 0 && s.server_5xx == 0 && s.transport_err == 0
            ==> retry_text(s) == "[retry "@ + ("429x"@ + text::decimal(s.throttle_429 as nat))
            + "]"@,
        s.throttle_503 == 0 && s.throttle_429 == 0 && s.server_5xx > 0 && s.transport_err == 0
            ==> retry_text(s) == "[retry "@ + ("5xx×"@ + text::decimal(s.server_5xx as nat)) + "]"@,
        s.throttle_503 == 0 && s.throttle_429 == 0 && s.server_5xx == 0 && s.transport_err > 0
            ==> retry_text(s) == "[retry "@ + ("net×"@ + text::decimal(s.transport_err as nat))
            + "]"@,
        s.throttle_503 > 0 && s.throttle_429 > 0 && s.server_5xx > 0 && s.transport_err > 0
            ==> retry_text(s) == "[retry "@ + (("503x"@ + text::decimal(s.throttle_503 as nat))
            + " "@ + ("429x"@ + text::decimal(s.throttle_429 as nat)) + " "@ + ("5xx×"@
            + text::decimal(s.server_5xx as nat)) + " "@ + ("net×"@ + text::decimal(
            s.transport_err as nat,
        ))) + "]"@,
{
    reveal_strlit("[retry ");
    reveal_with_fuel(text::joined, 4);
    let a = retry_part("503x"@, s.throttle_503);
    let b = retry_part("429x"@, s.throttle_429);
    let c = retry_part("5xx×"@, s.server_5xx);
    let d = retry_part("net×"@, s.transport_err);
    let parts = a + b + c + d;
    if s.throttle_503 == 0 && s.throttle_429 == 0 && s.server_5xx == 0 {
        assert(parts =~= d);
    }
    if s.throttle_503 == 0 && s.throttle_429 == 0 && s.transport_err == 0 {
        assert(parts =~= c);
    }
    if s.throttle_503 == 0 && s.server_5xx == 0 && s.transport_err == 0 {
        assert(parts =~= b);
    }
    if s.throttle_429 == 0 && s.server_5xx == 0 && s.transport_err == 0 {
        assert(parts =~= a);
    }
    if s.throttle_503 > 0 && s.throttle_429 > 0 && s.server_5xx > 0 && s.transport_err > 0 {
        assert(parts.drop_last() =~= a + b + c);
        assert((a + b + c).drop_last() =~= a + b);
        assert((a + b).drop_last() =~= a);
        assert(parts.last() == d[0] && (a + b + c).last() == c[0] && (a + b).last() == b[0]);
    }
}

/// A display counts the files that are done, and adds the retries where there were any.
pub proof fn law_display_counts_files(done: u64, total: u64, s: RetryStats)
    ensures
        message(done, total, None) == text::decimal(done as nat) + "/"@ + text::decimal(
            total as nat,
        ) + " files"@,
        s.sum() == 0 ==> message(done, total, Some(s)) == message(done, total, None),
        s.sum() > 0 ==> message(done, total, Some(s)) == message(done, total, None) + " "@
            + retry_text(s),
{
    law_retries_are_told_by_cause(s);
}

} // verus!
