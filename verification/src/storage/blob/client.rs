//! What is asked of the Blob service, and what its replies mean.
//!
//! A request is built here and sent elsewhere. A reply comes back as its status, its headers
//! and its body.
use crate::address;
use crate::address::{parse_url, UrlParts};
use crate::auth::sas;
use crate::auth::Credential;
use crate::config::API_VERSION;
use crate::encoding;
use crate::encoding::{base64_encode, percent_encode};
use crate::error::AzcpError;
use crate::storage::blob::headers;
use crate::storage::blob::headers::{header_text, insert_header, new_headers};
use crate::storage::blob::models;
use crate::storage::blob::models::{
    build_block_list_xml, BlobInfo, BlobItem, BlobListResponse, BlobOrPrefix, BlockListEntry,
    ContainerItem, ContainerListResponse, StorageError, UploadOptions,
};
use crate::storage::location;
use crate::text;
use crate::text::{chars_of, clone_opt, decimal_text, owned, parse_u64, slice_of, string_of};
use reqwest::header::{HeaderMap, HeaderValue};
use vstd::prelude::*;

verus! {

/// How often requests were retried, by cause.
#[derive(Debug)]
pub struct RetryStats {
    pub throttle_503: u64,
    pub throttle_429: u64,
    pub server_5xx: u64,
    pub transport_err: u64,
}

impl Default for RetryStats {
    fn default() -> (out: Self)
        ensures
            out == (RetryStats {
                throttle_503: 0,
                throttle_429: 0,
                server_5xx: 0,
                transport_err: 0,
            }),
    {
        RetryStats { throttle_503: 0, throttle_429: 0, server_5xx: 0, transport_err: 0 }
    }
}

/// One more, as a counter of 64 bits counts.
pub open spec fn counted(n: u64) -> u64 {
    if n == u64::MAX {
        0
    } else {
        (n + 1) as u64
    }
}

fn count_one(n: u64) -> (out: u64)
    ensures
        out == counted(n),
{
    if n == u64::MAX {
        0
    } else {
        n + 1
    }
}

impl RetryStats {
    pub open spec fn sum(&self) -> int {
        self.throttle_503 + self.throttle_429 + self.server_5xx + self.transport_err
    }

    /// All retries.
    pub fn total(&self) -> (out: u64)
        requires
            self.sum() <= u64::MAX,
        ensures
            out == self.sum(),
    {
        self.throttle_503 + self.throttle_429 + self.server_5xx + self.transport_err
    }

    /// A request is retried because of its status.
    pub fn record_status(&mut self, status: u16)
        ensures
            *final(self) == if status == 503 {
                RetryStats { throttle_503: counted(old(self).throttle_503), ..*old(self) }
            } else if status == 429 {
                RetryStats { throttle_429: counted(old(self).throttle_429), ..*old(self) }
            } else {
                RetryStats { server_5xx: counted(old(self).server_5xx), ..*old(self) }
            },
    {
        if status == 503 {
            self.throttle_503 = count_one(self.throttle_503);
        } else if status == 429 {
            self.throttle_429 = count_one(self.throttle_429);
        } else {
            self.server_5xx = count_one(self.server_5xx);
        }
    }

    /// A request is retried because it did not get through.
    pub fn record_transport(&mut self)
        ensures
            *final(self) == (RetryStats {
                transport_err: counted(old(self).transport_err),
                ..*old(self)
            }),
    {
        self.transport_err = count_one(self.transport_err);
    }
}

/// How many buckets a latency histogram has.
pub const LATENCY_BUCKETS: usize = 16;

/// How long downloads took. Bucket 0 counts what took up to 1 ms, bucket `i` what took more than
/// `2^(i-1)` and up to `2^i` ms, and the last one all that took more than 16384 ms.
#[derive(Debug)]
pub struct LatencyStats {
    pub count: u64,
    pub sum_us: u64,
    pub min_us: u64,
    pub max_us: u64,
    pub bytes: u64,
    pub buckets: Vec<u64>,
}

/// The sum of two counters of 64 bits.
pub open spec fn wrapped(a: u64, b: u64) -> u64 {
    if a + b > u64::MAX {
        (a + b - u64::MAX - 1) as u64
    } else {
        (a + b) as u64
    }
}

/// The first of the buckets from `i` on whose upper end a duration does not pass; the last one
/// has none.
pub open spec fn bucket_from(dur_us: u64, i: int) -> int
    decreases 15 - i,
{
    if i >= 15 || dur_us <= 1000 * bucket_end(i) {
        i
    } else {
        bucket_from(dur_us, i + 1)
    }
}

/// The bucket of a duration.
pub open spec fn bucket_of(dur_us: u64) -> int {
    bucket_from(dur_us, 0)
}

proof fn lemma_bucket_from(dur_us: u64, i: int)
    requires
        0 <= i <= 15,
        i > 0 ==> dur_us > 1000 * bucket_end(i - 1),
    ensures
        i <= bucket_from(dur_us, i) <= 15,
        bucket_from(dur_us, i) < 15 ==> dur_us <= 1000 * bucket_end(bucket_from(dur_us, i)),
        bucket_from(dur_us, i) > 0 ==> dur_us > 1000 * bucket_end(bucket_from(dur_us, i) - 1),
    decreases 15 - i,
{
    if i < 15 && dur_us > 1000 * bucket_end(i) {
        lemma_bucket_from(dur_us, i + 1);
    }
}

/// A bucket holds the durations above its lower end and up to its upper end: bucket 0 from 0 to
/// 1 ms, bucket `i` above `2^(i-1)` and up to `2^i` ms, the last one all above 16384 ms.
pub proof fn law_bucket_bounds(dur_us: u64)
    ensures
        0 <= bucket_of(dur_us) <= 15,
        bucket_of(dur_us) < 15 ==> dur_us <= 1000 * bucket_end(bucket_of(dur_us)),
        bucket_of(dur_us) > 0 ==> dur_us > 1000 * bucket_end(bucket_of(dur_us) - 1),
        forall|i: int| 0 <= i < 15 ==> bucket_end(i + 1) == 2 * #[trigger] bucket_end(i),
{
    lemma_bucket_from(dur_us, 0);
}

/// The sum of the counts.
pub open spec fn total_of(s: Seq<u64>) -> nat
    decreases s.len(),
{
    if s.len() == 0 {
        0
    } else {
        total_of(s.drop_last()) + s.last() as nat
    }
}

/// The upper end of bucket `i`, in milliseconds.
pub open spec fn bucket_end(i: int) -> u64 {
    if i == 0 {
        1
    } else if i == 1 {
        2
    } else if i == 2 {
        4
    } else if i == 3 {
        8
    } else if i == 4 {
        16
    } else if i == 5 {
        32
    } else if i == 6 {
        64
    } else if i == 7 {
        128
    } else if i == 8 {
        256
    } else if i == 9 {
        512
    } else if i == 10 {
        1024
    } else if i == 11 {
        2048
    } else if i == 12 {
        4096
    } else if i == 13 {
        8192
    } else if i == 14 {
        16384
    } else {
        32768
    }
}

/// The bucket in which the `target`-th duration falls, the shortest first.
pub open spec fn bucket_reaching(s: Seq<u64>, target: u64, from: int) -> int
    decreases s.len() - from,
{
    if from >= s.len() || total_of(s.take(from + 1)) >= target {
        from
    } else {
        bucket_reaching(s, target, from + 1)
    }
}

proof fn lemma_total_grows(s: Seq<u64>, n: int)
    requires
        0 <= n <= s.len(),
    ensures
        total_of(s.take(n)) <= total_of(s),
    decreases s.len(),
{
    if n < s.len() {
        lemma_total_grows(s.drop_last(), n);
        assert(s.drop_last().take(n) == s.take(n));
    } else {
        assert(s.take(n) == s);
    }
}

fn wrapping_sum(a: u64, b: u64) -> (out: u64)
    ensures
        out == wrapped(a, b),
{
    let room: u64 = u64::MAX - a;
    if b > room {
        b - room - 1
    } else {
        a + b
    }
}

/// Whether `after` is `before` with one more download of `bytes` that took `dur_us`.
pub open spec fn is_recorded(
    before: LatencyStats,
    after: LatencyStats,
    dur_us: u64,
    bytes: u64,
) -> bool {
    &&& after.count == counted(before.count)
    &&& after.sum_us == wrapped(before.sum_us, dur_us)
    &&& after.bytes == wrapped(before.bytes, bytes)
    &&& after.min_us == if dur_us < before.min_us {
        dur_us
    } else {
        before.min_us
    }
    &&& after.max_us == if dur_us > before.max_us {
        dur_us
    } else {
        before.max_us
    }
    &&& after.buckets@ == before.buckets@.update(
        bucket_of(dur_us),
        counted(before.buckets@[bucket_of(dur_us)]),
    )
}

/// Whether nothing was recorded.
pub open spec fn is_unused(l: LatencyStats) -> bool {
    &&& l.count == 0
    &&& l.sum_us == 0
    &&& l.min_us == u64::MAX
    &&& l.max_us == 0
    &&& l.bytes == 0
    &&& l.buckets@ == Seq::new(16, |i: int| 0u64)
}

impl Default for LatencyStats {
    fn default() -> (out: Self)
        ensures
            out.wf(),
            is_unused(out),
    {
        let buckets = vec![0u64; LATENCY_BUCKETS];
        assert(buckets@ =~= Seq::new(16, |i: int| 0u64));
        LatencyStats { count: 0, sum_us: 0, min_us: u64::MAX, max_us: 0, bytes: 0, buckets }
    }
}

impl LatencyStats {
    pub open spec fn wf(&self) -> bool {
        self.buckets@.len() == LATENCY_BUCKETS
    }

    /// A download of `bytes` took `dur_us` microseconds.
    pub fn record(&mut self, dur_us: u64, bytes: u64)
        requires
            old(self).wf(),
        ensures
            final(self).wf(),
            is_recorded(*old(self), *final(self), dur_us, bytes),
    {
        self.count = count_one(self.count);
        self.sum_us = wrapping_sum(self.sum_us, dur_us);
        self.bytes = wrapping_sum(self.bytes, bytes);
        let mut end: u64 = 1;
        let mut bucket: usize = 0;
        while bucket < 15 && dur_us > 1000 * end
            invariant
                bucket <= 15,
                end == bucket_end(bucket as int),
                end <= 32768,
                bucket_of(dur_us) == bucket_from(dur_us, bucket as int),
            decreases 15 - bucket,
        {
            end = end * 2;
            bucket += 1;
        }
        let n = self.buckets[bucket];
        self.buckets.set(bucket, count_one(n));
        if dur_us < self.min_us {
            self.min_us = dur_us;
        }
        if dur_us > self.max_us {
            self.max_us = dur_us;
        }
    }

    /// How many durations the buckets hold.
    pub fn bucket_total(&self) -> (out: u64)
        requires
            self.wf(),
            total_of(self.buckets@) <= u64::MAX,
        ensures
            out == total_of(self.buckets@),
    {
        let mut acc: u64 = 0;
        let mut i: usize = 0;
        assert(self.buckets@.take(0) =~= Seq::<u64>::empty());
        while i < self.buckets.len()
            invariant
                i <= self.buckets@.len(),
                acc == total_of(self.buckets@.take(i as int)),
                total_of(self.buckets@) <= u64::MAX,
            decreases self.buckets@.len() - i,
        {
            proof {
                assert(self.buckets@.take(i + 1).drop_last() == self.buckets@.take(i as int));
                lemma_total_grows(self.buckets@, i + 1);
            }
            acc = acc + self.buckets[i];
            i += 1;
        }
        assert(self.buckets@.take(i as int) == self.buckets@);
        acc
    }

    /// The upper end, in milliseconds, of the bucket that the `target`-th duration falls in,
    /// the shortest first; 0 where there is none.
    pub fn percentile_ms(&self, target: u64) -> (out: u64)
        requires
            self.wf(),
            total_of(self.buckets@) <= u64::MAX,
        ensures
            out == if total_of(self.buckets@) == 0 {
                0
            } else if bucket_reaching(self.buckets@, target, 0) >= 16 {
                u64::MAX
            } else {
                bucket_end(bucket_reaching(self.buckets@, target, 0))
            },
    {
        if self.bucket_total() == 0 {
            return 0;
        }
        let mut acc: u64 = 0;
        let mut end: u64 = 1;
        let mut i: usize = 0;
        assert(self.buckets@.take(0) =~= Seq::<u64>::empty());
        while i < self.buckets.len()
            invariant
                self.wf(),
                i <= 16,
                acc == total_of(self.buckets@.take(i as int)),
                total_of(self.buckets@) <= u64::MAX,
                total_of(self.buckets@) > 0,
                i < 16 ==> end == bucket_end(i as int),
                end <= 65536,
                bucket_reaching(self.buckets@, target, 0) == bucket_reaching(
                    self.buckets@,
                    target,
                    i as int,
                ),
            decreases self.buckets@.len() - i,
        {
            proof {
                assert(self.buckets@.take(i + 1).drop_last() == self.buckets@.take(i as int));
                lemma_total_grows(self.buckets@, i + 1);
            }
            acc = acc + self.buckets[i];
            if acc >= target {
                return end;
            }
            if i < 15 {
                end = end * 2;
            }
            i += 1;
        }
        u64::MAX
    }
}

/// What a run of downloads came to, each given by its duration and its bytes.
#[verifier::ext_equal]
pub struct Tally {
    pub count: nat,
    pub sum_us: nat,
    pub min_us: u64,
    pub max_us: u64,
    pub bytes: nat,
    pub buckets: Seq<nat>,
}

/// One more download.
pub open spec fn tallied(t: Tally, call: (u64, u64)) -> Tally {
    Tally {
        count: t.count + 1,
        sum_us: t.sum_us + call.0 as nat,
        min_us: if call.0 < t.min_us {
            call.0
        } else {
            t.min_us
        },
        max_us: if call.0 > t.max_us {
            call.0
        } else {
            t.max_us
        },
        bytes: t.bytes + call.1 as nat,
        buckets: t.buckets.update(bucket_of(call.0), t.buckets[bucket_of(call.0)] + 1),
    }
}

/// What a run of downloads came to: how many there were, the sums of durations and bytes, the
/// shortest and the longest duration, and how many fall into each bucket.
pub open spec fn tally_of(calls: Seq<(u64, u64)>) -> Tally
    decreases calls.len(),
{
    if calls.len() == 0 {
        Tally {
            count: 0,
            sum_us: 0,
            min_us: u64::MAX,
            max_us: 0,
            bytes: 0,
            buckets: Seq::new(16, |i: int| 0nat),
        }
    } else {
        tallied(tally_of(calls.drop_last()), calls.last())
    }
}

/// The sum of the numbers.
pub open spec fn nat_total(s: Seq<nat>) -> nat
    decreases s.len(),
{
    if s.len() == 0 {
        0
    } else {
        nat_total(s.drop_last()) + s.last()
    }
}

proof fn lemma_nat_total_update(s: Seq<nat>, i: int)
    requires
        0 <= i < s.len(),
    ensures
        nat_total(s.update(i, s[i] + 1)) == nat_total(s) + 1,
    decreases s.len(),
{
    let u = s.update(i, s[i] + 1);
    if i == s.len() - 1 {
        assert(u.drop_last() =~= s.drop_last());
    } else {
        lemma_nat_total_update(s.drop_last(), i);
        assert(u.drop_last() =~= s.drop_last().update(i, s[i] + 1));
    }
}

proof fn lemma_zero_total(n: nat)
    ensures
        nat_total(Seq::new(n, |i: int| 0nat)) == 0,
    decreases n,
{
    if n > 0 {
        lemma_zero_total((n - 1) as nat);
        assert(Seq::new(n, |i: int| 0nat).drop_last() =~= Seq::new((n - 1) as nat, |i: int| 0nat));
    }
}

/// What the parts of a tally mean: the buckets add up to the number of downloads, no duration is
/// below the shortest or above the longest, and both did occur.
pub proof fn law_tally_adds_up(calls: Seq<(u64, u64)>)
    ensures
        tally_of(calls).count == calls.len(),
        tally_of(calls).buckets.len() == 16,
        nat_total(tally_of(calls).buckets) == calls.len(),
        tally_of(calls).sum_us == total_of(calls.map_values(|c: (u64, u64)| c.0)),
        tally_of(calls).bytes == total_of(calls.map_values(|c: (u64, u64)| c.1)),
        forall|j: int|
            0 <= j < calls.len() ==> tally_of(calls).min_us <= (#[trigger] calls[j]).0
                <= tally_of(calls).max_us,
        calls.len() == 0 ==> tally_of(calls).min_us == u64::MAX && tally_of(calls).max_us == 0,
        calls.len() > 0 ==> exists|j: int|
            0 <= j < calls.len() && (#[trigger] calls[j]).0 == tally_of(calls).min_us,
        calls.len() > 0 ==> exists|j: int|
            0 <= j < calls.len() && (#[trigger] calls[j]).0 == tally_of(calls).max_us,
    decreases calls.len(),
{
    let durations = calls.map_values(|c: (u64, u64)| c.0);
    let sizes = calls.map_values(|c: (u64, u64)| c.1);
    if calls.len() == 0 {
        lemma_zero_total(16);
    } else {
        let front = calls.drop_last();
        let t = tally_of(front);
        let last = calls.last();
        law_tally_adds_up(front);
        law_bucket_bounds(last.0);
        lemma_nat_total_update(t.buckets, bucket_of(last.0));
        assert(durations.drop_last() =~= front.map_values(|c: (u64, u64)| c.0));
        assert(sizes.drop_last() =~= front.map_values(|c: (u64, u64)| c.1));
        assert forall|j: int| 0 <= j < calls.len() implies tally_of(calls).min_us <= (
        #[trigger] calls[j]).0 <= tally_of(calls).max_us by {
            if j < front.len() {
                assert(front[j] == calls[j]);
            }
        }
        assert(calls[calls.len() - 1] == last);
        if front.len() > 0 {
            let a = choose|j: int| 0 <= j < front.len() && (#[trigger] front[j]).0 == t.min_us;
            let b = choose|j: int| 0 <= j < front.len() && (#[trigger] front[j]).0 == t.max_us;
            assert(calls[a] == front[a] && calls[b] == front[b]);
        }
    }
}

proof fn lemma_tally_len(calls: Seq<(u64, u64)>)
    ensures
        tally_of(calls).buckets.len() == 16,
    decreases calls.len(),
{
    if calls.len() > 0 {
        lemma_tally_len(calls.drop_last());
        law_bucket_bounds(calls.last().0);
    }
}

/// Two downloads can be tallied in either order.
proof fn lemma_tallied_commutes(t: Tally, a: (u64, u64), b: (u64, u64))
    requires
        t.buckets.len() == 16,
    ensures
        tallied(tallied(t, a), b) == tallied(tallied(t, b), a),
{
    law_bucket_bounds(a.0);
    law_bucket_bounds(b.0);
    assert(tallied(tallied(t, a), b) =~= tallied(tallied(t, b), a));
}

/// A download anywhere in a run can be tallied last.
proof fn lemma_tally_remove(calls: Seq<(u64, u64)>, i: int)
    requires
        0 <= i < calls.len(),
    ensures
        tally_of(calls) == tallied(tally_of(calls.remove(i)), calls[i]),
    decreases calls.len(),
{
    let rest = calls.remove(i);
    if i == calls.len() - 1 {
        assert(rest =~= calls.drop_last());
    } else {
        let front = calls.drop_last();
        lemma_tally_remove(front, i);
        assert(rest.drop_last() =~= front.remove(i));
        assert(rest.last() == calls.last());
        lemma_tally_len(front.remove(i));
        lemma_tallied_commutes(tally_of(front.remove(i)), calls[i], calls.last());
    }
}

/// The order of the downloads does not matter.
pub proof fn law_order_of_records_does_not_matter(a: Seq<(u64, u64)>, b: Seq<(u64, u64)>)
    requires
        a.to_multiset() == b.to_multiset(),
    ensures
        tally_of(a) == tally_of(b),
    decreases a.len(),
{
    broadcast use vstd::seq_lib::group_to_multiset_ensures;

    assert(a.len() == a.to_multiset().len());
    assert(b.len() == b.to_multiset().len());
    if a.len() > 0 {
        let x = a.last();
        assert(a.contains(x));
        assert(a.to_multiset().count(x) > 0);
        assert(b.contains(x));
        let i = b.index_of(x);
        lemma_tally_remove(b, i);
        assert(a.drop_last() =~= a.remove(a.len() - 1));
        assert(a.drop_last().to_multiset() =~= b.remove(i).to_multiset());
        law_order_of_records_does_not_matter(a.drop_last(), b.remove(i));
    }
}

/// After a run of records the counters hold what the run came to, as far as they can count.
pub proof fn law_counters_hold_the_run(states: Seq<LatencyStats>, calls: Seq<(u64, u64)>)
    requires
        states.len() == calls.len() + 1,
        is_unused(states[0]),
        forall|j: int|
            0 <= j < calls.len() ==> is_recorded(
                states[j],
                #[trigger] states[j + 1],
                calls[j].0,
                calls[j].1,
            ),
        tally_of(calls).count <= u64::MAX,
        tally_of(calls).sum_us <= u64::MAX,
        tally_of(calls).bytes <= u64::MAX,
    ensures
        states.last().count == tally_of(calls).count,
        states.last().sum_us == tally_of(calls).sum_us,
        states.last().min_us == tally_of(calls).min_us,
        states.last().max_us == tally_of(calls).max_us,
        states.last().bytes == tally_of(calls).bytes,
        states.last().buckets@.map_values(|n: u64| n as nat) == tally_of(calls).buckets,
        total_of(states.last().buckets@) == states.last().count,
    decreases calls.len(),
{
    let n = calls.len() as int;
    let end = states.last();
    law_tally_adds_up(calls);
    if n == 0 {
        assert(end.buckets@.map_values(|n: u64| n as nat) =~= tally_of(calls).buckets);
    } else {
        let front = calls.drop_last();
        let before = states.drop_last();
        assert forall|j: int| 0 <= j < front.len() implies is_recorded(
            before[j],
            #[trigger] before[j + 1],
            front[j].0,
            front[j].1,
        ) by {
            assert(is_recorded(states[j], states[j + 1], calls[j].0, calls[j].1));
        }
        law_counters_hold_the_run(before, front);
        law_tally_adds_up(front);
        assert(is_recorded(states[n - 1], states[n], calls[n - 1].0, calls[n - 1].1));
        let b = bucket_of(calls.last().0);
        law_bucket_bounds(calls.last().0);
        let old_buckets = before.last().buckets@;
        lemma_bucket_at_most(old_buckets, b);
        assert(old_buckets.map_values(|n: u64| n as nat)[b] == old_buckets[b] as nat);
        assert(end.buckets@.map_values(|n: u64| n as nat) =~= tally_of(calls).buckets);
    }
    lemma_totals_agree(end.buckets@);
}

proof fn lemma_bucket_at_most(s: Seq<u64>, i: int)
    requires
        0 <= i < s.len(),
    ensures
        s[i] <= total_of(s),
    decreases s.len(),
{
    if i < s.len() - 1 {
        lemma_bucket_at_most(s.drop_last(), i);
    }
}

proof fn lemma_totals_agree(s: Seq<u64>)
    ensures
        nat_total(s.map_values(|n: u64| n as nat)) == total_of(s),
    decreases s.len(),
{
    if s.len() > 0 {
        lemma_totals_agree(s.drop_last());
        assert(s.map_values(|n: u64| n as nat).drop_last() =~= s.drop_last().map_values(
            |n: u64| n as nat,
        ));
    }
}

#[derive(Debug, Clone, Copy, PartialEq, Eq)]
pub enum Method {
    Get,
    Put,
    Delete,
    Head,
}

/// A header of a request.
#[derive(Debug)]
pub struct Header {
    pub name: String,
    pub value: String,
}

/// A request, without credentials.
#[derive(Debug)]
pub struct Request {
    pub method: Method,
    pub url: UrlParts,
    pub extra: Vec<Header>,
    pub content_type: Option<String>,
}

pub open spec fn header_views(h: Seq<Header>) -> Seq<(Seq<char>, Seq<char>)> {
    h.map_values(|x: Header| (x.name@, x.value@))
}

/// Whether a request is the one for this address, or the error of an address that is not valid.
pub open spec fn is_request(
    out: std::result::Result<Request, AzcpError>,
    method: Method,
    text: Seq<char>,
    extra: Seq<(Seq<char>, Seq<char>)>,
    content_type: Option<Seq<char>>,
) -> bool {
    match (out, address::parsed_url(text)) {
        (Ok(r), Ok(u)) => r.method == method && r.url@ == u && header_views(r.extra@) == extra
            && text::opt_view(r.content_type) == content_type,
        (Err(AzcpError::InvalidUrl(e)), Err(m)) => e@ == m,
        _ => false,
    }
}

fn request(
    method: Method,
    text: &str,
    extra: Vec<Header>,
    content_type: Option<String>,
) -> (out: std::result::Result<Request, AzcpError>)
    ensures
        is_request(out, method, text@, header_views(extra@), text::opt_view(content_type)),
{
    match parse_url(text) {
        Ok(url) => Ok(Request { method, url, extra, content_type }),
        Err(e) => Err(AzcpError::InvalidUrl(e)),
    }
}

fn no_headers() -> (out: Vec<Header>)
    ensures
        header_views(out@) == Seq::<(Seq<char>, Seq<char>)>::empty(),
{
    let out: Vec<Header> = Vec::new();
    assert(header_views(out@) =~= Seq::<(Seq<char>, Seq<char>)>::empty());
    out
}

fn header(name: &str, value: &str) -> (out: Header)
    ensures
        out.name@ == name@,
        out.value@ == value@,
{
    Header { name: owned(name), value: owned(value) }
}

/// The address of a container.
pub open spec fn container_address(account: Seq<char>, container: Seq<char>) -> Seq<char> {
    location::service_address(account) + "/"@ + container
}

/// The address of a blob.
pub open spec fn blob_address(
    account: Seq<char>,
    container: Seq<char>,
    path: Seq<char>,
) -> Seq<char> {
    container_address(account, container) + "/"@ + path
}

fn service_text(account: &str) -> (out: String)
    ensures
        out@ == location::service_address(account@),
{
    let mut out = owned("https://");
    out.append(account);
    out.append(".blob.core.windows.net");
    out
}

fn container_text(account: &str, container: &str) -> (out: String)
    ensures
        out@ == container_address(account@, container@),
{
    let mut out = service_text(account);
    out.append("/");
    out.append(container);
    out
}

fn blob_text(account: &str, container: &str, path: &str) -> (out: String)
    ensures
        out@ == blob_address(account@, container@, path@),
{
    let mut out = container_text(account, container);
    out.append("/");
    out.append(path);
    out
}

/// The address of a page of containers.
pub open spec fn containers_address(account: Seq<char>, marker: Option<Seq<char>>) -> Seq<char> {
    let base = location::service_address(account) + "/?comp=list"@;
    match marker {
        Some(m) => base + "&marker="@ + m,
        None => base,
    }
}

/// The address of a page of blobs.
pub open spec fn blobs_address(
    account: Seq<char>,
    container: Seq<char>,
    prefix: Option<Seq<char>>,
    recursive: bool,
    marker: Option<Seq<char>>,
) -> Seq<char> {
    let base = container_address(account, container) + "?restype=container&comp=list"@;
    let named = match prefix {
        Some(p) => base + "&prefix="@ + encoding::percent_form(vstd::utf8::encode_utf8(p)),
        None => base,
    };
    let cut = if recursive {
        named
    } else {
        named + "&delimiter=/"@
    };
    match marker {
        Some(m) => cut + "&marker="@ + m,
        None => cut,
    }
}

/// The blobs of a page, in order.
pub open spec fn page_blobs(entries: Seq<BlobOrPrefix>) -> Seq<BlobItem>
    decreases entries.len(),
{
    if entries.len() == 0 {
        Seq::empty()
    } else {
        let front = page_blobs(entries.drop_last());
        match entries.last() {
            BlobOrPrefix::Blob(b) => front.push(b),
            BlobOrPrefix::BlobPrefix(_) => front,
        }
    }
}

/// The prefixes of a page, in order.
pub open spec fn page_prefixes(entries: Seq<BlobOrPrefix>) -> Seq<String>
    decreases entries.len(),
{
    if entries.len() == 0 {
        Seq::empty()
    } else {
        let front = page_prefixes(entries.drop_last());
        match entries.last() {
            BlobOrPrefix::Blob(_) => front,
            BlobOrPrefix::BlobPrefix(p) => front.push(p.name),
        }
    }
}

pub open spec fn page_entries(page: BlobListResponse) -> Seq<BlobOrPrefix> {
    match page.blobs {
        Some(list) => list.entries@,
        None => Seq::empty(),
    }
}

/// The marker of the next page: none where it is empty, as it is on the last page.
pub open spec fn next_marker(marker: Option<String>) -> Option<Seq<char>> {
    match marker {
        Some(m) => if m@.len() == 0 {
            None
        } else {
            Some(m@)
        },
        None => None,
    }
}

fn read_marker(marker: Option<String>) -> (out: Option<String>)
    ensures
        text::opt_view(out) == next_marker(marker),
{
    match marker {
        Some(m) => {
            if m.as_str().unicode_len() == 0 {
                None
            } else {
                Some(m)
            }
        },
        None => None,
    }
}

/// A listing of blobs that is read page by page.
pub struct BlobListing {
    pub account: String,
    pub container: String,
    pub prefix: Option<String>,
    pub recursive: bool,
    pub blobs: Vec<BlobItem>,
    pub prefixes: Vec<String>,
    pub marker: Option<String>,
}

impl BlobListing {
    pub fn new(
        account: &str,
        container: &str,
        prefix: Option<&str>,
        recursive: bool,
    ) -> (out: BlobListing)
        ensures
            out.account@ == account@,
            out.container@ == container@,
            text::opt_view(out.prefix) == text::opt_str_view(prefix),
            out.recursive == recursive,
            out.blobs@.len() == 0,
            out.prefixes@.len() == 0,
            out.marker is None,
    {
        let prefix = match prefix {
            Some(p) => Some(owned(p)),
            None => None,
        };
        BlobListing {
            account: owned(account),
            container: owned(container),
            prefix,
            recursive,
            blobs: Vec::new(),
            prefixes: Vec::new(),
            marker: None,
        }
    }

    /// The request for the next page.
    pub fn request(&self) -> (out: std::result::Result<Request, AzcpError>)
        ensures
            is_request(
                out,
                Method::Get,
                blobs_address(
                    self.account@,
                    self.container@,
                    text::opt_view(self.prefix),
                    self.recursive,
                    text::opt_view(self.marker),
                ),
                Seq::empty(),
                None,
            ),
    {
        let mut text = container_text(self.account.as_str(), self.container.as_str());
        text.append("?restype=container&comp=list");
        match &self.prefix {
            Some(p) => {
                text.append("&prefix=");
                text.append(percent_encode(p.as_str()).as_str());
            },
            None => {},
        }
        if !self.recursive {
            text.append("&delimiter=/");
        }
        match &self.marker {
            Some(m) => {
                text.append("&marker=");
                text.append(m.as_str());
            },
            None => {},
        }
        request(Method::Get, text.as_str(), no_headers(), None)
    }

    /// A page has arrived. Says whether it was the last one.
    pub fn on_page(&mut self, page: BlobListResponse) -> (last: bool)
        ensures
            final(self).account == old(self).account,
            final(self).container == old(self).container,
            final(self).prefix == old(self).prefix,
            final(self).recursive == old(self).recursive,
            final(self).blobs@ == old(self).blobs@ + page_blobs(page_entries(page)),
            final(self).prefixes@ == old(self).prefixes@ + page_prefixes(page_entries(page)),
            last == (next_marker(page.next_marker) is None),
            text::opt_view(final(self).marker) == next_marker(page.next_marker),
    {
        let ghost entries = page_entries(page);
        match page.blobs {
            Some(list) => {
                let mut back: Vec<BlobOrPrefix> = Vec::new();
                let mut rest = list.entries;
                while rest.len() > 0
                    invariant
                        rest@.len() <= entries.len(),
                        rest@ == entries.take(rest@.len() as int),
                        back@.len() == entries.len() - rest@.len(),
                        forall|i: int|
                            0 <= i < back@.len() ==> #[trigger] back@[i] == entries[entries.len()
                                - 1 - i],
                    decreases rest@.len(),
                {
                    match rest.pop() {
                        Some(e) => back.push(e),
                        None => {},
                    }
                    assert(rest@ == entries.take(rest@.len() as int));
                }
                let ghost b = back@;
                assert(entries.take(0) =~= Seq::<BlobOrPrefix>::empty());
                assert(self.blobs@ + page_blobs(entries.take(0)) =~= self.blobs@);
                assert(self.prefixes@ + page_prefixes(entries.take(0)) =~= self.prefixes@);
                while back.len() > 0
                    invariant
                        b.len() == entries.len(),
                        back@.len() <= b.len(),
                        back@ == b.take(back@.len() as int),
                        forall|i: int|
                            0 <= i < b.len() ==> #[trigger] b[i] == entries[entries.len() - 1 - i],
                        self.account == old(self).account,
                        self.container == old(self).container,
                        self.prefix == old(self).prefix,
                        self.recursive == old(self).recursive,
                        self.blobs@ == old(self).blobs@ + page_blobs(
                            entries.take(b.len() - back@.len()),
                        ),
                        self.prefixes@ == old(self).prefixes@ + page_prefixes(
                            entries.take(b.len() - back@.len()),
                        ),
                    decreases back@.len(),
                {
                    let ghost n = back@.len();
                    let ghost k = b.len() - n;
                    proof {
                        assert(entries.take(k + 1).drop_last() =~= entries.take(k));
                        assert(entries.take(k + 1).last() == entries[k]);
                        assert(b[n - 1] == entries[k]);
                    }
                    match back.pop() {
                        Some(BlobOrPrefix::Blob(item)) => {
                            let ghost before = self.blobs@;
                            self.blobs.push(item);
                            assert(old(self).blobs@ + page_blobs(entries.take(k)).push(item)
                                =~= before.push(item));
                        },
                        Some(BlobOrPrefix::BlobPrefix(p)) => {
                            let ghost before = self.prefixes@;
                            self.prefixes.push(p.name);
                            assert(old(self).prefixes@ + page_prefixes(entries.take(k)).push(
                                p.name,
                            ) =~= before.push(p.name));
                        },
                        None => {},
                    }
                    assert(back@ == b.take(back@.len() as int));
                }
                assert(entries.take(entries.len() as int) =~= entries);
            },
            None => {
                assert(self.blobs@ + page_blobs(entries) =~= self.blobs@);
                assert(self.prefixes@ + page_prefixes(entries) =~= self.prefixes@);
            },
        }
        self.marker = read_marker(page.next_marker);
        self.marker.is_none()
    }
}

/// A listing of containers that is read page by page.
pub struct ContainerListing {
    pub account: String,
    pub containers: Vec<ContainerItem>,
    pub marker: Option<String>,
}

pub open spec fn page_containers(page: ContainerListResponse) -> Seq<ContainerItem> {
    match page.containers {
        Some(list) => list.items@,
        None => Seq::empty(),
    }
}

impl ContainerListing {
    pub fn new(account: &str) -> (out: ContainerListing)
        ensures
            out.account@ == account@,
            out.containers@.len() == 0,
            out.marker is None,
    {
        ContainerListing { account: owned(account), containers: Vec::new(), marker: None }
    }

    /// The request for the next page.
    pub fn request(&self) -> (out: std::result::Result<Request, AzcpError>)
        ensures
            is_request(
                out,
                Method::Get,
                containers_address(self.account@, text::opt_view(self.marker)),
                Seq::empty(),
                None,
            ),
    {
        let mut text = service_text(self.account.as_str());
        text.append("/?comp=list");
        match &self.marker {
            Some(m) => {
                text.append("&marker=");
                text.append(m.as_str());
            },
            None => {},
        }
        request(Method::Get, text.as_str(), no_headers(), None)
    }

    /// A page has arrived. Says whether it was the last one.
    pub fn on_page(&mut self, page: ContainerListResponse) -> (last: bool)
        ensures
            final(self).account == old(self).account,
            final(self).containers@ == old(self).containers@ + page_containers(page),
            last == (next_marker(page.next_marker) is None),
            text::opt_view(final(self).marker) == next_marker(page.next_marker),
    {
        match page.containers {
            Some(list) => {
                let mut items = list.items;
                self.containers.append(&mut items);
            },
            None => {
                assert(self.containers@ + page_containers(page) =~= self.containers@);
            },
        }
        self.marker = read_marker(page.next_marker);
        self.marker.is_none()
    }
}

/// The headers of an upload: what kind of blob it is, that it must not exist yet where it must
/// not be overwritten, and its digest.
pub open spec fn upload_headers(options: UploadOptions) -> Seq<(Seq<char>, Seq<char>)> {
    let kind = seq![("x-ms-blob-type"@, "BlockBlob"@)];
    let fresh = if options.overwrite {
        kind
    } else {
        kind.push(("if-none-match"@, "*"@))
    };
    match options.content_md5 {
        Some(md5) => fresh.push(("content-md5"@, encoding::base64_of(md5@))),
        None => fresh,
    }
}

/// The headers of a commit of blocks. The body of a commit is the list of blocks, not the blob,
/// so the digest of the blob goes under a name of its own.
pub open spec fn commit_headers(
    options: UploadOptions,
    content_type: Option<Seq<char>>,
) -> Seq<(Seq<char>, Seq<char>)> {
    let none = Seq::<(Seq<char>, Seq<char>)>::empty();
    let fresh = if options.overwrite {
        none
    } else {
        none.push(("if-none-match"@, "*"@))
    };
    let digest = match options.content_md5 {
        Some(md5) => fresh.push(("x-ms-blob-content-md5"@, encoding::base64_of(md5@))),
        None => fresh,
    };
    match content_type {
        Some(ct) => if headers::is_header_text(ct) {
            digest.push(("x-ms-blob-content-type"@, ct))
        } else {
            digest
        },
        None => digest,
    }
}

/// The headers of an upload.
pub fn build_upload_headers(options: &UploadOptions) -> (out: Vec<Header>)
    ensures
        header_views(out@) == upload_headers(*options),
{
    let mut out: Vec<Header> = Vec::new();
    out.push(header("x-ms-blob-type", "BlockBlob"));
    assert(header_views(out@) =~= seq![("x-ms-blob-type"@, "BlockBlob"@)]);
    if !options.overwrite {
        let ghost before = out@;
        out.push(header("if-none-match", "*"));
        assert(header_views(out@) =~= header_views(before).push(("if-none-match"@, "*"@)));
    }
    match &options.content_md5 {
        Some(md5) => {
            let ghost before = out@;
            let value = base64_encode(md5.as_slice());
            out.push(header("content-md5", value.as_str()));
            assert(header_views(out@) =~= header_views(before).push(
                ("content-md5"@, encoding::base64_of(md5@)),
            ));
        },
        None => {},
    }
    out
}

/// The headers of a commit of blocks.
pub fn build_commit_headers(options: &UploadOptions, content_type: Option<&str>) -> (out: Vec<
    Header,
>)
    ensures
        header_views(out@) == commit_headers(*options, text::opt_str_view(content_type)),
{
    let mut out: Vec<Header> = Vec::new();
    assert(header_views(out@) =~= Seq::<(Seq<char>, Seq<char>)>::empty());
    if !options.overwrite {
        let ghost before = out@;
        out.push(header("if-none-match", "*"));
        assert(header_views(out@) =~= header_views(before).push(("if-none-match"@, "*"@)));
    }
    match &options.content_md5 {
        Some(md5) => {
            let ghost before = out@;
            let value = base64_encode(md5.as_slice());
            out.push(header("x-ms-blob-content-md5", value.as_str()));
            assert(header_views(out@) =~= header_views(before).push(
                ("x-ms-blob-content-md5"@, encoding::base64_of(md5@)),
            ));
        },
        None => {},
    }
    match content_type {
        Some(ct) => {
            if header_text(ct) {
                let ghost before = out@;
                out.push(header("x-ms-blob-content-type", ct));
                assert(header_views(out@) =~= header_views(before).push(
                    ("x-ms-blob-content-type"@, ct@),
                ));
            }
        },
        None => {},
    }
    out
}

/// The part of a blob that a request asks for.
pub open spec fn range_text(offset: u64, length: u64) -> Seq<char> {
    "bytes="@ + text::decimal(offset as nat) + "-"@ + text::decimal((offset + length - 1) as nat)
}

/// What a request to the Blob service is made with.
pub struct BlobClient {
    pub credential: Credential,
    pub max_retries: u32,
}

impl BlobClient {
    /// A client that retries five times.
    pub fn new(credential: Credential) -> (out: BlobClient)
        ensures
            out.credential == credential,
            out.max_retries == 5,
    {
        BlobClient::with_max_retries(credential, 5)
    }

    pub fn with_max_retries(credential: Credential, max_retries: u32) -> (out: BlobClient)
        ensures
            out.credential == credential,
            out.max_retries == max_retries,
    {
        BlobClient { credential, max_retries }
    }

    /// The request that creates a container.
    pub fn create_container(account: &str, container: &str) -> (out: std::result::Result<
        Request,
        AzcpError,
    >)
        ensures
            is_request(
                out,
                Method::Put,
                container_address(account@, container@) + "?restype=container"@,
                Seq::empty(),
                None,
            ),
    {
        let mut text = container_text(account, container);
        text.append("?restype=container");
        request(Method::Put, text.as_str(), no_headers(), None)
    }

    /// The request that deletes a container.
    pub fn delete_container(account: &str, container: &str) -> (out: std::result::Result<
        Request,
        AzcpError,
    >)
        ensures
            is_request(
                out,
                Method::Delete,
                container_address(account@, container@) + "?restype=container"@,
                Seq::empty(),
                None,
            ),
    {
        let mut text = container_text(account, container);
        text.append("?restype=container");
        request(Method::Delete, text.as_str(), no_headers(), None)
    }

    /// The request that uploads a whole blob.
    pub fn put_blob(
        account: &str,
        container: &str,
        blob_path: &str,
        content_type: Option<&str>,
        options: &UploadOptions,
    ) -> (out: std::result::Result<Request, AzcpError>)
        ensures
            is_request(
                out,
                Method::Put,
                blob_address(account@, container@, blob_path@),
                upload_headers(*options),
                Some(
                    match content_type {
                        Some(ct) => ct@,
                        None => "application/octet-stream"@,
                    },
                ),
            ),
    {
        let text = blob_text(account, container, blob_path);
        let ct = match content_type {
            Some(ct) => owned(ct),
            None => owned("application/octet-stream"),
        };
        request(Method::Put, text.as_str(), build_upload_headers(options), Some(ct))
    }

    /// The request that uploads a block.
    pub fn put_block(
        account: &str,
        container: &str,
        blob_path: &str,
        block_id: &str,
    ) -> (out: std::result::Result<Request, AzcpError>)
        ensures
            is_request(
                out,
                Method::Put,
                blob_address(account@, container@, blob_path@) + "?comp=block&blockid="@
                    + encoding::percent_form(vstd::utf8::encode_utf8(block_id@)),
                Seq::empty(),
                None,
            ),
    {
        let mut text = blob_text(account, container, blob_path);
        text.append("?comp=block&blockid=");
        text.append(percent_encode(block_id).as_str());
        request(Method::Put, text.as_str(), no_headers(), None)
    }

    /// The request that commits blocks, with its body.
    pub fn put_block_list(
        account: &str,
        container: &str,
        blob_path: &str,
        blocks: &[BlockListEntry],
        content_type: Option<&str>,
        options: &UploadOptions,
    ) -> (out: std::result::Result<(Request, String), AzcpError>)
        ensures
            is_request(
                match out {
                    Ok(x) => Ok(x.0),
                    Err(e) => Err(e),
                },
                Method::Put,
                blob_address(account@, container@, blob_path@) + "?comp=blocklist"@,
                commit_headers(*options, text::opt_str_view(content_type)),
                Some("application/xml"@),
            ),
            out matches Ok(x) ==> x.1@ == models::block_list_xml(blocks@),
    {
        let mut text = blob_text(account, container, blob_path);
        text.append("?comp=blocklist");
        match request(
            Method::Put,
            text.as_str(),
            build_commit_headers(options, content_type),
            Some(owned("application/xml")),
        ) {
            Ok(r) => Ok((r, build_block_list_xml(blocks))),
            Err(e) => Err(e),
        }
    }

    /// The request that downloads a whole blob.
    pub fn get_blob(account: &str, container: &str, blob_path: &str) -> (out: std::result::Result<
        Request,
        AzcpError,
    >)
        ensures
            is_request(
                out,
                Method::Get,
                blob_address(account@, container@, blob_path@),
                Seq::empty(),
                None,
            ),
    {
        let text = blob_text(account, container, blob_path);
        request(Method::Get, text.as_str(), no_headers(), None)
    }

    /// The request that downloads a part of a blob.
    pub fn get_blob_range(
        account: &str,
        container: &str,
        blob_path: &str,
        offset: u64,
        length: u64,
    ) -> (out: std::result::Result<Request, AzcpError>)
        requires
            length > 0,
            offset + length <= u64::MAX,
        ensures
            is_request(
                out,
                Method::Get,
                blob_address(account@, container@, blob_path@),
                seq![("x-ms-range"@, range_text(offset, length))],
                None,
            ),
    {
        let text = blob_text(account, container, blob_path);
        let mut range = owned("bytes=");
        range.append(decimal_text(offset).as_str());
        range.append("-");
        range.append(decimal_text(offset + length - 1).as_str());
        let mut extra: Vec<Header> = Vec::new();
        extra.push(header("x-ms-range", range.as_str()));
        assert(header_views(extra@) =~= seq![("x-ms-range"@, range_text(offset, length))]);
        request(Method::Get, text.as_str(), extra, None)
    }

    /// The request that asks what a blob is.
    pub fn get_blob_properties(
        account: &str,
        container: &str,
        blob_path: &str,
    ) -> (out: std::result::Result<Request, AzcpError>)
        ensures
            is_request(
                out,
                Method::Head,
                blob_address(account@, container@, blob_path@),
                Seq::empty(),
                None,
            ),
    {
        let text = blob_text(account, container, blob_path);
        request(Method::Head, text.as_str(), no_headers(), None)
    }

    /// The request that deletes a blob with its snapshots.
    pub fn delete_blob(
        account: &str,
        container: &str,
        blob_path: &str,
    ) -> (out: std::result::Result<Request, AzcpError>)
        ensures
            is_request(
                out,
                Method::Delete,
                blob_address(account@, container@, blob_path@),
                seq![("x-ms-delete-snapshots"@, "include"@)],
                None,
            ),
    {
        let text = blob_text(account, container, blob_path);
        let mut extra: Vec<Header> = Vec::new();
        extra.push(header("x-ms-delete-snapshots", "include"));
        assert(header_views(extra@) =~= seq![("x-ms-delete-snapshots"@, "include"@)]);
        request(Method::Delete, text.as_str(), extra, None)
    }

    /// All headers of a request but the one that carries the credential. They stand before a
    /// signature is computed, so it covers them.
    pub fn unsigned_headers(
        request: &Request,
        date: &str,
        content_length: Option<u64>,
    ) -> (out: HeaderMap<HeaderValue>)
        requires
            headers::is_header_text(date@),
            request.extra@.len() < 1_000,
            forall|i: int|
                0 <= i < request.extra@.len() ==> headers::is_header_name(
                    (#[trigger] request.extra@[i]).name@,
                ) && headers::is_header_text(request.extra@[i].value@),
        ensures
            headers::header_contents(out) == with_headers(
                base_headers(date@, text::opt_view(request.content_type), content_length),
                header_views(request.extra@),
            ),
            headers::header_contents(out).dom().finite(),
            headers::header_contents(out).dom().len() <= request.extra@.len() + 4,
    {
        let mut h = new_headers();
        proof {
            lemma_header_names();
            lemma_version_is_text();
        }
        insert_header(&mut h, "x-ms-date", date);
        insert_header(&mut h, "x-ms-version", API_VERSION);
        match &request.content_type {
            Some(ct) => {
                if header_text(ct.as_str()) {
                    insert_header(&mut h, "content-type", ct.as_str());
                }
            },
            None => {},
        }
        match content_length {
            Some(n) => {
                let text = decimal_text(n);
                proof {
                    lemma_decimal_is_text(n as nat);
                }
                insert_header(&mut h, "content-length", text.as_str());
            },
            None => {},
        }
        let ghost base = headers::header_contents(h);
        let ghost views = header_views(request.extra@);
        let mut i: usize = 0;
        assert(views.take(0) =~= Seq::<(Seq<char>, Seq<char>)>::empty());
        while i < request.extra.len()
            invariant
                i <= request.extra@.len(),
                request.extra@.len() < 1_000,
                views == header_views(request.extra@),
                forall|j: int|
                    0 <= j < request.extra@.len() ==> headers::is_header_name(
                        (#[trigger] request.extra@[j]).name@,
                    ) && headers::is_header_text(request.extra@[j].value@),
                headers::header_contents(h) == with_headers(base, views.take(i as int)),
                headers::header_contents(h).dom().finite(),
                headers::header_contents(h).dom().len() <= i + 4,
            decreases request.extra@.len() - i,
        {
            assert(views.take(i + 1).drop_last() =~= views.take(i as int));
            insert_header(
                &mut h,
                request.extra[i].name.as_str(),
                request.extra[i].value.as_str(),
            );
            i += 1;
        }
        assert(views.take(views.len() as int) =~= views);
        h
    }

    /// Adds the header that carries the credential: a bearer token, or the signature that was
    /// made with a shared key. Other credentials have none.
    pub fn authorize(&self, h: &mut HeaderMap<HeaderValue>, signature: &str)
        requires
            headers::is_header_text(signature@),
            self.credential matches Credential::Bearer { token } ==> headers::is_header_text(
                token@,
            ),
            headers::header_contents(*old(h)).dom().finite(),
            headers::header_contents(*old(h)).dom().len() < 2_000,
        ensures
            headers::header_contents(*final(h)) == match self.credential {
                Credential::SharedKey { .. } => headers::header_contents(*old(h)).insert(
                    "authorization"@,
                    signature@,
                ),
                Credential::Bearer { token } => headers::header_contents(*old(h)).insert(
                    "authorization"@,
                    "Bearer "@ + token@,
                ),
                _ => headers::header_contents(*old(h)),
            },
    {
        proof {
            lemma_header_names();
        }
        match &self.credential {
            Credential::SharedKey { .. } => insert_header(h, "authorization", signature),
            Credential::Bearer { token } => {
                let mut value = owned("Bearer ");
                value.append(token.as_str());
                proof {
                    reveal_strlit("Bearer ");
                    assert forall|i: int| 0 <= i < value@.len() implies headers::is_header_char(
                        #[trigger] value@[i],
                    ) by {
                        if i >= "Bearer "@.len() {
                            assert(value@[i] == token@[i - "Bearer "@.len()]);
                        }
                    }
                }
                insert_header(h, "authorization", value.as_str())
            },
            _ => {},
        }
    }

    /// Adds the token of the credential to an address, where the credential is one.
    pub fn apply_sas(&self, url: &mut UrlParts)
        requires
            self.credential matches Credential::Sas { token } ==> address::query_fits(
                old(url).text@,
                sas::query_with_token(old(url)@.3, token@),
            ),
        ensures
            match self.credential {
                Credential::Sas { token } => match address::url_with_query(
                    old(url).text@,
                    sas::query_with_token(old(url)@.3, token@),
                ) {
                    Some(v) => final(url)@ == v,
                    None => *final(url) == *old(url),
                },
                _ => *final(url) == *old(url),
            },
    {
        match &self.credential {
            Credential::Sas { token } => sas::append_sas_token(url, token.as_str()),
            _ => {},
        }
    }
}

/// The headers of every request: the date, the version of the service, the type of the body
/// where it can stand in a header, and the length of the body.
pub open spec fn base_headers(
    date: Seq<char>,
    content_type: Option<Seq<char>>,
    content_length: Option<u64>,
) -> Map<Seq<char>, Seq<char>> {
    let dated = headers::no_headers().insert("x-ms-date"@, date).insert(
        "x-ms-version"@,
        API_VERSION@,
    );
    let typed = match content_type {
        Some(ct) => if headers::is_header_text(ct) {
            dated.insert("content-type"@, ct)
        } else {
            dated
        },
        None => dated,
    };
    match content_length {
        Some(n) => typed.insert("content-length"@, text::decimal(n as nat)),
        None => typed,
    }
}

/// The headers with more of them, each replacing what stood under its name.
pub open spec fn with_headers(
    base: Map<Seq<char>, Seq<char>>,
    extra: Seq<(Seq<char>, Seq<char>)>,
) -> Map<Seq<char>, Seq<char>>
    decreases extra.len(),
{
    if extra.len() == 0 {
        base
    } else {
        with_headers(base, extra.drop_last()).insert(extra.last().0, extra.last().1)
    }
}

proof fn lemma_header_names()
    ensures
        headers::is_header_name("x-ms-date"@),
        headers::is_header_name("x-ms-version"@),
        headers::is_header_name("content-type"@),
        headers::is_header_name("content-length"@),
        headers::is_header_name("authorization"@),
{
    reveal_strlit("x-ms-date");
    reveal_strlit("x-ms-version");
    reveal_strlit("content-type");
    reveal_strlit("content-length");
    reveal_strlit("authorization");
}

proof fn lemma_version_is_text()
    ensures
        headers::is_header_text(API_VERSION@),
{
    reveal_strlit("2024-11-04");
}

proof fn lemma_decimal_is_text(n: nat)
    ensures
        headers::is_header_text(text::decimal(n)),
{
    text::lemma_decimal_digits(n);
    assert forall|i: int| 0 <= i < text::decimal(n).len() implies headers::is_header_char(
        #[trigger] text::decimal(n)[i],
    ) by {
        assert(text::is_digit(text::decimal(n)[i]));
    }
}

/// Whether a status means success.
pub open spec fn is_success(status: u16) -> bool {
    200 <= status < 300
}

/// Whether a status means that the blob exists already: a conflict, or a condition that failed.
pub open spec fn already_exists(status: u16) -> bool {
    status == 409 || status == 412
}

pub fn is_already_exists(status: u16) -> (out: bool)
    ensures
        out == already_exists(status),
{
    status == 409 || status == 412
}

/// Whether a status is worth another attempt: throttling and passing failures of the service.
pub open spec fn retryable(status: u16) -> bool {
    status == 429 || status == 500 || status == 502 || status == 503 || status == 504
}

pub fn is_retryable_status(status: u16) -> (out: bool)
    ensures
        out == retryable(status),
{
    status == 429 || status == 500 || status == 502 || status == 503 || status == 504
}

/// How a request failed to get through.
#[derive(Debug, Clone, Copy)]
pub struct TransportFailure {
    pub timeout: bool,
    pub connect: bool,
    pub request: bool,
    pub body: bool,
}

/// Whether a failure of the network is worth another attempt.
pub fn is_retryable_transport_err(e: TransportFailure) -> (out: bool)
    ensures
        out == (e.timeout || e.connect || e.request || e.body),
{
    e.timeout || e.connect || e.request || e.body
}

/// The message of an error reply: code and message of its body, or the first 200 characters of
/// a body that is none.
pub open spec fn error_message(parsed: Option<StorageError>, body: Seq<char>) -> Seq<char> {
    match parsed {
        Some(e) => e.code@ + ": "@ + e.message@,
        None => if body.len() <= 200 {
            body
        } else {
            body.take(200)
        },
    }
}

/// Whether an error is the one of an error reply.
pub open spec fn is_storage_error(
    e: AzcpError,
    status: u16,
    parsed: Option<StorageError>,
    body: Seq<char>,
) -> bool {
    match e {
        AzcpError::Storage { status: s, message } => s == status && message@ == error_message(
            parsed,
            body,
        ),
        _ => false,
    }
}

/// The error of an error reply. `parsed` is the body where it is an error body.
pub fn parse_error(status: u16, parsed: &Option<StorageError>, body: &str) -> (out: AzcpError)
    ensures
        is_storage_error(out, status, *parsed, body@),
{
    match parsed {
        Some(e) => {
            let mut message = owned(e.code.as_str());
            message.append(": ");
            message.append(e.message.as_str());
            AzcpError::Storage { status, message }
        },
        None => {
            let chars = chars_of(body);
            let n: usize = if chars.len() <= 200 {
                chars.len()
            } else {
                200
            };
            let front = slice_of(chars.as_slice(), 0, n);
            assert(front@ =~= error_message(*parsed, body@));
            AzcpError::Storage { status, message: string_of(front.as_slice()) }
        },
    }
}

/// What is asked for, as far as it matters for what a status means.
#[derive(Debug, Clone, Copy, PartialEq, Eq)]
pub enum Operation {
    /// A listing, a block or a download.
    Plain,
    CreateContainer,
    Delete,
    /// An upload of a blob or a commit of its blocks.
    Upload,
}

/// Whether a status means that an operation was done. A container that exists already is as
/// good as created.
pub open spec fn accepted(op: Operation, status: u16) -> bool {
    match op {
        Operation::Plain => is_success(status),
        Operation::CreateContainer => status == 201 || status == 409,
        Operation::Delete => is_success(status),
        Operation::Upload => is_success(status),
    }
}

/// What a status means for an operation.
pub fn outcome(
    op: Operation,
    status: u16,
    blob_path: &str,
    parsed: &Option<StorageError>,
    body: &str,
) -> (out: std::result::Result<(), AzcpError>)
    ensures
        match out {
            Ok(_) => accepted(op, status),
            Err(AzcpError::AlreadyExists(p)) => !accepted(op, status) && op == Operation::Upload
                && already_exists(status) && p@ == blob_path@,
            Err(e) => !accepted(op, status) && !(op == Operation::Upload && already_exists(status))
                && is_storage_error(e, status, *parsed, body@),
        },
{
    let ok = match op {
        Operation::CreateContainer => status == 201 || status == 409,
        _ => 200 <= status && status < 300,
    };
    if ok {
        return Ok(());
    }
    match op {
        Operation::Upload => {
            if is_already_exists(status) {
                return Err(AzcpError::AlreadyExists(owned(blob_path)));
            }
        },
        _ => {},
    }
    Err(parse_error(status, parsed, body))
}

/// The headers that say what a blob is, as far as they are there and are text.
pub struct BlobHeaders {
    pub content_length: Option<String>,
    pub content_type: Option<String>,
    pub last_modified: Option<String>,
    pub etag: Option<String>,
    pub content_md5: Option<String>,
}

/// What the reply to a question for a blob says: a missing or unreadable length is 0, and a
/// missing type is the one of plain bytes.
pub fn blob_info(status: u16, blob_path: &str, h: &BlobHeaders) -> (out: std::result::Result<
    BlobInfo,
    AzcpError,
>)
    ensures
        match out {
            Ok(i) => {
                &&& is_success(status)
                &&& i.name@ == blob_path@
                &&& i.content_length == match h.content_length {
                    Some(n) => match text::parsed_number(n@, u64::MAX as nat) {
                        Some(v) => v as u64,
                        None => 0,
                    },
                    None => 0,
                }
                &&& i.content_type@ == match h.content_type {
                    Some(t) => t@,
                    None => "application/octet-stream"@,
                }
                &&& i.last_modified == h.last_modified
                &&& i.etag == h.etag
                &&& i.content_md5 == h.content_md5
            },
            Err(AzcpError::Storage { status: s, message }) => !is_success(status) && s == status
                && message@ == "HEAD "@ + blob_path@ + " failed"@,
            Err(_) => false,
        },
{
    if !(200 <= status && status < 300) {
        let mut message = owned("HEAD ");
        message.append(blob_path);
        message.append(" failed");
        return Err(AzcpError::Storage { status, message });
    }
    let content_length = match &h.content_length {
        Some(n) => {
            let chars = chars_of(n.as_str());
            match parse_u64(chars.as_slice()) {
                Some(v) => v,
                None => 0,
            }
        },
        None => 0,
    };
    let content_type = match &h.content_type {
        Some(t) => t.clone(),
        None => owned("application/octet-stream"),
    };
    Ok(
        BlobInfo {
            name: owned(blob_path),
            content_length,
            content_type,
            last_modified: clone_opt(&h.last_modified),
            etag: clone_opt(&h.etag),
            content_md5: clone_opt(&h.content_md5),
        },
    )
}

/// The wait before attempt `attempt + 1`, without jitter: 500 ms, doubled each time, at most
/// 30 s.
pub open spec fn backoff_base(attempt: u32) -> u64 {
    if attempt <= 1 {
        500
    } else if attempt == 2 {
        1_000
    } else if attempt == 3 {
        2_000
    } else if attempt == 4 {
        4_000
    } else if attempt == 5 {
        8_000
    } else if attempt == 6 {
        16_000
    } else {
        30_000
    }
}

/// The wait before the next attempt, with a jitter of up to a quarter either way.
pub fn backoff_ms(attempt: u32, nanos: u64) -> (out: u64)
    requires
        attempt >= 1,
    ensures
        out == jittered(attempt, nanos),
        backoff_base(attempt) - backoff_base(attempt) / 4 <= out <= backoff_base(attempt)
            + backoff_base(attempt) / 4,
{
    let mut exp: u64 = 500;
    let mut k: u32 = 1;
    while k < attempt && exp < 30_000
        invariant
            1 <= k <= attempt,
            exp <= 32_000,
            k == 1 ==> exp == 500,
            k == 2 ==> exp == 1_000,
            k == 3 ==> exp == 2_000,
            k == 4 ==> exp == 4_000,
            k == 5 ==> exp == 8_000,
            k == 6 ==> exp == 16_000,
            k >= 7 ==> exp == 32_000,
        decreases attempt - k,
    {
        exp = exp * 2;
        k += 1;
    }
    let capped: u64 = if exp < 30_000 {
        exp
    } else {
        30_000
    };
    let range: u64 = capped / 4;
    let jitter: u64 = nanos % (range * 2 + 1);
    capped - range + jitter
}

/// The wait before the next attempt, with a jitter of up to a quarter either way.
pub open spec fn jittered(attempt: u32, nanos: u64) -> int {
    backoff_base(attempt) - backoff_base(attempt) / 4 + nanos as int % (2 * (backoff_base(attempt)
        / 4) + 1)
}

/// The wait before the next attempt after a reply: what the service asks for, in seconds, at
/// most a minute; else the usual wait.
pub open spec fn wait_after(retry_after: Option<Seq<char>>, attempt: u32, nanos: u64) -> int {
    match retry_after {
        Some(t) => match text::parsed_number(t, u64::MAX as nat) {
            Some(secs) => if secs * 1000 <= 60_000 {
                (secs * 1000) as int
            } else {
                60_000
            },
            None => jittered(attempt, nanos),
        },
        None => jittered(attempt, nanos),
    }
}

/// Whether the service asks for a wait, in seconds.
pub open spec fn asks_for_wait(retry_after: Option<Seq<char>>) -> bool {
    retry_after matches Some(t) && text::parsed_number(t, u64::MAX as nat) is Some
}

/// The wait before the next attempt after a reply.
pub fn retry_delay_ms(retry_after: Option<&str>, attempt: u32, nanos: u64) -> (out: u64)
    requires
        !asks_for_wait(text::opt_str_view(retry_after)) ==> attempt >= 1,
    ensures
        out == wait_after(text::opt_str_view(retry_after), attempt, nanos),
        out <= 60_000,
{
    match retry_after {
        Some(t) => {
            let chars = chars_of(t);
            match parse_u64(chars.as_slice()) {
                Some(secs) => {
                    return if secs <= 60 {
                        secs * 1000
                    } else {
                        60_000
                    };
                },
                None => {},
            }
        },
        None => {},
    }
    backoff_ms(attempt, nanos)
}

/// The attempts of one request.
#[derive(Debug, Clone, Copy)]
pub struct Attempts {
    pub attempt: u32,
    pub max_attempts: u32,
}

impl Attempts {
    pub open spec fn wf(&self) -> bool {
        1 <= self.attempt <= self.max_attempts
    }

    /// The first attempt. There is one more than there are retries.
    pub fn first(max_retries: u32) -> (out: Attempts)
        ensures
            out.wf(),
            out.attempt == 1,
            out.max_attempts == if max_retries == u32::MAX {
                u32::MAX as int
            } else {
                max_retries + 1
            },
    {
        let max_attempts: u32 = if max_retries == u32::MAX {
            u32::MAX
        } else {
            max_retries + 1
        };
        Attempts { attempt: 1, max_attempts }
    }

    /// A reply has arrived. Gives the wait before the next attempt, or nothing where the reply
    /// stands; counts the retry.
    pub fn on_status(
        &mut self,
        stats: &mut RetryStats,
        status: u16,
        retry_after: Option<&str>,
        nanos: u64,
    ) -> (out: Option<u64>)
        requires
            old(self).wf(),
        ensures
            final(self).wf(),
            final(self).max_attempts == old(self).max_attempts,
            out is Some <==> retryable(status) && old(self).attempt < old(self).max_attempts,
            match out {
                Some(d) => {
                    &&& final(self).attempt == old(self).attempt + 1
                    &&& d == wait_after(
                        text::opt_str_view(retry_after),
                        old(self).attempt,
                        nanos,
                    )
                    &&& *final(stats) == if status == 503 {
                        RetryStats {
                            throttle_503: counted(old(stats).throttle_503),
                            ..*old(stats)
                        }
                    } else if status == 429 {
                        RetryStats {
                            throttle_429: counted(old(stats).throttle_429),
                            ..*old(stats)
                        }
                    } else {
                        RetryStats { server_5xx: counted(old(stats).server_5xx), ..*old(stats) }
                    }
                },
                None => *final(self) == *old(self) && *final(stats) == *old(stats),
            },
    {
        if !is_retryable_status(status) || self.attempt >= self.max_attempts {
            return None;
        }
        stats.record_status(status);
        let delay = retry_delay_ms(retry_after, self.attempt, nanos);
        self.attempt = self.attempt + 1;
        Some(delay)
    }

    /// The request did not get through. Gives the wait before the next attempt, or nothing
    /// where the failure stands; counts the retry.
    pub fn on_transport(
        &mut self,
        stats: &mut RetryStats,
        failure: TransportFailure,
        nanos: u64,
    ) -> (out: Option<u64>)
        requires
            old(self).wf(),
        ensures
            final(self).wf(),
            final(self).max_attempts == old(self).max_attempts,
            out is Some <==> (failure.timeout || failure.connect || failure.request
                || failure.body) && old(self).attempt < old(self).max_attempts,
            match out {
                Some(d) => {
                    &&& final(self).attempt == old(self).attempt + 1
                    &&& d == jittered(old(self).attempt, nanos)
                    &&& *final(stats) == (RetryStats {
                        transport_err: counted(old(stats).transport_err),
                        ..*old(stats)
                    })
                },
                None => *final(self) == *old(self) && *final(stats) == *old(stats),
            },
    {
        if !is_retryable_transport_err(failure) || self.attempt >= self.max_attempts {
            return None;
        }
        stats.record_transport();
        let delay = backoff_ms(self.attempt, nanos);
        self.attempt = self.attempt + 1;
        Some(delay)
    }
}

/// Errors of the caller are never retried: of the statuses from 400 to 499 only the one that
/// asks to slow down is.
pub proof fn law_client_errors_are_final(status: u16)
    requires
        400 <= status < 500,
    ensures
        retryable(status) <==> status == 429,
{
}

/// The jitter stays within a quarter of the wait, and no wait is longer than 37.5 s, or than a
/// minute where the service asks for it.
pub proof fn law_backoff_is_bounded(retry_after: Option<Seq<char>>, attempt: u32, nanos: u64)
    ensures
        500 <= backoff_base(attempt) <= 30_000,
        backoff_base(attempt) - backoff_base(attempt) / 4 <= jittered(attempt, nanos)
            <= backoff_base(attempt) + backoff_base(attempt) / 4,
        jittered(attempt, nanos) <= 37_500,
        wait_after(retry_after, attempt, nanos) <= 60_000,
{
}

/// Where nothing is to be overwritten, the upload of a blob and the commit of its blocks both go
/// ahead only if the blob does not exist, and else neither says so.
pub proof fn law_overwriting_is_asked_for(
    options: UploadOptions,
    content_type: Option<Seq<char>>,
)
    ensures
        upload_headers(options).contains(("if-none-match"@, "*"@)) <==> !options.overwrite,
        commit_headers(options, content_type).contains(("if-none-match"@, "*"@))
            <==> !options.overwrite,
{
    reveal_strlit("content-md5");
    reveal_strlit("x-ms-blob-type");
    reveal_strlit("if-none-match");
    reveal_strlit("x-ms-blob-content-md5");
    reveal_strlit("x-ms-blob-content-type");
    let up = upload_headers(options);
    let commit = commit_headers(options, content_type);
    if !options.overwrite {
        assert(up[1] == ("if-none-match"@, "*"@));
        assert(commit[0] == ("if-none-match"@, "*"@));
    } else {
        assert("if-none-match"@.len() == 13);
        assert forall|i: int| 0 <= i < up.len() implies (#[trigger] up[i]).0.len() != 13 by {
            assert("content-md5"@.len() == 11);
            assert("x-ms-blob-type"@.len() == 14);
        }
        assert forall|i: int| 0 <= i < commit.len() implies (#[trigger] commit[i]).0.len()
            != 13 by {
            assert("x-ms-blob-content-md5"@.len() == 21);
            assert("x-ms-blob-content-type"@.len() == 22);
        }
    }
}

/// A commit sends the digest of the blob under a name of its own, never as the digest of the
/// body, and never the kind of the blob.
pub proof fn law_commit_never_claims_the_body_digest(
    options: UploadOptions,
    content_type: Option<Seq<char>>,
    i: int,
)
    requires
        0 <= i < commit_headers(options, content_type).len(),
    ensures
        commit_headers(options, content_type)[i].0 != "content-md5"@,
        commit_headers(options, content_type)[i].0 != "x-ms-blob-type"@,
{
    reveal_strlit("content-md5");
    reveal_strlit("x-ms-blob-type");
    reveal_strlit("if-none-match");
    reveal_strlit("x-ms-blob-content-md5");
    reveal_strlit("x-ms-blob-content-type");
    assert("content-md5"@.len() == 11);
    assert("x-ms-blob-type"@.len() == 14);
    assert("if-none-match"@.len() == 13);
    assert("x-ms-blob-content-md5"@.len() == 21);
    assert("x-ms-blob-content-type"@.len() == 22);
}

/// A request is what it was asked to be: its method, the address that its text reads as, the
/// extra headers in order, and the type of its body.
pub proof fn law_requests_carry_what_they_were_given(
    out: std::result::Result<Request, AzcpError>,
    method: Method,
    text: Seq<char>,
    extra: Seq<(Seq<char>, Seq<char>)>,
    content_type: Option<Seq<char>>,
)
    requires
        is_request(out, method, text, extra, content_type),
    ensures
        out is Ok <==> address::parsed_url(text) is Ok,
        out matches Ok(r) ==> {
            &&& r.method == method
            &&& r.url.text@ == address::parsed_url(text)->Ok_0.0
            &&& text::opt_view(r.url.query) == address::parsed_url(text)->Ok_0.3
            &&& r.url.path@ == address::parsed_url(text)->Ok_0.2
            &&& r.extra@.len() == extra.len()
            &&& forall|i: int|
                0 <= i < extra.len() ==> (#[trigger] r.extra@[i]).name@ == extra[i].0
                    && r.extra@[i].value@ == extra[i].1
            &&& content_type is Some <==> r.content_type is Some
            &&& content_type is Some ==> r.content_type->0@ == content_type->0
        },
        out matches Err(e) ==> e is InvalidUrl && e->InvalidUrl_0@ == address::parsed_url(
            text,
        )->Err_0,
{
    match out {
        Ok(r) => {
            assert forall|i: int| 0 <= i < extra.len() implies (#[trigger] r.extra@[i]).name@
                == extra[i].0 && r.extra@[i].value@ == extra[i].1 by {
                assert(header_views(r.extra@)[i] == (r.extra@[i].name@, r.extra@[i].value@));
            }
        },
        Err(_) => {},
    }
}

/// The addresses of containers and blobs name the account, the container and the path.
pub proof fn law_addresses_name_their_parts(
    account: Seq<char>,
    container: Seq<char>,
    path: Seq<char>,
    marker: Seq<char>,
)
    ensures
        container_address(account, container) == "https://"@ + account + ".blob.core.windows.net"@
            + "/"@ + container,
        blob_address(account, container, path) == container_address(account, container) + "/"@
            + path,
        containers_address(account, None) == "https://"@ + account + ".blob.core.windows.net"@
            + "/?comp=list"@,
        containers_address(account, Some(marker)) == containers_address(account, None)
            + "&marker="@ + marker,
{
}

/// A listing asks for what it was given: the prefix stands in the query exactly where there is
/// one, whether the listing is recursive or not; a listing that is not recursive adds the
/// delimiter and nothing else; and a later page adds its marker and nothing else.
pub proof fn law_listings_ask_for_their_prefix(
    account: Seq<char>,
    container: Seq<char>,
    prefix: Option<Seq<char>>,
    recursive: bool,
    marker: Seq<char>,
)
    ensures
        blobs_address(account, container, None, true, None) == "https://"@ + account
            + ".blob.core.windows.net"@ + "/"@ + container + "?restype=container&comp=list"@,
        prefix matches Some(p) ==> blobs_address(account, container, prefix, true, None)
            == blobs_address(account, container, None, true, None) + "&prefix="@
            + encoding::percent_form(vstd::utf8::encode_utf8(p)),
        blobs_address(account, container, prefix, false, None) == blobs_address(
            account,
            container,
            prefix,
            true,
            None,
        ) + "&delimiter=/"@,
        blobs_address(account, container, prefix, recursive, Some(marker)) == blobs_address(
            account,
            container,
            prefix,
            recursive,
            None,
        ) + "&marker="@ + marker,
{
}

/// The pages of a listing are read entry by entry: a blob is a blob of the listing, a prefix is a
/// prefix of it, and what stands on a page comes behind what stood there before.
pub proof fn law_pages_are_read_entry_by_entry(
    a: Seq<BlobOrPrefix>,
    b: Seq<BlobOrPrefix>,
    e: BlobOrPrefix,
)
    ensures
        page_blobs(a + b) == page_blobs(a) + page_blobs(b),
        page_prefixes(a + b) == page_prefixes(a) + page_prefixes(b),
        e matches BlobOrPrefix::Blob(x) ==> page_blobs(seq![e]) == seq![x] && page_prefixes(
            seq![e],
        ).len() == 0,
        e matches BlobOrPrefix::BlobPrefix(x) ==> page_prefixes(seq![e]) == seq![x.name]
            && page_blobs(seq![e]).len() == 0,
    decreases b.len(),
{
    reveal_with_fuel(page_blobs, 2);
    reveal_with_fuel(page_prefixes, 2);
    assert(seq![e].drop_last() =~= Seq::<BlobOrPrefix>::empty());
    if b.len() == 0 {
        assert(a + b =~= a);
        assert(page_blobs(a) + page_blobs(b) =~= page_blobs(a));
        assert(page_prefixes(a) + page_prefixes(b) =~= page_prefixes(a));
    } else {
        law_pages_are_read_entry_by_entry(a, b.drop_last(), e);
        assert((a + b).drop_last() =~= a + b.drop_last());
        assert((a + b).last() == b.last());
        match b.last() {
            BlobOrPrefix::Blob(x) => {
                assert(page_blobs(a) + page_blobs(b.drop_last()).push(x) =~= (page_blobs(a)
                    + page_blobs(b.drop_last())).push(x));
            },
            BlobOrPrefix::BlobPrefix(x) => {
                assert(page_prefixes(a) + page_prefixes(b.drop_last()).push(x.name) =~= (
                page_prefixes(a) + page_prefixes(b.drop_last())).push(x.name));
            },
        }
    }
}

/// A listing goes on exactly where the page has a marker that is not empty.
pub proof fn law_listing_goes_on_with_the_marker(marker: Option<String>)
    ensures
        next_marker(marker) is Some <==> marker is Some && marker->0@.len() > 0,
        next_marker(marker) matches Some(m) ==> m == marker->0@,
{
}

/// Every extra header stands in the headers that are sent, the last one of a name with its
/// value, and the other headers are as they were.
pub proof fn law_extra_headers_are_sent(
    base: Map<Seq<char>, Seq<char>>,
    extra: Seq<(Seq<char>, Seq<char>)>,
    name: Seq<char>,
)
    ensures
        forall|i: int|
            #![trigger extra[i]]
            0 <= i < extra.len() && extra[i].0 == name && (forall|j: int|
                i < j < extra.len() ==> (#[trigger] extra[j]).0 != name) ==> with_headers(
                base,
                extra,
            ).contains_key(name) && with_headers(base, extra)[name] == extra[i].1,
        (forall|i: int| 0 <= i < extra.len() ==> (#[trigger] extra[i]).0 != name) ==> (
        with_headers(base, extra).contains_key(name) <==> base.contains_key(name))
            && with_headers(base, extra)[name] == base[name],
    decreases extra.len(),
{
    if extra.len() > 0 {
        let front = extra.drop_last();
        law_extra_headers_are_sent(base, front, name);
        assert(extra[extra.len() - 1] == extra.last());
        assert forall|i: int|
            #![trigger extra[i]]
            0 <= i < extra.len() && extra[i].0 == name && (forall|j: int|
                i < j < extra.len() ==> (#[trigger] extra[j]).0 != name) implies with_headers(
            base,
            extra,
        ).contains_key(name) && with_headers(base, extra)[name] == extra[i].1 by {
            if i < extra.len() - 1 {
                assert(front[i] == extra[i]);
                assert forall|j: int| i < j < front.len() implies (#[trigger] front[j]).0
                    != name by {
                    assert(front[j] == extra[j]);
                }
                assert(extra[extra.len() - 1].0 != name);
            }
        }
        if forall|i: int| 0 <= i < extra.len() ==> (#[trigger] extra[i]).0 != name {
            assert forall|i: int| 0 <= i < front.len() implies (#[trigger] front[i]).0 != name by {
                assert(front[i] == extra[i]);
            }
        }
    }
}

/// The names of headers differ.
proof fn lemma_names_differ()
    ensures
        "x-ms-date"@.len() == 9,
        "x-ms-version"@.len() == 12,
        "content-type"@.len() == 12,
        "content-type"@ != "x-ms-version"@,
        "content-length"@.len() == 14,
        "content-length"@ != "x-ms-blob-type"@,
        "x-ms-blob-type"@.len() == 14,
        "if-none-match"@.len() == 13,
        "content-md5"@.len() == 11,
        "x-ms-blob-content-md5"@.len() == 21,
        "x-ms-blob-content-type"@.len() == 22,
{
    reveal_strlit("x-ms-date");
    reveal_strlit("x-ms-version");
    reveal_strlit("content-type");
    reveal_strlit("content-length");
    reveal_strlit("x-ms-blob-type");
    reveal_strlit("if-none-match");
    reveal_strlit("content-md5");
    reveal_strlit("x-ms-blob-content-md5");
    reveal_strlit("x-ms-blob-content-type");
    assert("content-type"@[0] == 'c' && "x-ms-version"@[0] == 'x');
    assert("content-length"@[0] == 'c' && "x-ms-blob-type"@[0] == 'x');
}

/// Every request says when it was made and for which version of the service, of which type its
/// body is where that is known and can stand in a header, and how long its body is where it has
/// one.
pub proof fn law_base_headers(
    date: Seq<char>,
    content_type: Option<Seq<char>>,
    content_length: Option<u64>,
    name: Seq<char>,
)
    ensures
        ({
            let h = base_headers(date, content_type, content_length);
            &&& h.contains_key("x-ms-date"@) && h["x-ms-date"@] == date
            &&& h.contains_key("x-ms-version"@) && h["x-ms-version"@] == API_VERSION@
            &&& h.contains_key("content-type"@) <==> content_type is Some
                && headers::is_header_text(content_type->0)
            &&& h.contains_key("content-type"@) ==> h["content-type"@] == content_type->0
            &&& h.contains_key("content-length"@) <==> content_length is Some
            &&& content_length matches Some(n) ==> h["content-length"@] == text::decimal(n as nat)
            &&& h.contains_key(name) ==> name == "x-ms-date"@ || name == "x-ms-version"@ || name
                == "content-type"@ || name == "content-length"@
        }),
{
    lemma_names_differ();
}

/// What an upload sends: that the blob is a block blob, that it must not exist exactly where it
/// must not be overwritten, and its digest exactly where there is one.
pub proof fn law_upload_sends_its_options(
    options: UploadOptions,
    base: Map<Seq<char>, Seq<char>>,
)
    requires
        !base.contains_key("if-none-match"@),
        !base.contains_key("content-md5"@),
    ensures
        ({
            let h = with_headers(base, upload_headers(options));
            &&& h.contains_key("x-ms-blob-type"@) && h["x-ms-blob-type"@] == "BlockBlob"@
            &&& h.contains_key("if-none-match"@) <==> !options.overwrite
            &&& !options.overwrite ==> h["if-none-match"@] == "*"@
            &&& h.contains_key("content-md5"@) <==> options.content_md5 is Some
            &&& options.content_md5 matches Some(d) ==> h["content-md5"@] == encoding::base64_of(
                d@,
            )
        }),
{
    lemma_names_differ();
    let up = upload_headers(options);
    law_extra_headers_are_sent(base, up, "x-ms-blob-type"@);
    law_extra_headers_are_sent(base, up, "if-none-match"@);
    law_extra_headers_are_sent(base, up, "content-md5"@);
    assert(up[0] == ("x-ms-blob-type"@, "BlockBlob"@));
    if !options.overwrite {
        assert(up[1] == ("if-none-match"@, "*"@));
    }
    if options.content_md5 is Some {
        assert(up[up.len() - 1].0 == "content-md5"@);
    }
}

/// What a commit of blocks sends: that the blob must not exist exactly where it must not be
/// overwritten, the digest of the blob exactly where there is one, and the type of the blob where
/// it can stand in a header. The type of the body is left alone.
pub proof fn law_commit_sends_its_options(
    options: UploadOptions,
    content_type: Option<Seq<char>>,
    base: Map<Seq<char>, Seq<char>>,
)
    requires
        !base.contains_key("if-none-match"@),
        !base.contains_key("x-ms-blob-content-md5"@),
        !base.contains_key("x-ms-blob-content-type"@),
    ensures
        ({
            let h = with_headers(base, commit_headers(options, content_type));
            &&& h.contains_key("if-none-match"@) <==> !options.overwrite
            &&& !options.overwrite ==> h["if-none-match"@] == "*"@
            &&& h.contains_key("x-ms-blob-content-md5"@) <==> options.content_md5 is Some
            &&& options.content_md5 matches Some(d) ==> h["x-ms-blob-content-md5"@]
                == encoding::base64_of(d@)
            &&& h.contains_key("x-ms-blob-content-type"@) <==> content_type is Some
                && headers::is_header_text(content_type->0)
            &&& h.contains_key("x-ms-blob-content-type"@) ==> h["x-ms-blob-content-type"@]
                == content_type->0
            &&& h.contains_key("content-type"@) <==> base.contains_key("content-type"@)
            &&& h["content-type"@] == base["content-type"@]
        }),
{
    lemma_names_differ();
    let up = commit_headers(options, content_type);
    law_extra_headers_are_sent(base, up, "if-none-match"@);
    law_extra_headers_are_sent(base, up, "x-ms-blob-content-md5"@);
    law_extra_headers_are_sent(base, up, "x-ms-blob-content-type"@);
    law_extra_headers_are_sent(base, up, "content-type"@);
    let fresh = if options.overwrite {
        0int
    } else {
        1int
    };
    if !options.overwrite {
        assert(up[0] == ("if-none-match"@, "*"@));
    }
    if options.content_md5 is Some {
        assert(up[fresh].0 == "x-ms-blob-content-md5"@);
    }
    if content_type is Some && headers::is_header_text(content_type->0) {
        assert(up[up.len() - 1] == ("x-ms-blob-content-type"@, content_type->0));
    }
}

/// A request for a part of a blob names its first and its last byte.
pub proof fn law_range_names_its_bytes(offset: u64, length: u64)
    requires
        length > 0,
        offset + length <= u64::MAX,
    ensures
        exists|a: Seq<char>, b: Seq<char>|
            #![trigger text::digits_value(a), text::digits_value(b)]
            range_text(offset, length) == "bytes="@ + a + "-"@ + b && text::all_digits(a)
                && text::all_digits(b) && a.len() > 0 && b.len() > 0 && text::digits_value(a)
                == offset && text::digits_value(b) + 1 == offset + length,
{
    let a = text::decimal(offset as nat);
    let b = text::decimal((offset + length - 1) as nat);
    text::lemma_decimal_digits(offset as nat);
    text::lemma_decimal_digits((offset + length - 1) as nat);
    assert(text::digits_value(a) == offset && text::digits_value(b) + 1 == offset + length);
}

/// The wait doubles from attempt to attempt, up to half a minute.
pub proof fn law_backoff_doubles(attempt: u32)
    requires
        1 <= attempt < u32::MAX,
    ensures
        backoff_base(1) == 500,
        backoff_base((attempt + 1) as u32) == if 2 * backoff_base(attempt) <= 30_000 {
            2 * backoff_base(attempt)
        } else {
            30_000
        },
{
}

/// What the service asks for is waited, at most a minute; else the usual wait is taken, which is
/// within a quarter of the backoff.
pub proof fn law_the_service_sets_the_wait(secs: u64, attempt: u32, nanos: u64)
    requires
        attempt >= 1,
    ensures
        wait_after(Some(text::decimal(secs as nat)), attempt, nanos) == if secs <= 60 {
            secs as int * 1000
        } else {
            60_000
        },
        backoff_base(attempt) - backoff_base(attempt) / 4 <= wait_after(None, attempt, nanos)
            <= backoff_base(attempt) + backoff_base(attempt) / 4,
{
    text::law_decimal_parses_back(secs as nat, u64::MAX as nat);
}

/// The percentile of a histogram is the upper end of the first bucket with which enough durations
/// are reached.
pub proof fn law_percentile_is_the_first_bucket_that_reaches(s: Seq<u64>, target: u64)
    requires
        target <= total_of(s),
        s.len() > 0,
    ensures
        ({
            let b = bucket_reaching(s, target, 0);
            &&& 0 <= b < s.len()
            &&& total_of(s.take(b + 1)) >= target
            &&& forall|i: int| 0 <= i < b ==> total_of(#[trigger] s.take(i + 1)) < target
        }),
        bucket_end(0) == 1,
{
    lemma_bucket_reaching(s, target, 0);
}

proof fn lemma_bucket_reaching(s: Seq<u64>, target: u64, from: int)
    requires
        target <= total_of(s),
        0 <= from < s.len(),
        forall|i: int| 0 <= i < from ==> total_of(#[trigger] s.take(i + 1)) < target,
    ensures
        ({
            let b = bucket_reaching(s, target, from);
            &&& from <= b < s.len()
            &&& total_of(s.take(b + 1)) >= target
            &&& forall|i: int| 0 <= i < b ==> total_of(#[trigger] s.take(i + 1)) < target
        }),
    decreases s.len() - from,
{
    assert(s.take(s.len() as int) =~= s);
    if total_of(s.take(from + 1)) < target {
        if from + 1 < s.len() {
            lemma_bucket_reaching(s, target, from + 1);
        }
    }
}

/// Counters go up by one, from the largest number to zero, and sums likewise.
pub proof fn law_counters_wrap_around(a: u64, b: u64)
    ensures
        a < u64::MAX ==> counted(a) == a + 1,
        counted(u64::MAX) == 0,
        a + b <= u64::MAX ==> wrapped(a, b) == a + b,
        a + b > u64::MAX ==> wrapped(a, b) == a + b - 0x1_0000_0000_0000_0000,
{
}

/// A bucket counts the downloads that took longer than the bucket before and no longer than it.
pub proof fn law_buckets_count_durations(calls: Seq<(u64, u64)>, b: int)
    requires
        0 <= b < 16,
    ensures
        tally_of(calls).buckets[b] == calls.filter(
            |c: (u64, u64)|
                (b == 0 || c.0 > 1000 * bucket_end(b - 1)) && (b == 15 || c.0 <= 1000 * bucket_end(
                    b,
                )),
        ).len(),
    decreases calls.len(),
{
    reveal(Seq::filter);
    if calls.len() > 0 {
        law_buckets_count_durations(calls.drop_last(), b);
        lemma_tally_len(calls.drop_last());
        law_bucket_bounds(calls.last().0);
        let d = calls.last().0;
        let at = bucket_of(d);
        if b < at {
            assert(d > 1000 * bucket_end(b));
        } else if b > at {
            assert(d <= 1000 * bucket_end(b - 1));
        }
    }
}

/// The entries of a page are those that the service listed, none where it listed nothing.
pub proof fn law_pages_hold_what_was_listed(
    page: BlobListResponse,
    containers: ContainerListResponse,
)
    ensures
        page.blobs matches Some(l) ==> page_entries(page) == l.entries@,
        page.blobs is None ==> page_entries(page).len() == 0,
        containers.containers matches Some(l) ==> page_containers(containers) == l.items@,
        containers.containers is None ==> page_containers(containers).len() == 0,
{
}

/// What is retried: being asked to slow down, and the errors of a service that is overloaded or
/// cannot be reached.
pub proof fn law_retried_statuses(status: u16)
    ensures
        retryable(status) ==> status == 429 || 500 <= status <= 504,
        status == 429 || status == 500 || 502 <= status <= 504 ==> retryable(status),
        status == 501 ==> !retryable(status),
{
}

/// An operation is done with any status of success, and a container also where it exists
/// already; an upload alone takes a conflict or a failed condition to mean that the blob exists.
pub proof fn law_statuses_of_operations(op: Operation, status: u16)
    ensures
        is_success(status) <==> status / 100 == 2,
        op != Operation::CreateContainer ==> (accepted(op, status) <==> status / 100 == 2),
        accepted(Operation::CreateContainer, status) <==> status == 201 || status == 409,
        already_exists(status) <==> status == 409 || status == 412,
        already_exists(status) ==> !is_success(status) && !retryable(status),
{
}

/// The error of a reply holds its status, and the code and the message of its body, or at most
/// 200 characters of a body that is no error.
pub proof fn law_error_replies(
    e: AzcpError,
    status: u16,
    parsed: Option<StorageError>,
    body: Seq<char>,
)
    requires
        is_storage_error(e, status, parsed, body),
    ensures
        e matches AzcpError::Storage { status: s, message } && s == status && {
            &&& parsed matches Some(p) ==> message@ == p.code@ + ": "@ + p.message@
            &&& parsed is None && body.len() <= 200 ==> message@ == body
            &&& parsed is None && body.len() > 200 ==> message@.len() == 200 && message@
                == body.take(200)
        },
{
}

/// The extra headers of a request are handed on one by one.
pub proof fn law_headers_are_handed_on(h: Seq<Header>, i: int)
    requires
        0 <= i < h.len(),
    ensures
        header_views(h).len() == h.len(),
        header_views(h)[i].0 == h[i].name@,
        header_views(h)[i].1 == h[i].value@,
{
}

/// The jitter goes through every wait within a quarter of the backoff, one after the other as the
/// clock does.
pub proof fn law_jitter_goes_with_the_clock(attempt: u32, k: u64, m: u64, nanos: u64)
    requires
        k <= 2 * (backoff_base(attempt) / 4),
        nanos == m * (2 * (backoff_base(attempt) / 4) + 1) + k,
    ensures
        jittered(attempt, nanos) == backoff_base(attempt) - backoff_base(attempt) / 4 + k,
{
    let d = 2 * (backoff_base(attempt) as int / 4) + 1;
    vstd::arithmetic::div_mod::lemma_fundamental_div_mod_converse(
        nanos as int,
        d,
        m as int,
        k as int,
    );
}

} // verus!
