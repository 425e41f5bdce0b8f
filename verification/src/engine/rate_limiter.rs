//! A token bucket that caps throughput.
//!
//! A permit stands for 1 KiB. The bucket holds what one second mints and starts empty, so there
//! is no burst at the start. It is refilled in proportion to the time that has passed, however
//! late a refill comes.
use vstd::prelude::*;

verus! {

/// The number of bytes that a permit stands for.
pub const RATE_UNIT_BYTES: u64 = 1024;

/// How often a waiting transfer looks at the bucket again.
pub const REFILL_INTERVAL_MS: u64 = 10;

/// The largest bucket.
pub const MAX_PERMITS: u64 = 2_147_483_647;

pub const MICROS: u64 = 1_000_000;

pub struct RateLimiter {
    max_permits: u64,
    bytes_per_sec: u64,
    available: u64,
    /// What was minted beyond whole permits, in millionths of a permit.
    carry: u64,
}

/// How many permits a second mints.
pub open spec fn permits_per_second(bytes_per_sec: u64) -> u64 {
    let n = bytes_per_sec / RATE_UNIT_BYTES;
    if n < 1 {
        1
    } else if n > MAX_PERMITS {
        MAX_PERMITS
    } else {
        n
    }
}

/// How many permits `bytes` take: as many as cover them, at most a full bucket.
pub open spec fn permits_needed(bytes: u64, max_permits: u64) -> int {
    let n = (bytes + RATE_UNIT_BYTES - 1) / (RATE_UNIT_BYTES as int);
    if n > max_permits {
        max_permits as int
    } else {
        n
    }
}

impl RateLimiter {
    pub closed spec fn wf(&self) -> bool {
        &&& self.max_permits == permits_per_second(self.bytes_per_sec)
        &&& self.available <= self.max_permits
        &&& self.carry < MICROS
    }

    /// The size of the bucket, which is also what a second mints.
    pub closed spec fn capacity(&self) -> u64 {
        self.max_permits
    }

    pub closed spec fn rate(&self) -> u64 {
        self.bytes_per_sec
    }

    pub closed spec fn permits(&self) -> u64 {
        self.available
    }

    pub closed spec fn part(&self) -> u64 {
        self.carry
    }

    /// An empty bucket for a rate.
    pub fn new(bytes_per_sec: u64) -> (out: RateLimiter)
        ensures
            out.wf(),
            out.rate() == bytes_per_sec,
            out.capacity() == permits_per_second(bytes_per_sec),
            out.permits() == 0,
            out.part() == 0,
    {
        let n: u64 = bytes_per_sec / RATE_UNIT_BYTES;
        let max_permits: u64 = if n < 1 {
            1
        } else if n > MAX_PERMITS {
            MAX_PERMITS
        } else {
            n
        };
        RateLimiter { max_permits, bytes_per_sec, available: 0, carry: 0 }
    }

    pub fn bytes_per_sec(&self) -> (out: u64)
        ensures
            out == self.rate(),
    {
        self.bytes_per_sec
    }

    /// How many permits a transfer of `bytes` takes. Never more than a full bucket, so no
    /// transfer waits for ever.
    pub fn needed(&self, bytes: u64) -> (out: u64)
        requires
            self.wf(),
        ensures
            out == permits_needed(bytes, self.capacity()),
            out <= self.capacity(),
    {
        let whole: u64 = bytes / RATE_UNIT_BYTES;
        let n: u64 = if bytes % RATE_UNIT_BYTES == 0 {
            whole
        } else {
            whole + 1
        };
        if n > self.max_permits {
            self.max_permits
        } else {
            n
        }
    }

    /// A bucket never holds more than it can, and less than a permit beyond whole ones.
    pub proof fn lemma_bounds(&self)
        requires
            self.wf(),
        ensures
            self.capacity() == permits_per_second(self.rate()),
            self.permits() <= self.capacity(),
            self.part() < MICROS,
    {
    }

    /// `elapsed` microseconds have passed since the last refill.
    pub fn refill(&mut self, elapsed: u64)
        requires
            old(self).wf(),
        ensures
            final(self).wf(),
            final(self).rate() == old(self).rate(),
            final(self).capacity() == old(self).capacity(),
            final(self).permits() * (MICROS as int) + final(self).part() == level_after(
                old(self).permits() * (MICROS as int) + old(self).part(),
                old(self).capacity(),
                elapsed as int,
            ),
    {
        proof {
            assert(self.max_permits * elapsed <= 0x7fff_ffff * 0xffff_ffff_ffff_ffff)
                by (nonlinear_arith)
                requires
                    self.max_permits <= 0x7fff_ffff,
                    elapsed <= 0xffff_ffff_ffff_ffff,
            ;
        }
        let total: u128 = self.available as u128 * MICROS as u128 + self.carry as u128
            + self.max_permits as u128 * elapsed as u128;
        let full: u128 = self.max_permits as u128 * MICROS as u128;
        if total >= full {
            self.available = self.max_permits;
            self.carry = 0;
        } else {
            self.available = (total / MICROS as u128) as u64;
            self.carry = (total % MICROS as u128) as u64;
        }
    }

    /// Takes permits, if there are enough.
    pub fn try_take(&mut self, needed: u64) -> (taken: bool)
        requires
            old(self).wf(),
        ensures
            final(self).wf(),
            final(self).rate() == old(self).rate(),
            final(self).capacity() == old(self).capacity(),
            final(self).part() == old(self).part(),
            taken == (needed <= old(self).permits()),
            final(self).permits() == if taken {
                old(self).permits() - needed
            } else {
                old(self).permits() as int
            },
    {
        if needed <= self.available {
            self.available = self.available - needed;
            true
        } else {
            false
        }
    }
}

/// What a bucket holds after `elapsed`, in millionths of a permit.
pub open spec fn level_after(level: int, rate: u64, elapsed: int) -> int {
    let m = level + rate * elapsed;
    if m >= rate * (MICROS as int) {
        rate * (MICROS as int)
    } else {
        m
    }
}

/// A refill goes by the time that has passed alone: two refills mint what one after the whole
/// time would.
pub proof fn law_refill_goes_by_elapsed_time(level: int, rate: u64, a: int, b: int)
    requires
        0 <= a,
        0 <= b,
        0 <= level,
    ensures
        level_after(level_after(level, rate, a), rate, b) == level_after(level, rate, a + b),
{
    assert(rate * (a + b) == rate * a + rate * b) by (nonlinear_arith);
    assert(rate * a >= 0) by (nonlinear_arith)
        requires
            a >= 0,
    ;
    assert(rate * b >= 0) by (nonlinear_arith)
        requires
            b >= 0,
    ;
}

/// A bucket is never filled beyond one second, nor by more than the rate allows.
pub proof fn law_rate_is_never_exceeded(level: int, rate: u64, elapsed: int)
    requires
        0 <= elapsed,
    ensures
        level_after(level, rate, elapsed) <= level + rate * elapsed,
        level_after(level, rate, elapsed) <= rate * (MICROS as int),
{
}

/// After a second a bucket is full, so a transfer of any size goes ahead.
pub proof fn law_no_transfer_waits_for_ever(level: int, rate: u64, elapsed: int, bytes: u64)
    requires
        0 <= level,
        elapsed >= MICROS,
    ensures
        level_after(level, rate, elapsed) == rate * (MICROS as int),
        permits_needed(bytes, rate) * (MICROS as int) <= level_after(level, rate, elapsed),
{
    assert(rate * elapsed >= rate * (MICROS as int)) by (nonlinear_arith)
        requires
            elapsed >= MICROS,
    ;
}

/// A bucket that was refilled after a second is full, so permits for a transfer of any size can
/// be taken from it.
pub proof fn law_second_fills_the_bucket(
    before: &RateLimiter,
    after: &RateLimiter,
    elapsed: int,
    bytes: u64,
)
    requires
        before.wf(),
        after.wf(),
        after.capacity() == before.capacity(),
        after.permits() * (MICROS as int) + after.part() == level_after(
            before.permits() * (MICROS as int) + before.part(),
            before.capacity(),
            elapsed,
        ),
        elapsed >= MICROS,
    ensures
        after.permits() == after.capacity(),
        after.part() == 0,
        permits_needed(bytes, after.capacity()) <= after.permits(),
{
    before.lemma_bounds();
    after.lemma_bounds();
    law_no_transfer_waits_for_ever(
        before.permits() * (MICROS as int) + before.part(),
        before.capacity(),
        elapsed,
        bytes,
    );
}

/// A second mints a permit for each full KiB of the rate, one at least, and no more than a 31-bit
/// counter holds.
pub proof fn law_permits_go_by_the_rate(bytes_per_sec: u64)
    ensures
        1 <= permits_per_second(bytes_per_sec) <= 2_147_483_647,
        bytes_per_sec >= 1024 ==> permits_per_second(bytes_per_sec) * 1024 <= bytes_per_sec,
        permits_per_second(bytes_per_sec) < 2_147_483_647 ==> bytes_per_sec < (permits_per_second(
            bytes_per_sec,
        ) + 1) * 1024,
{
}

/// A transfer takes as few permits as cover its bytes, unless that is more than a full bucket.
pub proof fn law_permits_cover_the_bytes(bytes: u64, max_permits: u64)
    ensures
        bytes <= max_permits * 1024 ==> permits_needed(bytes, max_permits) * 1024 >= bytes && (
        permits_needed(bytes, max_permits) - 1) * 1024 < bytes,
        bytes > max_permits * 1024 ==> permits_needed(bytes, max_permits) == max_permits,
        bytes == 0 ==> permits_needed(bytes, max_permits) == 0,
{
}

/// A bucket fills by its rate until a second's worth is in it.
pub proof fn law_bucket_fills_by_its_rate(level: int, rate: u64, elapsed: int)
    requires
        0 <= elapsed,
    ensures
        level + rate * elapsed <= rate * 1_000_000 ==> level_after(level, rate, elapsed) == level
            + rate * elapsed,
        level + rate * elapsed > rate * 1_000_000 ==> level_after(level, rate, elapsed) == rate
            * 1_000_000,
{
}

} // verus!
