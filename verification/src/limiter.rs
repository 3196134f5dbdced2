//! The global bandwidth limit: a token bucket that all connections share.
//!
//! The bucket fills at the configured rate and holds at most half a second of
//! it, so a short burst passes while the average stays at the limit. Times are
//! nanoseconds and the bucket counts billionths of a byte, so nothing is ever
//! rounded. With no limit set, every request passes at once. A request that is
//! larger than the bucket passes in portions.

use crate::num;
use vstd::prelude::*;

verus! {

/// One byte, in the units of the bucket; also one second, in nanoseconds.
pub const BILLION: u64 = 1_000_000_000;

/// How much traffic the bucket can hold, as nanoseconds at the full rate.
pub const BURST_NANOS: u64 = 500_000_000;

/// The longest time a request is told to wait before it asks again.
pub const LONGEST_WAIT: u64 = 1_000_000_000;

/// The limit and the bucket.
#[derive(Debug, Clone, Copy, PartialEq, Eq, Structural)]
pub struct Limiter {
    limit_kbps: u64,
    tokens: u128,
    last: u64,
}

/// What a [`Limiter`] holds.
pub struct Bucket {
    /// Kilobytes per second; zero means no limit.
    pub limit: int,
    /// What may pass now, in billionths of a byte.
    pub tokens: int,
    /// When the bucket was last filled, in nanoseconds.
    pub last: int,
}

impl Bucket {
    /// Bytes per second.
    pub open spec fn rate(self) -> int {
        self.limit * 1024
    }

    /// What the bucket can hold.
    pub open spec fn burst(self) -> int {
        self.rate() * BURST_NANOS
    }

    /// The bucket at time `now`, filled with what has come in since.
    pub open spec fn filled(self, now: int) -> Bucket {
        Bucket {
            tokens: num::min_of(
                self.tokens + num::max_of(now - self.last, 0) * self.rate(),
                self.burst(),
            ),
            last: now,
            ..self
        }
    }

    /// Whether `n` bytes may pass at time `now`.
    pub open spec fn passes(self, n: int, now: int) -> bool {
        self.limit == 0 || self.filled(now).tokens >= n * BILLION
    }

    /// The bucket after `n` bytes asked to pass at time `now`.
    pub open spec fn asked(self, n: int, now: int) -> Bucket {
        if self.limit == 0 {
            self
        } else if self.passes(n, now) {
            Bucket { tokens: self.filled(now).tokens - n * BILLION, ..self.filled(now) }
        } else {
            self.filled(now)
        }
    }

    /// How much of `n` bytes is asked for at a time: no more than the bucket
    /// can hold.
    pub open spec fn portion_of(self, n: int) -> int {
        if self.limit == 0 { n } else { num::min_of(n, self.limit * 512) }
    }

    /// The bucket after as many portions of `n` bytes as may pass at `now` did,
    /// and how many of the bytes are left. No bytes at all pass like any others.
    pub open spec fn drawn(self, n: int, now: int) -> (Bucket, int)
        decreases n,
    {
        let p = self.portion_of(n);
        if n <= 0 || p <= 0 {
            (self.asked(0, now), 0)
        } else if self.passes(p, now) {
            if p >= n {
                (self.asked(p, now), 0)
            } else {
                self.asked(p, now).drawn(n - p, now)
            }
        } else {
            (self.asked(p, now), n)
        }
    }

    /// When the last of `n` bytes passes that start to ask at `now`, portion
    /// by portion, each as often as it is told to.
    pub open spec fn through_at(self, n: int, now: int) -> int
        decreases n,
    {
        let p = self.portion_of(n);
        if n <= 0 || p <= 0 {
            now
        } else if self.passes(p, now) {
            self.asked(p, now).through_at(n - p, now)
        } else {
            let later = now + self.wait(p, now);
            self.asked(p, now).asked(p, later).through_at(n - p, later)
        }
    }

    /// In how many portions `n` bytes pass.
    pub open spec fn portions(self, n: int) -> int
        decreases n,
    {
        let p = self.portion_of(n);
        if n <= 0 || p <= 0 { 0 } else { 1 + self.portions(n - p) }
    }

    /// How long `n` bytes that may not pass at `now` have to wait: until they
    /// have come in, but no longer than a second at a time.
    pub open spec fn wait(self, n: int, now: int) -> int {
        let missing = n * BILLION - self.filled(now).tokens;
        num::min_of((missing + self.rate() - 1) / self.rate(), LONGEST_WAIT as int)
    }
}

impl View for Limiter {
    type V = Bucket;

    closed spec fn view(&self) -> Bucket {
        Bucket {
            limit: self.limit_kbps as int,
            tokens: self.tokens as int,
            last: self.last as int,
        }
    }
}

impl Limiter {
    /// The bucket never holds more than half a second of the largest rate.
    pub closed spec fn well_formed(self) -> bool {
        self.tokens <= u64::MAX * 1024 * BURST_NANOS
    }

    /// An empty bucket with the given limit.
    pub fn new(limit_kbps: u64, now: u64) -> (r: Limiter)
        ensures
            r.well_formed(),
            r@ == (Bucket { limit: limit_kbps as int, tokens: 0, last: now as int }),
    {
        Limiter { limit_kbps, tokens: 0, last: now }
    }

    /// Sets the limit, in kilobytes per second; zero lifts it. It holds from
    /// the next request on.
    pub fn set_limit(&mut self, limit_kbps: u64)
        requires
            old(self).well_formed(),
        ensures
            final(self).well_formed(),
            final(self)@ == (Bucket { limit: limit_kbps as int, ..old(self)@ }),
    {
        self.limit_kbps = limit_kbps;
    }

    /// The limit, in kilobytes per second; zero means none.
    pub fn limit_kbps(&self) -> (r: u64)
        ensures
            r == self@.limit,
    {
        self.limit_kbps
    }

    /// Lets `n` bytes pass if the bucket holds them, and says how many
    /// nanoseconds to wait before asking again: zero if they passed.
    pub fn try_take(&mut self, n: u64, now: u64) -> (r: u64)
        requires
            old(self).well_formed(),
        ensures
            final(self).well_formed(),
            final(self)@ == old(self)@.asked(n as int, now as int),
            r == 0 <==> old(self)@.passes(n as int, now as int),
            r > 0 ==> r == old(self)@.wait(n as int, now as int),
    {
        if self.limit_kbps == 0 {
            return 0;
        }
        let rate: u128 = self.limit_kbps as u128 * 1024;
        let elapsed: u64 = now.saturating_sub(self.last);
        let ghost before = self@;
        proof {
            lemma_bounds(rate as int, elapsed as int);
            assert(before.rate() == rate);
        }
        let burst: u128 = rate * BURST_NANOS as u128;
        self.last = now;
        if elapsed >= BURST_NANOS {
            self.tokens = burst;
        } else {
            let sum: u128 = self.tokens + elapsed as u128 * rate;
            self.tokens = if sum < burst { sum } else { burst };
        }
        assert(self@ == before.filled(now as int));
        assert(n * BILLION <= u64::MAX * BILLION) by (nonlinear_arith)
            requires
                n <= u64::MAX,
        ;
        let want: u128 = n as u128 * BILLION as u128;
        if self.tokens >= want {
            self.tokens = self.tokens - want;
            return 0;
        }
        let missing: u128 = want - self.tokens;
        let wait: u128 = (missing + rate - 1) / rate;
        proof {
            lemma_rounded_up(missing as int, rate as int);
        }
        if wait < LONGEST_WAIT as u128 { wait as u64 } else { LONGEST_WAIT }
    }
}

impl Limiter {
    /// How much of `n` bytes to ask for at a time: a request that is larger
    /// than the bucket could never pass.
    pub fn portion(&self, n: u64) -> (r: u64)
        ensures
            r == self@.portion_of(n as int),
            r == if self@.limit == 0 {
                n as int
            } else {
                num::min_of(n as int, self@.limit * 512)
            },
            n > 0 ==> r > 0,
            self@.limit > 0 ==> r * BILLION <= self@.burst(),
    {
        if self.limit_kbps == 0 || self.limit_kbps >= n / 512 + 1 {
            n
        } else {
            num::smaller(n, self.limit_kbps * 512)
        }
    }

    /// Lets pass as much of `n` bytes as may pass now, portion by portion.
    /// Returns how many bytes are left, and how many nanoseconds to wait before
    /// asking for those: zero, and only then, if none are.
    pub fn acquire(&mut self, n: u64, now: u64) -> (r: (u64, u64))
        requires
            old(self).well_formed(),
        ensures
            final(self).well_formed(),
            (final(self)@, r.0 as int) == old(self)@.drawn(n as int, now as int),
            r.0 <= n,
            r.1 == 0 <==> r.0 == 0,
            r.1 > 0 ==> r.1 == final(self)@.wait(
                final(self)@.portion_of(r.0 as int),
                now as int,
            ),
    {
        let mut left: u64 = n;
        loop
            invariant
                self.well_formed(),
                left <= n,
                self@.drawn(left as int, now as int) == old(self)@.drawn(n as int, now as int),
            decreases left,
        {
            let p: u64 = self.portion(left);
            let ghost before = self@;
            let wait: u64 = self.try_take(p, now);
            if wait > 0 {
                proof {
                    lemma_asking_again(before, p as int, now as int);
                }
                return (left, wait);
            }
            if p == left {
                return (0, 0);
            }
            left = left - p;
        }
    }
}

impl Default for Limiter {
    /// No limit, an empty bucket at time zero.
    fn default() -> (r: Limiter)
        ensures
            r.well_formed(),
            r@ == (Bucket { limit: 0, tokens: 0, last: 0 }),
    {
        Limiter::new(0, 0)
    }
}

/// Nothing here outgrows the machine's integers, and half a second fills the
/// bucket.
proof fn lemma_bounds(rate: int, elapsed: int)
    requires
        1024 <= rate <= u64::MAX * 1024,
        0 <= elapsed,
    ensures
        0 < rate * BURST_NANOS <= u64::MAX * 1024 * BURST_NANOS,
        0 <= elapsed * rate,
        elapsed < BURST_NANOS ==> elapsed * rate <= rate * BURST_NANOS,
        elapsed >= BURST_NANOS ==> elapsed * rate >= rate * BURST_NANOS,
{
    assert(0 <= elapsed * rate) by (nonlinear_arith)
        requires
            0 <= elapsed,
            0 <= rate,
    ;
    if elapsed < BURST_NANOS {
        assert(elapsed * rate <= rate * BURST_NANOS) by (nonlinear_arith)
            requires
                elapsed < BURST_NANOS,
                0 <= rate,
        ;
    } else {
        assert(elapsed * rate >= rate * BURST_NANOS) by (nonlinear_arith)
            requires
                elapsed >= BURST_NANOS,
                0 <= rate,
        ;
    }
}

/// Rounding up gives at least one, enough, and no more than needed.
proof fn lemma_rounded_up(missing: int, rate: int)
    requires
        missing > 0,
        rate > 0,
    ensures
        (missing + rate - 1) / rate >= 1,
        ((missing + rate - 1) / rate) * rate >= missing,
        ((missing + rate - 1) / rate) * rate < missing + rate,
{
    let q = (missing + rate - 1) / rate;
    assert(q >= 1 && q * rate >= missing && q * rate < missing + rate) by (nonlinear_arith)
        requires
            missing > 0,
            rate > 0,
            q == (missing + rate - 1) / rate,
    ;
}

/// To ask again at the same time changes nothing.
proof fn lemma_asking_again(b: Bucket, n: int, now: int)
    requires
        b.limit > 0,
        !b.passes(n, now),
    ensures
        b.asked(n, now).asked(n, now) == b.asked(n, now),
        !b.asked(n, now).passes(n, now),
        b.asked(n, now).wait(n, now) == b.wait(n, now),
        b.asked(n, now).limit == b.limit,
{
    assert(0 * b.rate() == 0) by (nonlinear_arith);
}

/// One request: how many bytes, and when.
pub struct Request {
    pub bytes: int,
    pub at: int,
}

/// The bucket after all of `asks`.
pub open spec fn after_all(b: Bucket, asks: Seq<Request>) -> Bucket
    decreases asks.len(),
{
    if asks.len() == 0 {
        b
    } else {
        after_all(b, asks.drop_last()).asked(asks.last().bytes, asks.last().at)
    }
}

/// How many bytes passed in all of `asks`.
pub open spec fn passed(b: Bucket, asks: Seq<Request>) -> int
    decreases asks.len(),
{
    if asks.len() == 0 {
        0
    } else {
        let before = after_all(b, asks.drop_last());
        passed(b, asks.drop_last()) + if before.passes(asks.last().bytes, asks.last().at) {
            asks.last().bytes
        } else {
            0
        }
    }
}

/// The requests come in the order of their times, none before `b` was filled.
pub open spec fn in_order(b: Bucket, asks: Seq<Request>) -> bool {
    forall|i: int|
        0 <= i < asks.len() ==> (#[trigger] asks[i]).bytes >= 0 && asks[i].at >= if i == 0 {
            b.last
        } else {
            asks[i - 1].at
        }
}

/// The average stays at the limit: whatever is asked and whenever, what passes
/// never exceeds what the bucket held at the start and what came in since at
/// the configured rate.
pub proof fn average_stays_at_the_limit(b: Bucket, asks: Seq<Request>)
    requires
        b.limit > 0,
        b.tokens >= 0,
        in_order(b, asks),
    ensures
        after_all(b, asks).limit == b.limit,
        after_all(b, asks).tokens >= 0,
        after_all(b, asks).last == if asks.len() == 0 { b.last } else { asks.last().at },
        after_all(b, asks).last >= b.last,
        passed(b, asks) * BILLION + after_all(b, asks).tokens <= b.tokens + (after_all(b, asks).last
            - b.last) * b.rate(),
    decreases asks.len(),
{
    if asks.len() == 0 {
        assert((b.last - b.last) * b.rate() == 0) by (nonlinear_arith);
    } else {
        let init = asks.drop_last();
        let ask = asks.last();
        assert forall|i: int| 0 <= i < init.len() implies (#[trigger] init[i]).bytes >= 0
            && init[i].at >= if i == 0 { b.last } else { init[i - 1].at } by {
            assert(asks[i].bytes >= 0);
        }
        average_stays_at_the_limit(b, init);
        let mid = after_all(b, init);
        assert(asks[asks.len() - 1].at >= mid.last);
        let rate = b.rate();
        let gain = (ask.at - mid.last) * rate;
        assert(gain >= 0 && gain + (mid.last - b.last) * rate == (ask.at - b.last) * rate)
            by (nonlinear_arith)
            requires
                ask.at >= mid.last,
                rate > 0,
                gain == (ask.at - mid.last) * rate,
        ;
        assert(mid.burst() >= 0) by (nonlinear_arith)
            requires
                rate > 0,
                mid.burst() == rate * BURST_NANOS,
        ;
    }
}

/// Nobody waits for ever: a request that fits into the bucket at all passes
/// once the time it was told to wait is over, if nothing else passed
/// meanwhile.
pub proof fn waiting_is_rewarded(b: Bucket, n: int, now: int, later: int)
    requires
        b.limit > 0,
        b.tokens >= 0,
        n >= 0,
        n * BILLION <= b.burst(),
        !b.passes(n, now),
        later >= now + b.wait(n, now),
    ensures
        b.asked(n, now).passes(n, later),
{
    let rate = b.rate();
    let f = b.filled(now);
    let missing = n * BILLION - f.tokens;
    lemma_rounded_up(missing, rate);
    let full = (missing + rate - 1) / rate;
    assert(num::max_of(now - b.last, 0) * rate >= 0) by (nonlinear_arith)
        requires
            rate > 0,
    ;
    assert(b.burst() >= 0) by (nonlinear_arith)
        requires
            rate > 0,
            b.burst() == rate * BURST_NANOS,
    ;
    assert(full <= BURST_NANOS) by (nonlinear_arith)
        requires
            full * rate < missing + rate,
            missing <= rate * BURST_NANOS,
            rate > 0,
    ;
    let elapsed = later - now;
    assert(elapsed * rate >= full * rate) by (nonlinear_arith)
        requires
            elapsed >= full,
            rate > 0,
    ;
}

/// A portion always fits into the bucket, and is not empty.
proof fn lemma_portion(b: Bucket, n: int)
    requires
        b.limit > 0,
        n > 0,
    ensures
        0 < b.portion_of(n) <= n,
        b.portion_of(n) * BILLION <= b.burst(),
{
}

/// A chunk of any size gets through, if nothing else passes meanwhile. What
/// is left of it after it asked gets smaller whenever it waits as long as it
/// is told, or longer; and with no longer waits than that, the last byte
/// passes after no more than the time that the chunk takes at the configured
/// rate, and a nanosecond for each portion.
pub proof fn chunks_of_any_size_get_through(b: Bucket, n: int, now: int, later: int)
    requires
        b.limit > 0,
        b.tokens >= 0,
        n >= 0,
    ensures
        ({
            let (c, left) = b.drawn(n, now);
            &&& 0 <= left <= n
            &&& c.limit == b.limit
            &&& c.tokens >= 0
            &&& left > 0 && later >= now + c.wait(c.portion_of(left), now) ==> c.drawn(
                left,
                later,
            ).1 < left
            &&& b.through_at(n, now) == if left == 0 {
                now
            } else {
                c.through_at(left, now)
            }
        }),
        now <= b.through_at(n, now),
        (b.through_at(n, now) - now) * b.rate() <= n * BILLION + b.portions(n) * b.rate(),
        n > 0 ==> (b.portions(n) - 1) * (b.limit * 512) < n,
    decreases n,
{
    let rate = b.rate();
    if n == 0 {
        assert((now - now) * rate == 0 && 0 * rate == 0) by (nonlinear_arith);
    } else {
        let p = b.portion_of(n);
        lemma_portion(b, n);
        lemma_asked(b, p, now);
        let c = b.asked(p, now);
        if b.passes(p, now) {
            chunks_of_any_size_get_through(c, n - p, now, later);
            assert((1 + c.portions(n - p)) * rate == rate + c.portions(n - p) * rate)
                by (nonlinear_arith);
            lemma_same_portions(b, c, n - p);
            lemma_portion_count(b, n);
        } else {
            let at = now + b.wait(p, now);
            lemma_asking_again(b, p, now);
            waiting_is_rewarded(b, p, now, at);
            lemma_wait(b, p, now);
            lemma_asked(c, p, at);
            let d = c.asked(p, at);
            chunks_of_any_size_get_through(d, n - p, at, later);
            lemma_same_portions(b, d, n - p);
            lemma_portion_count(b, n);
            let end = b.through_at(n, now);
            let k = b.portions(n - p);
            assert((end - now) * rate <= n * BILLION + (1 + k) * rate) by (nonlinear_arith)
                requires
                    (end - at) * rate <= (n - p) * BILLION + k * rate,
                    (at - now) * rate <= p * BILLION + rate,
            ;
            assert(c.through_at(n, now) == d.through_at(n - p, at));
            if later >= at {
                waiting_is_rewarded(b, p, now, later);
                lemma_asked(c, p, later);
                lemma_drawn_shrinks(c.asked(p, later), n - p, later);
            }
        }
    }
}

/// What is left never grows.
proof fn lemma_drawn_shrinks(b: Bucket, n: int, now: int)
    requires
        n >= 0,
    ensures
        b.drawn(n, now).1 <= n,
    decreases n,
{
    let p = b.portion_of(n);
    if !(n <= 0 || p <= 0) && b.passes(p, now) {
        lemma_drawn_shrinks(b.asked(p, now), n - p, now);
    }
}

/// Asking keeps the limit, and never leaves less than nothing.
proof fn lemma_asked(b: Bucket, n: int, now: int)
    requires
        b.limit > 0,
        b.tokens >= 0,
    ensures
        b.asked(n, now).limit == b.limit,
        b.asked(n, now).tokens >= 0,
        b.filled(now).tokens >= 0,
{
    assert(num::max_of(now - b.last, 0) * b.rate() >= 0) by (nonlinear_arith)
        requires
            b.rate() > 0,
    ;
    assert(b.burst() >= 0) by (nonlinear_arith)
        requires
            b.rate() > 0,
            b.burst() == b.rate() * BURST_NANOS,
    ;
}

/// A wait is no longer than what is asked for takes at the configured rate,
/// rounded up.
proof fn lemma_wait(b: Bucket, n: int, now: int)
    requires
        b.limit > 0,
        b.tokens >= 0,
        !b.passes(n, now),
    ensures
        1 <= b.wait(n, now),
        b.wait(n, now) * b.rate() <= n * BILLION + b.rate(),
{
    let rate = b.rate();
    lemma_asked(b, n, now);
    let missing = n * BILLION - b.filled(now).tokens;
    lemma_rounded_up(missing, rate);
    let full = (missing + rate - 1) / rate;
    let w = b.wait(n, now);
    assert(w * rate <= full * rate) by (nonlinear_arith)
        requires
            w <= full,
            rate > 0,
    ;
}

/// How many portions there are depends on the limit alone.
proof fn lemma_same_portions(a: Bucket, b: Bucket, n: int)
    requires
        a.limit == b.limit,
    ensures
        a.portions(n) == b.portions(n),
    decreases n,
{
    let p = a.portion_of(n);
    if !(n <= 0 || p <= 0) {
        lemma_same_portions(a, b, n - p);
    }
}

/// All portions but the last are as large as the bucket.
proof fn lemma_portion_count(b: Bucket, n: int)
    requires
        b.limit > 0,
        n > 0,
    ensures
        b.portions(n) >= 1,
        (b.portions(n) - 1) * (b.limit * 512) < n,
    decreases n,
{
    let size = b.limit * 512;
    let p = b.portion_of(n);
    if n <= size {
        assert(b.portions(n - p) == 0);
        assert(0 * size == 0) by (nonlinear_arith);
    } else {
        lemma_portion_count(b, n - p);
        let k = b.portions(n - p);
        assert((1 + k - 1) * size == (k - 1) * size + size) by (nonlinear_arith);
    }
}

/// The limit means so many kilobytes each second, on average: what passes
/// never exceeds what the bucket held and what came in since at that rate, and
/// a chunk that asks alone is held up no longer than it takes at that rate, and
/// a nanosecond for each portion.
pub proof fn limits_are_kilobytes_per_second(b: Bucket, asks: Seq<Request>, n: int, now: int)
    requires
        b.limit > 0,
        b.tokens >= 0,
        n >= 0,
        in_order(b, asks),
    ensures
        passed(b, asks) * 1_000_000_000 <= b.tokens + (after_all(b, asks).last - b.last) * (b.limit
            * 1024),
        (b.through_at(n, now) - now) * (b.limit * 1024) <= n * 1_000_000_000 + b.portions(n) * (
        b.limit * 1024),
        BURST_NANOS * 2 == 1_000_000_000 && LONGEST_WAIT == 1_000_000_000,
{
    average_stays_at_the_limit(b, asks);
    chunks_of_any_size_get_through(b, n, now, now);
}

/// After half a second without traffic, half a second's traffic may pass at
/// once, and not a byte more.
pub proof fn half_a_second_may_pass_at_once(b: Bucket, n: int, now: int)
    requires
        b.limit > 0,
        b.tokens >= 0,
        now >= b.last + 500_000_000,
    ensures
        b.passes(n, now) <==> n <= b.limit * 512,
{
    let rate = b.limit * 1024;
    assert((now - b.last) * rate >= rate * 500_000_000) by (nonlinear_arith)
        requires
            now - b.last >= 500_000_000,
            rate > 0,
    ;
    assert(b.filled(now).tokens == rate * 500_000_000);
}

/// An empty bucket lets pass what has come in since, up to the byte.
pub proof fn buckets_fill_at_the_limit(b: Bucket, n: int, elapsed: int)
    requires
        b.limit > 0,
        b.tokens == 0,
        0 <= elapsed <= 500_000_000,
    ensures
        b.passes(n, b.last + elapsed) <==> n * 1_000_000_000 <= elapsed * (b.limit * 1024),
{
    let rate = b.limit * 1024;
    assert(elapsed * rate <= rate * 500_000_000) by (nonlinear_arith)
        requires
            elapsed <= 500_000_000,
            rate > 0,
    ;
    assert(0 + elapsed * b.rate() == elapsed * rate);
}

/// Without a limit everything passes at once, in one portion, and nothing is
/// counted.
pub proof fn without_a_limit_everything_passes(b: Bucket, n: int, now: int)
    requires
        b.limit == 0,
        n >= 0,
    ensures
        b.passes(n, now),
        b.asked(n, now) == b,
        b.portion_of(n) == n,
        b.drawn(n, now) == (b, 0int),
        b.through_at(n, now) == now,
{
    if n > 0 {
        assert(b.asked(n, now).through_at(n - n, now) == now);
    }
}

/// What passed is gone from the bucket: one request after another pass at one
/// time exactly if both together do. A request that does not pass takes
/// nothing. Who asks later is not worse off, nor who asks for less.
pub proof fn what_passes_is_taken(b: Bucket, n: int, m: int, now: int, later: int)
    requires
        b.limit > 0,
        b.tokens >= 0,
        n >= 0,
        m >= 0,
        later >= now,
    ensures
        b.passes(n, now) ==> (b.asked(n, now).passes(m, now) <==> b.passes(n + m, now)),
        !b.passes(n, now) ==> (b.asked(n, now).passes(m, now) <==> b.passes(m, now)),
        b.passes(n, now) ==> b.passes(n, later),
        b.passes(n + m, now) ==> b.passes(n, now),
{
    let rate = b.rate();
    assert(0 * rate == 0) by (nonlinear_arith);
    lemma_asked(b, n, now);
    let x = num::max_of(now - b.last, 0);
    let y = num::max_of(later - b.last, 0);
    assert(y * rate >= x * rate) by (nonlinear_arith)
        requires
            y >= x,
            rate > 0,
    ;
}

/// A request is cut into portions that the bucket can hold: half a second's
/// traffic each, but for the last.
pub proof fn portions_are_as_large_as_the_bucket(b: Bucket, n: int)
    requires
        b.limit > 0,
        n >= 0,
    ensures
        b.portion_of(n) <= n,
        b.portion_of(n) <= b.limit * 512,
        n <= b.limit * 512 ==> b.portion_of(n) == n,
        n >= b.limit * 512 ==> b.portion_of(n) == b.limit * 512,
        b.portion_of(n) * 1_000_000_000 <= b.burst(),
        b.burst() == b.limit * 512 * 1_000_000_000,
{
}

/// Who may not pass is told to wait just long enough: never over a second at a
/// time, and, where it is less, a nanosecond earlier would be too early.
pub proof fn waits_are_no_longer_than_needed(b: Bucket, n: int, now: int)
    requires
        b.limit > 0,
        b.tokens >= 0,
        n >= 0,
        !b.passes(n, now),
    ensures
        1 <= b.wait(n, now) <= 1_000_000_000,
        b.wait(n, now) < 1_000_000_000 ==> !b.asked(n, now).passes(n, now + b.wait(n, now) - 1),
{
    let rate = b.rate();
    let f = b.filled(now);
    let missing = n * BILLION - f.tokens;
    lemma_wait(b, n, now);
    lemma_rounded_up(missing, rate);
    let w = b.wait(n, now);
    if w < 1_000_000_000 {
        assert((w - 1) * rate < missing) by (nonlinear_arith)
            requires
                w * rate < missing + rate,
        ;
    }
}

/// Asking takes as much as may pass and no more: the bucket loses exactly the
/// bytes that passed, and if bytes are left, not even their first portion may
/// pass now.
pub proof fn as_much_passes_as_may(b: Bucket, n: int, now: int)
    requires
        b.limit > 0,
        b.tokens >= 0,
        n >= 0,
    ensures
        ({
            let (c, left) = b.drawn(n, now);
            &&& c.tokens == b.filled(now).tokens - (n - left) * 1_000_000_000
            &&& c.last == now
            &&& c.limit == b.limit
            &&& left > 0 ==> !c.passes(c.portion_of(left), now)
        }),
    decreases n,
{
    let rate = b.rate();
    assert(0 * rate == 0) by (nonlinear_arith);
    lemma_asked(b, 0, now);
    if n > 0 {
        let p = b.portion_of(n);
        lemma_portion(b, n);
        lemma_asked(b, p, now);
        let c = b.asked(p, now);
        if b.passes(p, now) {
            assert(c.filled(now) == c);
            if p < n {
                as_much_passes_as_may(c, n - p, now);
            }
        } else {
            lemma_asking_again(b, p, now);
        }
    }
}

} // verus!
