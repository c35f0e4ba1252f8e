//! Token-bucket rate governor.
//!
//! Levels are counted in millionths of a token, times in milliseconds and the
//! refill rate in thousandths of a token per second. With those units a
//! refill of `elapsed_ms * rate` is exact. The advised wait is rounded up to
//! a whole millisecond, so that a caller who waits that long finds a token.
//!
//! A millisecond clock cannot serve more than one token per millisecond, so
//! rates above 1000 tokens per second are refused. Under constant demand the
//! rounding costs nothing for a bucket of two tokens or more; a one-token
//! bucket may see its refill cut at the capacity, by less than one
//! millisecond's refill per permit.
use vstd::prelude::*;

verus! {

/// Sub-units in one whole token.
pub const UNITS_PER_TOKEN: u64 = 1000000;

/// Largest capacity, in whole tokens, whose sub-unit count fits in a `u64`.
pub const MAX_CAPACITY: u64 = 18446744073709;

/// Largest rate, in thousandths of a token per second: one token per
/// millisecond, the resolution of the clock.
pub const MAX_RATE: u64 = 1000000;

/// Abstract state of a bucket.
pub struct BucketView {
    /// Most sub-units the bucket holds.
    pub capacity: nat,
    /// Sub-units added per millisecond (thousandths of a token per second).
    pub rate: nat,
    /// Sub-units held at `last`.
    pub level: nat,
    /// Time of the last refill, in milliseconds.
    pub last: nat,
}

/// What an acquisition attempt decided.
#[derive(PartialEq, Eq, Structural, Clone, Copy, Debug)]
pub enum Acquire {
    /// A token was taken: the request may go out.
    Granted,
    /// No whole token: try again after this many milliseconds.
    Wait(u64),
}

impl BucketView {
    pub open spec fn wf(self) -> bool {
        &&& 0 < self.rate <= MAX_RATE
        &&& UNITS_PER_TOKEN <= self.capacity <= u64::MAX
        &&& self.level <= self.capacity
    }
}

/// Milliseconds that count toward refill: time never runs backwards for the
/// bucket, so an earlier reading adds nothing.
pub open spec fn elapsed(last: nat, now: nat) -> nat {
    if now >= last {
        (now - last) as nat
    } else {
        0
    }
}

/// The later of two instants.
pub open spec fn later(a: nat, b: nat) -> nat {
    if a >= b {
        a
    } else {
        b
    }
}

/// `min(C, T + elapsed * R)`.
pub open spec fn refilled(v: BucketView, now: nat) -> nat {
    let full = v.level + elapsed(v.last, now) * v.rate;
    if full <= v.capacity {
        full as nat
    } else {
        v.capacity
    }
}

/// Milliseconds until a bucket at `level` holds a whole token: `(1 - T) / R`,
/// rounded up.
pub open spec fn wait_for(level: nat, rate: nat) -> nat {
    let need = UNITS_PER_TOKEN - level;
    if need % (rate as int) == 0 {
        (need / (rate as int)) as nat
    } else {
        (need / (rate as int) + 1) as nat
    }
}

/// One acquisition attempt at time `now`: refill, then take a token if a
/// whole one is there, else advise how long to wait.
pub open spec fn step(v: BucketView, now: nat) -> (BucketView, Acquire) {
    let lvl = refilled(v, now);
    let last = later(now, v.last);
    if lvl >= UNITS_PER_TOKEN {
        (
            BucketView { capacity: v.capacity, rate: v.rate, level: (lvl - UNITS_PER_TOKEN) as nat, last },
            Acquire::Granted,
        )
    } else {
        (BucketView { capacity: v.capacity, rate: v.rate, level: lvl, last }, Acquire::Wait(wait_for(lvl, v.rate) as u64))
    }
}

/// The bucket after a sequence of attempts at the given times.
pub open spec fn run(v: BucketView, times: Seq<nat>) -> BucketView
    decreases times.len(),
{
    if times.len() == 0 {
        v
    } else {
        run(step(v, times[0]).0, times.drop_first())
    }
}

/// How many of those attempts were granted.
pub open spec fn granted(v: BucketView, times: Seq<nat>) -> nat
    decreases times.len(),
{
    if times.len() == 0 {
        0
    } else {
        let s = step(v, times[0]);
        (if s.1 == Acquire::Granted { 1nat } else { 0nat }) + granted(s.0, times.drop_first())
    }
}

/// Refill that one attempt cuts off at the capacity.
pub open spec fn spill(v: BucketView, now: nat) -> int {
    v.level + elapsed(v.last, now) * v.rate - refilled(v, now)
}

/// Refill cut off over a sequence of attempts.
pub open spec fn total_spill(v: BucketView, times: Seq<nat>) -> int
    decreases times.len(),
{
    if times.len() == 0 {
        0
    } else {
        spill(v, times[0]) + total_spill(step(v, times[0]).0, times.drop_first())
    }
}

/// One attempt keeps the bucket well formed.
pub proof fn lemma_step_wf(v: BucketView, now: nat)
    requires
        v.wf(),
    ensures
        step(v, now).0.wf(),
        step(v, now).0.capacity == v.capacity,
        step(v, now).0.rate == v.rate,
{
}

/// Whatever the attempts and their times, the level never exceeds the
/// capacity (and, being a count, is never negative).
pub proof fn lemma_level_bounded(v: BucketView, times: Seq<nat>)
    requires
        v.wf(),
    ensures
        run(v, times).wf(),
        run(v, times).level <= run(v, times).capacity,
        run(v, times).capacity == v.capacity,
    decreases times.len(),
{
    if times.len() > 0 {
        lemma_step_wf(v, times[0]);
        lemma_level_bounded(step(v, times[0]).0, times.drop_first());
    }
}

/// The bucket's accounts balance over any sequence of attempts: tokens
/// handed out, plus what is left, plus what the capacity cut off, equal
/// what the bucket held at the start plus `R` times the window that the
/// attempts span.
pub proof fn lemma_accounts_balance(v: BucketView, times: Seq<nat>)
    requires
        v.wf(),
    ensures
        run(v, times).last >= v.last,
        total_spill(v, times) >= 0,
        granted(v, times) * UNITS_PER_TOKEN + run(v, times).level + total_spill(v, times)
            == v.level + v.rate * (run(v, times).last - v.last),
    decreases times.len(),
{
    if times.len() > 0 {
        let now = times[0];
        let s = step(v, now);
        let rest = times.drop_first();
        let w = s.0;
        let e = elapsed(v.last, now);
        assert(w.wf());
        assert(w.last == v.last + e);
        lemma_accounts_balance(w, rest);
        let fin = run(w, rest);
        let d = (fin.last - w.last) as nat;
        assert(v.rate * (fin.last - v.last) == v.rate * e + v.rate * d) by (nonlinear_arith)
            requires
                fin.last - v.last == e + d,
        ;
        assert(e * v.rate == v.rate * e) by (nonlinear_arith);
        let g0: int = if s.1 == Acquire::Granted { 1 } else { 0 };
        let g = granted(w, rest) as int;
        assert(granted(v, times) == g0 + g);
        assert(granted(v, times) * UNITS_PER_TOKEN == g0 * UNITS_PER_TOKEN + g * UNITS_PER_TOKEN) by (nonlinear_arith)
            requires
                granted(v, times) == g0 + g,
        ;
        assert(run(v, times) == fin);
    } else {
        assert(v.rate * 0 == 0) by (nonlinear_arith);
    }
}

/// Over any sequence of attempts, the tokens handed out plus what is left
/// never exceed what the bucket held at the start plus the refill over the
/// window that the attempts span. So at most `C + R * window` permits are
/// granted.
pub proof fn lemma_grants_within_refill(v: BucketView, times: Seq<nat>)
    requires
        v.wf(),
    ensures
        run(v, times).last >= v.last,
        granted(v, times) * UNITS_PER_TOKEN + run(v, times).level
            <= v.level + v.rate * (run(v, times).last - v.last),
        granted(v, times) * UNITS_PER_TOKEN <= v.capacity + v.rate * (run(v, times).last - v.last),
{
    lemma_accounts_balance(v, times);
}

/// The times at which `k` attempts are made by a caller that always has a
/// request waiting: first at `now`, then again at once after a grant, and
/// after exactly the advised wait otherwise.
pub open spec fn demand_times(v: BucketView, now: nat, k: nat) -> Seq<nat>
    decreases k,
{
    if k == 0 {
        Seq::empty()
    } else {
        let s = step(v, now);
        let next = match s.1 {
            Acquire::Granted => now,
            Acquire::Wait(w) => (now + w) as nat,
        };
        seq![now] + demand_times(s.0, next, (k - 1) as nat)
    }
}

/// Where such a caller stands: just refilled, or back after the wait that
/// its last attempt was advised.
spec fn on_demand(v: BucketView, now: nat) -> bool {
    ||| now == v.last
    ||| (v.level < UNITS_PER_TOKEN && now == v.last + wait_for(v.level, v.rate))
}

proof fn lemma_demand_spill(v: BucketView, now: nat, k: nat)
    requires
        v.wf(),
        on_demand(v, now),
    ensures
        total_spill(v, demand_times(v, now, k)) <= granted(v, demand_times(v, now, k)) * (v.rate - 1),
        v.capacity >= 2 * UNITS_PER_TOKEN ==> total_spill(v, demand_times(v, now, k)) == 0,
    decreases k,
{
    let times = demand_times(v, now, k);
    if k == 0 {
        assert(granted(v, times) * (v.rate - 1) == 0) by (nonlinear_arith)
            requires
                granted(v, times) == 0,
        ;
    } else {
        let s = step(v, now);
        let e = elapsed(v.last, now);
        let r = v.rate as int;
        if now != v.last {
            let need = UNITS_PER_TOKEN - v.level;
            let t = wait_for(v.level, v.rate);
            assert(t * r < need + r) by (nonlinear_arith)
                requires
                    r > 0,
                    need > 0,
                    t == (if need % r == 0 { need / r } else { need / r + 1 }),
            {
                assert(need == r * (need / r) + need % r);
                assert(0 <= need % r < r);
            }
            assert(t * r >= need) by (nonlinear_arith)
                requires
                    r > 0,
                    need > 0,
                    t == (if need % r == 0 { need / r } else { need / r + 1 }),
            {
                assert(need == r * (need / r) + need % r);
                assert(0 <= need % r < r);
            }
            assert(e == t);
            assert(e * v.rate == t * r);
        } else {
            assert(e == 0);
            assert(e * v.rate == 0) by (nonlinear_arith)
                requires
                    e == 0,
            ;
        }
        let sp0 = spill(v, now);
        let g0: int = if s.1 == Acquire::Granted { 1 } else { 0 };
        assert(sp0 <= g0 * (r - 1));
        assert(v.capacity >= 2 * UNITS_PER_TOKEN ==> sp0 == 0);
        let next = match s.1 {
            Acquire::Granted => now,
            Acquire::Wait(w) => (now + w) as nat,
        };
        assert(on_demand(s.0, next));
        lemma_demand_spill(s.0, next, (k - 1) as nat);
        let rest = demand_times(s.0, next, (k - 1) as nat);
        assert(times.drop_first() =~= rest);
        assert(times[0] == now);
        let g = granted(s.0, rest) as int;
        assert(granted(v, times) == g0 + g);
        assert(total_spill(v, times) == sp0 + total_spill(s.0, rest));
        assert(granted(v, times) * (r - 1) == g0 * (r - 1) + g * (r - 1)) by (nonlinear_arith)
            requires
                granted(v, times) == g0 + g,
        ;
    }
}

/// Rate convergence. A caller that always has a request waiting, starting
/// when the bucket was last refilled, is granted what the bucket held plus
/// `R` times the window, less what is left in it and less what the capacity
/// cut off. Nothing is cut off from a bucket of two tokens or more, so there
/// the permits are within one capacity of `R * W` whatever the capacity; a
/// one-token bucket loses at most one millisecond's refill per permit to
/// the rounded-up wait.
pub proof fn lemma_demand_converges(v: BucketView, k: nat)
    requires
        v.wf(),
    ensures
        granted(v, demand_times(v, v.last, k)) * UNITS_PER_TOKEN + run(v, demand_times(v, v.last, k)).level
            + total_spill(v, demand_times(v, v.last, k))
            == v.level + v.rate * (run(v, demand_times(v, v.last, k)).last - v.last),
        0 <= total_spill(v, demand_times(v, v.last, k)) <= granted(v, demand_times(v, v.last, k)) * (
        v.rate - 1),
        v.capacity >= 2 * UNITS_PER_TOKEN ==> granted(v, demand_times(v, v.last, k)) * UNITS_PER_TOKEN
            + run(v, demand_times(v, v.last, k)).level == v.level + v.rate * (run(
            v,
            demand_times(v, v.last, k),
        ).last - v.last),
        v.capacity >= 2 * UNITS_PER_TOKEN ==> granted(v, demand_times(v, v.last, k)) * UNITS_PER_TOKEN
            + v.capacity >= v.level + v.rate * (run(v, demand_times(v, v.last, k)).last - v.last),
        granted(v, demand_times(v, v.last, k)) * (UNITS_PER_TOKEN + v.rate - 1) + v.capacity >= v.level
            + v.rate * (run(v, demand_times(v, v.last, k)).last - v.last),
{
    let times = demand_times(v, v.last, k);
    lemma_demand_spill(v, v.last, k);
    lemma_accounts_balance(v, times);
    lemma_level_bounded(v, times);
    let g = granted(v, times) as int;
    assert(g * (UNITS_PER_TOKEN + v.rate - 1) == g * UNITS_PER_TOKEN + g * (v.rate - 1)) by (nonlinear_arith);
}

/// A caller told to wait, who comes back after exactly that wait with no
/// other attempt in between, is granted a token.
pub proof fn lemma_wait_suffices(v: BucketView, now: nat)
    requires
        v.wf(),
        now >= v.last,
        step(v, now).1 is Wait,
    ensures
        step(step(v, now).0, now + wait_for(refilled(v, now), v.rate)).1 == Acquire::Granted,
{
    let lvl = refilled(v, now);
    let w = step(v, now).0;
    let need = UNITS_PER_TOKEN - lvl;
    let r = v.rate as int;
    let t = wait_for(lvl, v.rate);
    assert(need > 0);
    assert(t * r >= need) by (nonlinear_arith)
        requires
            r > 0,
            need >= 0,
            t == (if need % r == 0 { need / r } else { need / r + 1 }),
    {
        assert(need == r * (need / r) + need % r);
        assert(0 <= need % r < r);
    }
    assert(w.last == now);
    assert(elapsed(w.last, now + t) == t);
    assert(t * w.rate >= need);
}

/// A token bucket: burst capacity, refill rate, current level and the time
/// of the last refill.
pub struct TokenBucket {
    capacity: u64,
    rate: u64,
    level: u64,
    last: u64,
}

impl View for TokenBucket {
    type V = BucketView;

    closed spec fn view(&self) -> BucketView {
        BucketView {
            capacity: self.capacity as nat,
            rate: self.rate as nat,
            level: self.level as nat,
            last: self.last as nat,
        }
    }
}

impl TokenBucket {
    pub open spec fn wf(&self) -> bool {
        self@.wf()
    }

    /// A full bucket holding `capacity` tokens, refilled by `rate_milli`
    /// thousandths of a token per second, created at `now_ms`. `None` when
    /// the capacity is zero or too large to count, or the rate is zero or
    /// more than one token per millisecond, which the clock cannot serve.
    pub fn new(capacity: u64, rate_milli: u64, now_ms: u64) -> (r: Option<TokenBucket>)
        ensures
            r is Some <==> (1 <= capacity <= MAX_CAPACITY && 1 <= rate_milli <= MAX_RATE),
            r matches Some(b) ==> {
                &&& b.wf()
                &&& b@.capacity == capacity * UNITS_PER_TOKEN
                &&& b@.level == b@.capacity
                &&& b@.rate == rate_milli
                &&& b@.last == now_ms
            },
    {
        if capacity == 0 || capacity > MAX_CAPACITY || rate_milli == 0 || rate_milli > MAX_RATE {
            None
        } else {
            let units: u64 = capacity * UNITS_PER_TOKEN;
            Some(TokenBucket { capacity: units, rate: rate_milli, level: units, last: now_ms })
        }
    }

    /// One acquisition attempt at `now_ms`: refill from the time elapsed since
    /// the last refill, up to the capacity; take a token if a whole one is
    /// there, else say how many milliseconds until one will be.
    pub fn try_acquire(&mut self, now_ms: u64) -> (r: Acquire)
        requires
            old(self).wf(),
        ensures
            final(self).wf(),
            final(self)@ == step(old(self)@, now_ms as nat).0,
            r == step(old(self)@, now_ms as nat).1,
    {
        let now: u64 = if now_ms >= self.last { now_ms } else { self.last };
        let e: u64 = now - self.last;
        assert(e * self.rate <= 0xffff_ffff_ffff_fffe_0000_0000_0000_0001u128) by (nonlinear_arith)
            requires
                e <= u64::MAX,
                self.rate <= u64::MAX,
        ;
        let full: u128 = self.level as u128 + (e as u128) * (self.rate as u128);
        let lvl: u64 = if full <= self.capacity as u128 { full as u64 } else { self.capacity };
        assert(lvl == refilled(self@, now_ms as nat)) by {
            assert(e == elapsed(self.last as nat, now_ms as nat));
        }
        self.last = now;
        if lvl >= UNITS_PER_TOKEN {
            self.level = lvl - UNITS_PER_TOKEN;
            Acquire::Granted
        } else {
            self.level = lvl;
            let need: u64 = UNITS_PER_TOKEN - lvl;
            let w: u64 = if need % self.rate == 0 { need / self.rate } else { need / self.rate + 1 };
            Acquire::Wait(w)
        }
    }

    /// Sub-units held at the last refill.
    pub fn level(&self) -> (r: u64)
        ensures
            r == self@.level,
    {
        self.level
    }

    /// Most sub-units the bucket holds.
    pub fn capacity(&self) -> (r: u64)
        ensures
            r == self@.capacity,
    {
        self.capacity
    }
}

} // verus!
