//! In-memory token-bucket rate limiter, keyed by an arbitrary client
//! identity string. Tokens are counted in thousandths so that refill
//! rates below one token per second keep their meaning in integers.

use vstd::prelude::*;
use vstd::pervasive::VecAdditionalExecFns;
use crate::clock::now_ms;
use crate::text::vec_char_eq;
use crate::text::vec_chars;

verus! {

/// One bucket: its balance in thousandths of a token, and when it was
/// last refilled (milliseconds).
#[derive(Clone, Copy, Debug, PartialEq, Eq, Structural)]
pub struct TokenBucket {
    pub milli_tokens: u64,
    pub last_ms: i64,
}

/// The bucket a fresh key starts from: full, refilled "now".
pub open spec fn fresh_bucket(capacity_milli: u64, now: i64) -> TokenBucket {
    TokenBucket { milli_tokens: capacity_milli, last_ms: now }
}

/// Refill `b` for the wall-clock time `now`: add elapsed milliseconds
/// times the rate, capped at the capacity. A clock that stands still
/// or runs backwards adds nothing; the refill instant advances only
/// when something was added, so fractional progress is never lost.
pub open spec fn refill_spec(capacity_milli: u64, rate_milli_per_sec: u64, b: TokenBucket, now: i64) -> TokenBucket {
    let elapsed: int = if now > b.last_ms {
        now - b.last_ms
    } else {
        0
    };
    let add: int = elapsed * rate_milli_per_sec / 1000;
    let t: int = if b.milli_tokens + add > capacity_milli {
        capacity_milli as int
    } else {
        b.milli_tokens + add
    };
    TokenBucket {
        milli_tokens: t as u64,
        last_ms: if add > 0 {
            now
        } else {
            b.last_ms
        },
    }
}

/// One `allow` call on a single bucket: refill, then consume one token
/// when the balance covers it. Returns whether it did, and the bucket
/// after.
pub open spec fn step_allow(
    capacity_milli: u64,
    rate_milli_per_sec: u64,
    b: TokenBucket,
    now: i64,
) -> (bool, TokenBucket) {
    let f = refill_spec(capacity_milli, rate_milli_per_sec, b, now);
    if f.milli_tokens >= 1000 {
        (true, TokenBucket { milli_tokens: (f.milli_tokens - 1000) as u64, last_ms: f.last_ms })
    } else {
        (false, f)
    }
}

/// How many of `k` consecutive `allow` calls at time `now` succeed,
/// starting from bucket `b`.
pub open spec fn drain_count(
    capacity_milli: u64,
    rate_milli_per_sec: u64,
    b: TokenBucket,
    now: i64,
    k: nat,
) -> int
    decreases k,
{
    if k == 0 {
        0
    } else {
        let s = step_allow(capacity_milli, rate_milli_per_sec, b, now);
        (if s.0 {
            1int
        } else {
            0int
        }) + drain_count(capacity_milli, rate_milli_per_sec, s.1, now, (k - 1) as nat)
    }
}

/// With no time passing, a bucket grants exactly one call per thousand
/// thousandths it holds (up to `k` calls): a fresh bucket of capacity
/// `C` grants exactly `C` consecutive calls and then denies.
pub proof fn lemma_drain_exact(
    capacity_milli: u64,
    rate_milli_per_sec: u64,
    b: TokenBucket,
    now: i64,
    k: nat,
)
    requires
        b.last_ms >= now,
        b.milli_tokens <= capacity_milli,
    ensures
        drain_count(capacity_milli, rate_milli_per_sec, b, now, k) == if (k as int) <= b.milli_tokens
            as int / 1000 {
            k as int
        } else {
            b.milli_tokens as int / 1000
        },
    decreases k,
{
    if k > 0 {
        let s = step_allow(capacity_milli, rate_milli_per_sec, b, now);
        assert(refill_spec(capacity_milli, rate_milli_per_sec, b, now) == b);
        if s.0 {
            assert(s.1.milli_tokens == b.milli_tokens - 1000);
            assert(s.1.milli_tokens as int / 1000 == b.milli_tokens as int / 1000 - 1) by (nonlinear_arith)
                requires
                    s.1.milli_tokens == b.milli_tokens - 1000,
                    b.milli_tokens >= 1000,
            {}
        } else {
            assert(b.milli_tokens < 1000);
            assert(b.milli_tokens as int / 1000 == 0);
        }
        lemma_drain_exact(capacity_milli, rate_milli_per_sec, s.1, now, (k - 1) as nat);
    }
}

/// After waiting long enough, a denied bucket grants again: once the
/// elapsed refill covers a whole token, the next call succeeds.
pub proof fn lemma_refill_grants(
    capacity_milli: u64,
    rate_milli_per_sec: u64,
    b: TokenBucket,
    now: i64,
)
    requires
        now >= b.last_ms,
        capacity_milli >= 1000,
        b.milli_tokens + (now - b.last_ms) * rate_milli_per_sec / 1000 >= 1000,
    ensures
        step_allow(capacity_milli, rate_milli_per_sec, b, now).0,
{
}

/// The outcome of one `allow` call on `key` at time `now`: the bucket
/// (or a fresh one) stepped once, written back, and the grant returned.
pub open spec fn allow_outcome(
    pre: RateLimiter,
    post: RateLimiter,
    key: Seq<char>,
    granted: bool,
    now: i64,
) -> bool {
    let b0 = if pre.has_bucket(key) {
        pre.bucket(key)
    } else {
        fresh_bucket(pre.cap_milli(), now)
    };
    let s = step_allow(pre.cap_milli(), pre.rate(), b0, now);
    granted == s.0 && post.has_bucket(key) && post.bucket(key) == s.1
}

/// Token buckets keyed by client identity, created full on first use.
pub struct RateLimiter {
    buckets: Vec<(String, TokenBucket)>,
    capacity_milli: u64,
    rate_milli_per_sec: u64,
}

impl RateLimiter {
    /// Per-bucket capacity, in thousandths of a token.
    pub closed spec fn cap_milli(self) -> u64 {
        self.capacity_milli
    }

    /// Refill rate, in thousandths of a token per second.
    pub closed spec fn rate(self) -> u64 {
        self.rate_milli_per_sec
    }

    /// The keyed buckets.
    pub closed spec fn model(self) -> Seq<(String, TokenBucket)> {
        self.buckets@
    }

    /// `key` has a bucket.
    pub open spec fn has_bucket(self, key: Seq<char>) -> bool {
        exists|i: int| 0 <= i < self.model().len() && #[trigger] self.model()[i].0@ == key
    }

    /// The index of `key`'s bucket (unique while well formed).
    pub open spec fn bucket_index(self, key: Seq<char>) -> int {
        choose|i: int| 0 <= i < self.model().len() && #[trigger] self.model()[i].0@ == key
    }

    /// The bucket of `key`.
    pub open spec fn bucket(self, key: Seq<char>) -> TokenBucket {
        self.model()[self.bucket_index(key)].1
    }

    /// Keys are unique and no bucket holds more than the capacity.
    pub open spec fn wf(self) -> bool {
        &&& forall|i: int, j: int|
            0 <= i < self.model().len() && 0 <= j < self.model().len() && i != j
                ==> self.model()[i].0@ != self.model()[j].0@
        &&& forall|i: int|
            0 <= i < self.model().len() ==> (#[trigger] self.model()[i].1).milli_tokens
                <= self.cap_milli()
    }

    /// A limiter whose buckets hold `capacity` whole tokens and refill
    /// at `rate_milli_per_sec` thousandths of a token per second.
    pub fn new(capacity: u64, rate_milli_per_sec: u64) -> (r: RateLimiter)
        requires
            capacity <= 18_446_744_073_709_551,
        ensures
            r.wf(),
            r.cap_milli() == capacity * 1000,
            r.rate() == rate_milli_per_sec,
            r.model().len() == 0,
    {
        RateLimiter { buckets: Vec::new(), capacity_milli: capacity * 1000, rate_milli_per_sec }
    }

    /// Index of the bucket of `key`, if one exists.
    fn find_bucket(&self, key: &Vec<char>) -> (r: Option<usize>)
        requires
            self.wf(),
        ensures
            match r {
                Some(i) => i < self.model().len() && self.model()[i as int].0@ == key@,
                None => !self.has_bucket(key@),
            },
    {
        let n: usize = self.buckets.len();
        let mut i: usize = 0;
        while i < n
            invariant
                i <= n,
                n == self.model().len(),
                forall|j: int| 0 <= j < i ==> self.model()[j].0@ != key@,
            decreases n - i,
        {
            let bk = vec_chars(self.buckets[i].0.as_str());
            if vec_char_eq(&bk, key) {
                return Some(i);
            }
            i = i + 1;
        }
        None
    }

    /// Consume one token for `key` at wall-clock time `now`: refill
    /// from the elapsed time, then grant if and only if a whole token
    /// is available. A fresh key starts from a full bucket.
    pub fn allow_at(&mut self, key: &str, now: i64) -> (granted: bool)
        requires
            old(self).wf(),
        ensures
            final(self).wf(),
            final(self).cap_milli() == old(self).cap_milli(),
            final(self).rate() == old(self).rate(),
            allow_outcome(*old(self), *final(self), key@, granted, now),
            forall|k2: Seq<char>|
                k2 != key@ ==> (final(self).has_bucket(k2) <==> old(self).has_bucket(k2)),
            forall|k2: Seq<char>|
                k2 != key@ && old(self).has_bucket(k2) ==> final(self).bucket(k2) == old(
                    self,
                ).bucket(k2),
    {
        let kv = vec_chars(key);
        let found = self.find_bucket(&kv);
        let ghost pre0 = self.model();
        let (idx, b0): (usize, TokenBucket) = match found {
            Some(i) => (i, self.buckets[i].1),
            None => {
                let b = TokenBucket { milli_tokens: self.capacity_milli, last_ms: now };
                let n: usize = self.buckets.len();
                self.buckets.push((key.to_owned(), b));
                proof {
                    assert forall|i: int, j: int|
                        0 <= i < self.model().len() && 0 <= j < self.model().len() && i
                            != j implies self.model()[i].0@ != self.model()[j].0@ by {
                        if i < pre0.len() && j < pre0.len() {
                            assert(pre0[i].0@ != pre0[j].0@);
                        } else if i == pre0.len() {
                            assert(self.model()[i].0@ == key@);
                            assert(self.model()[j].0@ == pre0[j].0@);
                        } else {
                            assert(self.model()[j].0@ == key@);
                            assert(self.model()[i].0@ == pre0[i].0@);
                        }
                    }
                }
                (n, b)
            },
        };
        proof {
            assert(self.model()[idx as int].0@ == key@);
            assert(self.model()[idx as int].1 == b0);
            assert(b0.milli_tokens <= self.capacity_milli);
            assert(self.bucket_index(key@) == idx as int) by {
                let i0 = self.bucket_index(key@);
                assert(self.model()[idx as int].0@ == key@);
                assert(0 <= i0 < self.model().len() && self.model()[i0].0@ == key@);
            }
        }
        // refill
        let elapsed: i128 = if now > b0.last_ms {
            (now as i128) - (b0.last_ms as i128)
        } else {
            0
        };
        let el: u128 = elapsed as u128;
        let rt: u128 = self.rate_milli_per_sec as u128;
        proof {
            assert(el <= u64::MAX as u128);
            assert(rt <= u64::MAX as u128);
            assert(el * rt <= (u64::MAX as u128) * (u64::MAX as u128)) by (nonlinear_arith)
                requires
                    el <= u64::MAX as u128,
                    rt <= u64::MAX as u128,
            {}
        }
        let add128: u128 = el * rt / 1000;
        let cap: u64 = self.capacity_milli;
        let (tokens, last): (u64, i64) = if add128 >= (cap as u128) || (add128 as u64) > cap
            - b0.milli_tokens {
            (cap, if add128 > 0 { now } else { b0.last_ms })
        } else {
            (b0.milli_tokens + add128 as u64, if add128 > 0 { now } else { b0.last_ms })
        };
        proof {
            let f = refill_spec(old(self).cap_milli(), old(self).rate(), b0, now);
            assert(elapsed as int == if now > b0.last_ms { now - b0.last_ms } else { 0int });
            assert(add128 as int == (elapsed as int) * (old(self).rate() as int) / 1000);
            assert(f.milli_tokens == tokens && f.last_ms == last);
        }
        // consume
        let (granted, newtok): (bool, u64) = if tokens >= 1000 {
            (true, tokens - 1000)
        } else {
            (false, tokens)
        };
        let ghost pre = self.model();
        self.buckets.set(idx, (self.buckets[idx].0.clone(), TokenBucket { milli_tokens: newtok, last_ms: last }));
        proof {
            assert(self.model()[idx as int].0@ == key@);
            assert forall|i: int, j: int|
                0 <= i < self.model().len() && 0 <= j < self.model().len() && i
                    != j implies self.model()[i].0@ != self.model()[j].0@ by {
                assert(self.model()[i].0@ == pre[i].0@ && self.model()[j].0@ == pre[j].0@);
            }
            assert(self.bucket_index(key@) == idx as int) by {
                let i0 = self.bucket_index(key@);
                assert(self.model()[idx as int].0@ == key@);
            }
            assert forall|k2: Seq<char>|
                k2 != key@ && old(self).has_bucket(k2) implies final(self).bucket(k2) == old(
                self,
            ).bucket(k2) by {
                let i0 = old(self).bucket_index(k2);
                assert(0 <= i0 < pre.len() && pre[i0].0@ == k2);
                assert(self.model()[i0].0@ == k2);
                assert(self.bucket_index(k2) == i0) by {
                    let i1 = self.bucket_index(k2);
                    assert(0 <= i1 < self.model().len() && self.model()[i1].0@ == k2);
                }
            }
            assert forall|k2: Seq<char>|
                k2 != key@ implies (final(self).has_bucket(k2) <==> old(self).has_bucket(
                k2,
            )) by {
                if self.has_bucket(k2) {
                    let i1 = choose|i1: int|
                        0 <= i1 < self.model().len() && #[trigger] self.model()[i1].0@ == k2;
                    if i1 < pre.len() {
                        assert(pre[i1].0@ == k2);
                    }
                }
                if old(self).has_bucket(k2) {
                    let i1 = old(self).bucket_index(k2);
                    assert(self.model()[i1].0@ == k2);
                }
            }
        }
        granted
    }

    /// Consume one token for `key` now.
    pub fn allow(&mut self, key: &str) -> (granted: bool)
        requires
            old(self).wf(),
        ensures
            final(self).wf(),
            final(self).cap_milli() == old(self).cap_milli(),
            final(self).rate() == old(self).rate(),
            exists|now: i64| #[trigger] allow_outcome(*old(self), *final(self), key@, granted, now),
    {
        let now: i64 = now_ms();
        let granted = self.allow_at(key, now);
        proof {
            assert(allow_outcome(*old(self), *self, key@, granted, now));
        }
        granted
    }

    /// Drop every bucket (operational escape hatch): all keys start
    /// from a full bucket again.
    pub fn clear_buckets(&mut self)
        ensures
            final(self).wf(),
            final(self).model().len() == 0,
            final(self).cap_milli() == old(self).cap_milli(),
            final(self).rate() == old(self).rate(),
    {
        self.buckets.clear();
    }
}

} // verus!
