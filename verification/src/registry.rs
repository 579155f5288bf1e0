//! Bucketed registry: one independent sliding-window estimator per recurring
//! time-of-day bucket, created lazily on first use and never removed. Each
//! observation is routed to its bucket's estimator; the combined
//! observe-and-score operation reports the z-score of the new value against
//! its own bucket's history.

use std::collections::HashMap;
use vstd::prelude::*;

use crate::estimator::{
    RollingStatistics, Stat, Score, step_window, mean_spec, sd_spec, score_spec, CAP_MAX,
    SAMPLE_MAX,
};

verus! {

broadcast use vstd::std_specs::hash::group_hash_axioms;

/// The bucket key for an `(hour, minute)` pair with buckets of `bs` minutes:
/// the hour in the high byte, the minute bucket within the hour in the low
/// byte. Distinct `(hour, minute-bucket)` pairs get distinct keys.
pub open spec fn bucket_key_spec(hour: u8, minute: u8, bs: nat) -> u16 {
    ((hour as int) * 256 + (minute as int) / (bs as int)) as u16
}

/// The window retained for bucket `k`: empty if the bucket has never been
/// observed.
pub open spec fn bucket_window(ws: Map<u16, Seq<i64>>, k: u16) -> Seq<i64> {
    if ws.contains_key(k) {
        ws[k]
    } else {
        Seq::<i64>::empty()
    }
}

/// What querying the mean of bucket `k` returns: the estimator's mean for an
/// observed bucket, and zero (by convention) for a bucket never observed.
pub open spec fn mean_at_spec(ws: Map<u16, Seq<i64>>, cap: nat, k: u16) -> Stat {
    if ws.contains_key(k) {
        mean_spec(ws[k], cap)
    } else {
        Stat::Ratio { num: 0, den: 1 }
    }
}

/// What querying the standard deviation of bucket `k` returns: the
/// estimator's standard deviation for an observed bucket, and zero (by
/// convention) for a bucket never observed.
pub open spec fn sd_at_spec(ws: Map<u16, Seq<i64>>, cap: nat, k: u16) -> Option<i128> {
    if ws.contains_key(k) {
        sd_spec(ws[k], cap)
    } else {
        Some(0i128)
    }
}

/// Registry of sliding-window estimators, one per time-of-day bucket.
pub struct BinnedRollingStatistics {
    window_size: usize,
    bucket_size_minutes: u8,
    hash_map: HashMap<u16, RollingStatistics>,
}

impl BinnedRollingStatistics {
    /// The windows retained so far, by bucket key.
    pub closed spec fn windows(&self) -> Map<u16, Seq<i64>> {
        Map::new(
            |k: u16| self.hash_map@.contains_key(k),
            |k: u16| self.hash_map@[k].window(),
        )
    }

    /// The window capacity every estimator is created with.
    pub closed spec fn cap(&self) -> nat {
        self.window_size as nat
    }

    /// The bucket granularity, in minutes.
    pub closed spec fn bucket_minutes(&self) -> nat {
        self.bucket_size_minutes as nat
    }

    /// Well-formed: parameters in range and every estimator well-formed with
    /// the registry's window size.
    pub closed spec fn wf(&self) -> bool {
        &&& 1 <= self.window_size <= CAP_MAX
        &&& 1 <= self.bucket_size_minutes <= 60
        &&& forall|k: u16|
            self.hash_map@.contains_key(k) ==> (#[trigger] self.hash_map@[k]).wf()
                && self.hash_map@[k].cap() == self.window_size as nat
    }

    /// A fresh registry with the conventional 5-minute buckets.
    pub fn new(window_size: usize) -> (r: Self)
        requires
            1 <= window_size <= CAP_MAX,
        ensures
            r.wf(),
            r.cap() == window_size as nat,
            r.bucket_minutes() == 5,
            r.windows() == Map::<u16, Seq<i64>>::empty(),
    {
        let r = BinnedRollingStatistics {
            window_size,
            bucket_size_minutes: 5,
            hash_map: HashMap::new(),
        };
        proof {
            assert(r.windows() =~= Map::<u16, Seq<i64>>::empty());
        }
        r
    }

    /// A fresh registry with a chosen bucket granularity in minutes.
    pub fn new_with_bucket_size(window_size: usize, bucket_size_minutes: u8) -> (r: Self)
        requires
            1 <= window_size <= CAP_MAX,
            1 <= bucket_size_minutes <= 60,
        ensures
            r.wf(),
            r.cap() == window_size as nat,
            r.bucket_minutes() == bucket_size_minutes as nat,
            r.windows() == Map::<u16, Seq<i64>>::empty(),
    {
        let r = BinnedRollingStatistics {
            window_size,
            bucket_size_minutes,
            hash_map: HashMap::new(),
        };
        proof {
            assert(r.windows() =~= Map::<u16, Seq<i64>>::empty());
        }
        r
    }

    /// The key of the bucket that `(hour, minute)` falls in.
    fn bucket_key(&self, hour: u8, minute: u8) -> (r: u16)
        requires
            self.wf(),
            hour < 24,
            minute < 60,
        ensures
            r == bucket_key_spec(hour, minute, self.bucket_minutes()),
    {
        let q: u8 = minute / self.bucket_size_minutes;
        let key: u16 = (hour as u16) << 8 | (q as u16);
        proof {
            let h16 = hour as u16;
            let q16 = q as u16;
            assert((h16 << 8 | q16) == h16 * 256 + q16) by (bit_vector)
                requires
                    h16 < 24,
                    q16 < 256,
            ;
        }
        key
    }

    /// Whether the bucket containing `(hour, minute)` has ever been observed.
    pub fn has_bucket(&self, hour: u8, minute: u8) -> (r: bool)
        requires
            self.wf(),
            hour < 24,
            minute < 60,
        ensures
            r == self.windows().contains_key(
                bucket_key_spec(hour, minute, self.bucket_minutes()),
            ),
    {
        let key = self.bucket_key(hour, minute);
        self.hash_map.contains_key(&key)
    }

    /// Route one observation to its bucket's estimator, creating the
    /// estimator (with the registry's window size) on first use.
    pub fn update(&mut self, hour: u8, minute: u8, value: i64)
        requires
            old(self).wf(),
            hour < 24,
            minute < 60,
            -SAMPLE_MAX <= value <= SAMPLE_MAX,
        ensures
            final(self).wf(),
            final(self).cap() == old(self).cap(),
            final(self).bucket_minutes() == old(self).bucket_minutes(),
            final(self).windows() == old(self).windows().insert(
                bucket_key_spec(hour, minute, old(self).bucket_minutes()),
                step_window(
                    bucket_window(
                        old(self).windows(),
                        bucket_key_spec(hour, minute, old(self).bucket_minutes()),
                    ),
                    old(self).cap(),
                    value,
                ),
            ),
    {
        let key = self.bucket_key(hour, minute);
        let mut est = match self.hash_map.remove(&key) {
            Some(e) => e,
            None => RollingStatistics::new(self.window_size),
        };
        est.update(value);
        self.hash_map.insert(key, est);
        proof {
            let k = bucket_key_spec(hour, minute, old(self).bucket_minutes());
            let w0 = bucket_window(old(self).windows(), k);
            assert(self.windows() =~= old(self).windows().insert(
                k,
                step_window(w0, old(self).cap(), value),
            ));
        }
    }

    /// The mean of the bucket containing `(hour, minute)`: zero for a bucket
    /// never observed, undefined for one still warming up, else the exact
    /// mean of its window.
    pub fn mean(&self, hour: u8, minute: u8) -> (r: Stat)
        requires
            self.wf(),
            hour < 24,
            minute < 60,
        ensures
            r == mean_at_spec(
                self.windows(),
                self.cap(),
                bucket_key_spec(hour, minute, self.bucket_minutes()),
            ),
    {
        let key = self.bucket_key(hour, minute);
        match self.hash_map.get(&key) {
            Some(est) => est.mean(),
            None => Stat::Ratio { num: 0, den: 1 },
        }
    }

    /// The standard deviation of the bucket containing `(hour, minute)`:
    /// zero for a bucket never observed, undefined for one still warming up,
    /// else the standard deviation of its window in units of
    /// `1 / SCORE_SCALE`.
    pub fn standard_deviation(&self, hour: u8, minute: u8) -> (r: Option<i128>)
        requires
            self.wf(),
            hour < 24,
            minute < 60,
        ensures
            r == sd_at_spec(
                self.windows(),
                self.cap(),
                bucket_key_spec(hour, minute, self.bucket_minutes()),
            ),
    {
        let key = self.bucket_key(hour, minute);
        match self.hash_map.get(&key) {
            Some(est) => est.standard_deviation(),
            None => Some(0),
        }
    }

    /// Observe one value and return its z-score against the updated history
    /// of its own bucket: undefined while the bucket warms up, zero for a
    /// degenerate (zero-variance) window, else
    /// `(value - mean) / standard_deviation` in units of `1 / SCORE_SCALE`.
    pub fn update_and_return_z_score(&mut self, hour: u8, minute: u8, value: i64) -> (r: Score)
        requires
            old(self).wf(),
            hour < 24,
            minute < 60,
            -SAMPLE_MAX <= value <= SAMPLE_MAX,
        ensures
            final(self).wf(),
            final(self).cap() == old(self).cap(),
            final(self).bucket_minutes() == old(self).bucket_minutes(),
            final(self).windows() == old(self).windows().insert(
                bucket_key_spec(hour, minute, old(self).bucket_minutes()),
                step_window(
                    bucket_window(
                        old(self).windows(),
                        bucket_key_spec(hour, minute, old(self).bucket_minutes()),
                    ),
                    old(self).cap(),
                    value,
                ),
            ),
            r == score_spec(
                step_window(
                    bucket_window(
                        old(self).windows(),
                        bucket_key_spec(hour, minute, old(self).bucket_minutes()),
                    ),
                    old(self).cap(),
                    value,
                ),
                old(self).cap(),
                value,
            ),
    {
        self.update(hour, minute, value);
        let key = self.bucket_key(hour, minute);
        proof {
            let k = bucket_key_spec(hour, minute, old(self).bucket_minutes());
            assert(self.windows().contains_key(k));
            assert(self.hash_map@.contains_key(k));
        }
        match self.hash_map.get(&key) {
            Some(est) => {
                proof {
                    let k = bucket_key_spec(hour, minute, old(self).bucket_minutes());
                    assert(*est == self.hash_map@[k]);
                    assert(est.window() == self.windows()[k]);
                }
                est.score(value)
            },
            None => {
                proof {
                    assert(false);
                }
                Score::Undefined
            },
        }
    }
}

impl Default for BinnedRollingStatistics {
    /// A fresh registry with a window of 20 samples per bucket and 5-minute
    /// buckets.
    fn default() -> (r: Self)
        ensures
            r.wf(),
            r.cap() == 20,
            r.bucket_minutes() == 5,
            r.windows() == Map::<u16, Seq<i64>>::empty(),
    {
        BinnedRollingStatistics::new(20)
    }
}

/// Bucket-key law: two `(hour, minute)` pairs map to the same bucket key
/// exactly when they agree on the hour and on the minute bucket; in
/// particular, minutes that differ only within one bucket share one
/// estimator, and buckets never collide otherwise.
pub proof fn lemma_bucket_key_collision(h1: u8, m1: u8, h2: u8, m2: u8, bs: nat)
    requires
        h1 < 24,
        m1 < 60,
        h2 < 24,
        m2 < 60,
        1 <= bs <= 60,
    ensures
        (bucket_key_spec(h1, m1, bs) == bucket_key_spec(h2, m2, bs)) <==> (h1 == h2 && (
        m1 as int) / (bs as int) == (m2 as int) / (bs as int)),
{
    let q1 = (m1 as int) / (bs as int);
    let q2 = (m2 as int) / (bs as int);
    vstd::arithmetic::div_mod::lemma_div_nonincreasing(m1 as int, bs as int);
    vstd::arithmetic::div_mod::lemma_div_pos_is_pos(m1 as int, bs as int);
    vstd::arithmetic::div_mod::lemma_div_nonincreasing(m2 as int, bs as int);
    vstd::arithmetic::div_mod::lemma_div_pos_is_pos(m2 as int, bs as int);
    assert(0 <= q1 < 60);
    assert(0 <= q2 < 60);
    assert(0 <= (h1 as int) * 256 + q1 < 65536);
    assert(0 <= (h2 as int) * 256 + q2 < 65536);
}

} // verus!
