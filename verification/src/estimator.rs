//! Sliding-window estimator: exact mean and standard-deviation statistics
//! over the most recent `window_size` samples, maintained incrementally in
//! O(1) per update (the buffered window is used only to know which sample to
//! evict, never rescanned).
//!
//! Samples are integers; callers with fractional data pick a fixed-point
//! scale. The mean is reported as an exact ratio. The standard deviation and
//! the z-score are reported in units of `1 / SCORE_SCALE`, rounded toward
//! zero, and their contracts state the exact integer each call returns.

use vstd::prelude::*;

use crate::arith::{
    seq_sum, seq_sum_sq, sqrt_floor, isqrt, lemma_seq_sum_push, lemma_seq_sum_first,
    lemma_seq_sum_bounds, lemma_seq_sum_constant, lemma_sqrt_floor_small,
};

verus! {

/// Largest accepted window capacity.
pub const CAP_MAX: usize = 100_000;

/// Largest accepted sample magnitude.
pub const SAMPLE_MAX: i64 = 100_000_000;

/// Standard deviations and z-scores are returned in units of `1 / SCORE_SCALE`.
pub const SCORE_SCALE: i128 = 1000;

/// A statistic that is either exact (a ratio of integers, denominator
/// positive) or undefined for want of history.
#[derive(Clone, Copy, Debug, PartialEq, Eq, Structural)]
pub enum Stat {
    Undefined,
    Ratio { num: i128, den: i128 },
}

/// A z-score: undefined while the window warms up, else an integer in units
/// of `1 / SCORE_SCALE`, rounded toward zero.
#[derive(Clone, Copy, Debug, PartialEq, Eq, Structural)]
pub enum Score {
    Undefined,
    Value(i128),
}

/// One update step of a sliding window of capacity `cap`: evict the oldest
/// sample if the window is full, then append the new one.
pub open spec fn step_window(w: Seq<i64>, cap: nat, x: i64) -> Seq<i64> {
    if w.len() >= cap {
        w.drop_first().push(x)
    } else {
        w.push(x)
    }
}

/// The window left after feeding `inputs`, in order, to a fresh sliding
/// window of capacity `cap`.
pub open spec fn window_after(inputs: Seq<i64>, cap: nat) -> Seq<i64>
    decreases inputs.len(),
{
    if inputs.len() == 0 {
        Seq::<i64>::empty()
    } else {
        step_window(window_after(inputs.drop_last(), cap), cap, inputs.last())
    }
}

/// Numerator of the sample variance over `w`: with `n = w.len()`, the exact
/// sample variance is `variance_num(w) / (n * (n - 1))`.
pub open spec fn variance_num(w: Seq<i64>) -> int {
    (w.len() as int) * seq_sum_sq(w) - seq_sum(w) * seq_sum(w)
}

/// What `mean` returns for a window `w` of capacity `cap`: undefined until
/// the window is full, then the exact ratio (sum of the window) / (its
/// length).
pub open spec fn mean_spec(w: Seq<i64>, cap: nat) -> Stat {
    if w.len() == cap {
        Stat::Ratio { num: seq_sum(w) as i128, den: w.len() as i128 }
    } else {
        Stat::Undefined
    }
}

/// What `standard_deviation` returns for a window `w` of capacity `cap`:
/// `None` until the window is full (or when `cap < 2`, since the sample
/// standard deviation divides by `n - 1`); else the floor of
/// `SCORE_SCALE * sqrt(variance_num(w) / (n*(n-1)))`.
pub open spec fn sd_spec(w: Seq<i64>, cap: nat) -> Option<i128> {
    if w.len() != cap || w.len() < 2 {
        None
    } else {
        let n = w.len() as int;
        let v = variance_num(w);
        if v <= 0 {
            Some(0i128)
        } else {
            Some(
                sqrt_floor(
                    ((SCORE_SCALE as int) * (SCORE_SCALE as int) * v / (n * (n - 1))) as nat,
                ) as i128,
            )
        }
    }
}

/// What `score` returns for a sample `x` against a window `w` of capacity
/// `cap`: undefined until the window is full (or when `cap < 2`); zero for a
/// degenerate (zero-variance) window; else the z-score
/// `(x - mean) / standard_deviation` in units of `1 / SCORE_SCALE`, rounded
/// toward zero.
pub open spec fn score_spec(w: Seq<i64>, cap: nat, x: i64) -> Score {
    if w.len() != cap || w.len() < 2 {
        Score::Undefined
    } else {
        let n = w.len() as int;
        let v = variance_num(w);
        if v <= 0 {
            Score::Value(0i128)
        } else {
            let qq = (SCORE_SCALE as int) * (SCORE_SCALE as int);
            let s = sqrt_floor((qq * n * v / (n - 1)) as nat) as int;
            let a = n * (x as int) - seq_sum(w);
            if a >= 0 {
                Score::Value((qq * a / s) as i128)
            } else {
                Score::Value((-(qq * (-a) / s)) as i128)
            }
        }
    }
}

/// Sliding-window estimator over the most recent `window_size` samples.
pub struct RollingStatistics {
    is_ready: bool,
    n: usize,
    sum: i128,
    sum_sq: i128,
    window_size: usize,
    data: Vec<i64>,
}

/// Bounds on the exact accumulators that follow from the sample and
/// capacity bounds.
proof fn lemma_acc_bounds(s: Seq<i64>)
    requires
        s.len() <= CAP_MAX,
        forall|i: int| 0 <= i < s.len() ==> -SAMPLE_MAX <= #[trigger] s[i] <= SAMPLE_MAX,
    ensures
        -10_000_000_000_000 <= seq_sum(s) <= 10_000_000_000_000,
        0 <= seq_sum_sq(s) <= 1_000_000_000_000_000_000_000,
{
    lemma_seq_sum_bounds(s, SAMPLE_MAX);
    let n: int = s.len() as int;
    assert(n * (SAMPLE_MAX as int) <= 10_000_000_000_000) by (nonlinear_arith)
        requires
            0 <= n <= 100_000,
    ;
    assert(-10_000_000_000_000 <= -n * (SAMPLE_MAX as int)) by (nonlinear_arith)
        requires
            0 <= n <= 100_000,
    ;
    assert(n * (SAMPLE_MAX as int) * (SAMPLE_MAX as int) <= 1_000_000_000_000_000_000_000)
        by (nonlinear_arith)
        requires
            0 <= n <= 100_000,
    ;
}

impl RollingStatistics {
    /// The retained window, oldest sample first.
    pub closed spec fn window(&self) -> Seq<i64> {
        self.data@
    }

    /// The window capacity.
    pub closed spec fn cap(&self) -> nat {
        self.window_size as nat
    }

    /// Well-formed: capacity in range, samples in range, accumulators exact,
    /// and warm exactly when the window is full.
    pub closed spec fn wf(&self) -> bool {
        &&& 1 <= self.window_size <= CAP_MAX
        &&& self.data@.len() <= self.window_size
        &&& forall|i: int|
            0 <= i < self.data@.len() ==> -SAMPLE_MAX <= #[trigger] self.data@[i] <= SAMPLE_MAX
        &&& self.n == self.data@.len()
        &&& self.sum as int == seq_sum(self.data@)
        &&& self.sum_sq as int == seq_sum_sq(self.data@)
        &&& (self.is_ready <==> self.data@.len() == self.window_size)
    }

    pub fn new(window_size: usize) -> (r: Self)
        requires
            1 <= window_size <= CAP_MAX,
        ensures
            r.wf(),
            r.cap() == window_size as nat,
            r.window() == Seq::<i64>::empty(),
    {
        RollingStatistics {
            is_ready: false,
            n: 0,
            sum: 0,
            sum_sq: 0,
            window_size,
            data: Vec::new(),
        }
    }

    /// Whether the window has ever been full; statistics are defined once
    /// this holds.
    pub fn is_warm(&self) -> (r: bool)
        requires
            self.wf(),
        ensures
            r == (self.window().len() == self.cap()),
    {
        self.is_ready
    }

    /// Number of retained samples.
    pub fn count(&self) -> (r: usize)
        requires
            self.wf(),
        ensures
            r == self.window().len(),
    {
        self.n
    }

    /// The fixed window capacity.
    pub fn capacity(&self) -> (r: usize)
        requires
            self.wf(),
        ensures
            r == self.cap(),
    {
        self.window_size
    }

    /// Ingest one sample: evict the oldest if the window is full, then
    /// append the new one, maintaining the exact accumulators in O(1).
    pub fn update(&mut self, x: i64)
        requires
            old(self).wf(),
            -SAMPLE_MAX <= x <= SAMPLE_MAX,
        ensures
            final(self).wf(),
            final(self).cap() == old(self).cap(),
            final(self).window() == step_window(old(self).window(), old(self).cap(), x),
    {
        proof {
            lemma_acc_bounds(self.data@);
        }
        let ghost w0: Seq<i64> = self.data@;
        if self.data.len() == self.window_size {
            self.is_ready = true;
            proof {
                lemma_seq_sum_first(w0);
                assert(forall|i: int|
                    0 <= i < w0.drop_first().len() ==> -SAMPLE_MAX <= #[trigger] w0.drop_first()[i]
                        <= SAMPLE_MAX);
                lemma_acc_bounds(w0.drop_first());
            }
            let evicted: i64 = self.data.remove(0);
            proof {
                assert(w0.remove(0) =~= w0.drop_first());
                assert(evicted == w0[0]);
                assert((evicted as i128) * (evicted as i128) <= 10_000_000_000_000_000)
                    by (nonlinear_arith)
                    requires
                        -SAMPLE_MAX <= evicted <= SAMPLE_MAX,
                ;
                assert(0 <= (evicted as i128) * (evicted as i128)) by (nonlinear_arith);
            }
            self.sum = self.sum - evicted as i128;
            self.sum_sq = self.sum_sq - (evicted as i128) * (evicted as i128);
            self.n = self.n - 1;
            proof {
                assert(self.sum as int == seq_sum(self.data@));
                assert(self.sum_sq as int == seq_sum_sq(self.data@));
            }
        }
        let ghost w1: Seq<i64> = self.data@;
        proof {
            lemma_acc_bounds(w1);
            lemma_seq_sum_push(w1, x);
            assert((x as i128) * (x as i128) <= 10_000_000_000_000_000) by (nonlinear_arith)
                requires
                    -SAMPLE_MAX <= x <= SAMPLE_MAX,
            ;
            assert(0 <= (x as i128) * (x as i128)) by (nonlinear_arith);
        }
        self.sum = self.sum + x as i128;
        self.sum_sq = self.sum_sq + (x as i128) * (x as i128);
        self.data.push(x);
        self.n = self.data.len();
        if self.data.len() == self.window_size {
            self.is_ready = true;
        }
    }

    /// The mean over the retained window: undefined until warm, then the
    /// exact ratio (sum of the last `capacity` samples) / capacity.
    pub fn mean(&self) -> (r: Stat)
        requires
            self.wf(),
        ensures
            r == mean_spec(self.window(), self.cap()),
    {
        proof {
            lemma_acc_bounds(self.data@);
        }
        if self.is_ready {
            Stat::Ratio { num: self.sum, den: self.n as i128 }
        } else {
            Stat::Undefined
        }
    }

    /// The exact sample variance as a ratio of integers, or undefined until
    /// warm (or when the capacity is below 2, since Bessel's correction
    /// divides by `count - 1`).
    pub fn variance(&self) -> (r: Stat)
        requires
            self.wf(),
        ensures
            self.window().len() == self.cap() && self.cap() >= 2 ==> r == (Stat::Ratio {
                num: variance_num(self.window()) as i128,
                den: (self.window().len() * (self.window().len() - 1)) as i128,
            }),
            self.window().len() != self.cap() || self.cap() < 2 ==> r == Stat::Undefined,
    {
        if !self.is_ready || self.n < 2 {
            return Stat::Undefined;
        }
        proof {
            self.lemma_v_bounds();
        }
        let v: i128 = (self.n as i128) * self.sum_sq - self.sum * self.sum;
        Stat::Ratio { num: v, den: (self.n as i128) * ((self.n - 1) as i128) }
    }

    /// Bounds needed to compute the variance numerator without overflow.
    proof fn lemma_v_bounds(&self)
        requires
            self.wf(),
        ensures
            -200_000_000_000_000_000_000_000_000 <= (self.n as int) * (self.sum_sq as int) - (
            self.sum as int) * (self.sum as int) <= 200_000_000_000_000_000_000_000_000,
            (self.n as int) * (self.sum_sq as int) <= 100_000_000_000_000_000_000_000_000,
            0 <= (self.sum as int) * (self.sum as int) <= 100_000_000_000_000_000_000_000_000,
            (self.n as int) * (self.sum_sq as int) - (self.sum as int) * (self.sum as int)
                == variance_num(self.window()),
            0 <= (self.n as int) * ((self.n as int) - 1) <= 10_000_000_000,
            self.n >= 2 ==> 2 <= (self.n as int) * ((self.n as int) - 1),
            -10_000_000_000_000 <= self.sum as int <= 10_000_000_000_000,
    {
        lemma_acc_bounds(self.data@);
        let n: int = self.n as int;
        let s1: int = self.sum as int;
        let s2: int = self.sum_sq as int;
        assert(0 <= n * s2 <= 100_000_000_000_000_000_000_000_000) by (nonlinear_arith)
            requires
                0 <= n <= 100_000,
                0 <= s2 <= 1_000_000_000_000_000_000_000,
        ;
        assert(0 <= s1 * s1 <= 100_000_000_000_000_000_000_000_000) by (nonlinear_arith)
            requires
                -10_000_000_000_000 <= s1 <= 10_000_000_000_000,
        ;
        assert(0 <= n * (n - 1) <= 10_000_000_000) by (nonlinear_arith)
            requires
                0 <= n <= 100_000,
        ;
        assert(n >= 2 ==> 2 <= n * (n - 1)) by (nonlinear_arith)
            requires
                0 <= n <= 100_000,
        ;
    }

    /// The sample standard deviation over the window, in units of
    /// `1 / SCORE_SCALE`, rounded down; `None` until warm (or when the
    /// capacity is below 2).
    pub fn standard_deviation(&self) -> (r: Option<i128>)
        requires
            self.wf(),
        ensures
            r == sd_spec(self.window(), self.cap()),
    {
        if !self.is_ready || self.n < 2 {
            return None;
        }
        proof {
            self.lemma_v_bounds();
        }
        let v: i128 = (self.n as i128) * self.sum_sq - self.sum * self.sum;
        if v <= 0 {
            return Some(0);
        }
        let qq: u128 = 1_000_000;
        proof {
            assert(qq as int == (SCORE_SCALE as int) * (SCORE_SCALE as int));
            assert((qq as int) * (v as int) <= 200_000_000_000_000_000_000_000_000_000_000)
                by (nonlinear_arith)
                requires
                    0 <= v as int <= 200_000_000_000_000_000_000_000_000,
                    qq as int == 1_000_000,
            ;
        }
        let den: u128 = (self.n as u128) * ((self.n - 1) as u128);
        let scaled: u128 = qq * (v as u128) / den;
        let s: u128 = isqrt(scaled);
        proof {
            lemma_sqrt_floor_small(s as nat, scaled as nat);
        }
        Some(s as i128)
    }

    /// The z-score of `x` against the current window, in units of
    /// `1 / SCORE_SCALE`, rounded toward zero; undefined until warm, zero for
    /// a degenerate (zero-variance) window.
    pub fn score(&self, x: i64) -> (r: Score)
        requires
            self.wf(),
            -SAMPLE_MAX <= x <= SAMPLE_MAX,
        ensures
            r == score_spec(self.window(), self.cap(), x),
    {
        if !self.is_ready || self.n < 2 {
            return Score::Undefined;
        }
        proof {
            self.lemma_v_bounds();
        }
        let v: i128 = (self.n as i128) * self.sum_sq - self.sum * self.sum;
        if v <= 0 {
            return Score::Value(0);
        }
        let qq: u128 = 1_000_000;
        proof {
            assert(qq as int == (SCORE_SCALE as int) * (SCORE_SCALE as int));
            assert((qq as int) * (self.n as int) * (v as int)
                <= 20_000_000_000_000_000_000_000_000_000_000_000_000) by (nonlinear_arith)
                requires
                    0 <= v as int <= 200_000_000_000_000_000_000_000_000,
                    0 <= self.n as int <= 100_000,
                    qq as int == 1_000_000,
            ;
            assert(0 <= (qq as int) * (self.n as int) * (v as int)) by (nonlinear_arith)
                requires
                    0 <= v as int,
                    0 <= self.n as int,
                    0 <= qq as int,
            ;
        }
        let num: u128 = qq * (self.n as u128) * (v as u128);
        let nm1: u128 = (self.n - 1) as u128;
        let scaled: u128 = num / nm1;
        proof {
            assert(num >= nm1) by (nonlinear_arith)
                requires
                    num as int == (qq as int) * (self.n as int) * (v as int),
                    v as int >= 1,
                    qq as int == 1_000_000,
                    nm1 as int == (self.n as int) - 1,
                    self.n >= 2,
            ;
            vstd::arithmetic::div_mod::lemma_div_is_ordered(
                nm1 as int,
                num as int,
                nm1 as int,
            );
            vstd::arithmetic::div_mod::lemma_div_by_self(nm1 as int);
            assert(scaled >= 1);
        }
        let s: u128 = isqrt(scaled);
        proof {
            if s == 0 {
                assert((s as nat + 1) * (s as nat + 1) == 1) by (nonlinear_arith)
                    requires
                        s as nat == 0,
                ;
                assert(false);
            }
            lemma_sqrt_floor_small(s as nat, scaled as nat);
            assert((self.n as i128) * (x as i128) <= 10_000_000_000_000) by (nonlinear_arith)
                requires
                    0 <= self.n as int <= 100_000,
                    -SAMPLE_MAX <= x <= SAMPLE_MAX,
            ;
            assert(-10_000_000_000_000 <= (self.n as i128) * (x as i128)) by (nonlinear_arith)
                requires
                    0 <= self.n as int <= 100_000,
                    -SAMPLE_MAX <= x <= SAMPLE_MAX,
            ;
        }
        let a: i128 = (self.n as i128) * (x as i128) - self.sum;
        if a >= 0 {
            proof {
                assert((qq as int) * (a as int) <= 100_000_000_000_000_000_000_000_000)
                    by (nonlinear_arith)
                    requires
                        0 <= a as int <= 20_000_000_000_000,
                        qq as int == 1_000_000,
                ;
            }
            let z: u128 = qq * (a as u128) / s;
            proof {
                vstd::arithmetic::div_mod::lemma_div_is_ordered(
                    0,
                    (qq * (a as u128)) as int,
                    s as int,
                );
                vstd::arithmetic::div_mod::lemma_div_nonincreasing(
                    (qq * (a as u128)) as int,
                    s as int,
                );
            }
            Score::Value(z as i128)
        } else {
            proof {
                assert((qq as int) * (-(a as int)) <= 100_000_000_000_000_000_000_000_000)
                    by (nonlinear_arith)
                    requires
                        0 <= -(a as int) <= 20_000_000_000_000,
                        qq as int == 1_000_000,
                ;
            }
            let z: u128 = qq * ((-a) as u128) / s;
            proof {
                vstd::arithmetic::div_mod::lemma_div_is_ordered(
                    0,
                    (qq * ((-a) as u128)) as int,
                    s as int,
                );
                vstd::arithmetic::div_mod::lemma_div_nonincreasing(
                    (qq * ((-a) as u128)) as int,
                    s as int,
                );
            }
            Score::Value(-(z as i128))
        }
    }
}

/// Window law: feeding any sequence of samples to a fresh sliding window of
/// capacity `cap` leaves exactly the most recent `min(cap, len)` samples, in
/// arrival order.
pub proof fn lemma_window_is_recent_suffix(inputs: Seq<i64>, cap: nat)
    requires
        1 <= cap,
    ensures
        inputs.len() <= cap ==> window_after(inputs, cap) == inputs,
        inputs.len() > cap ==> window_after(inputs, cap) == inputs.subrange(
            inputs.len() - cap,
            inputs.len() as int,
        ),
    decreases inputs.len(),
{
    if inputs.len() == 0 {
        assert(window_after(inputs, cap) =~= inputs);
    } else {
        let prev = inputs.drop_last();
        lemma_window_is_recent_suffix(prev, cap);
        let w1 = window_after(prev, cap);
        if inputs.len() <= cap {
            assert(w1 == prev);
            assert(w1.len() < cap);
            assert(window_after(inputs, cap) =~= inputs);
        } else if prev.len() == cap {
            assert(w1 == prev);
            assert(window_after(inputs, cap) == w1.drop_first().push(inputs.last()));
            assert(window_after(inputs, cap) =~= inputs.subrange(
                inputs.len() - cap,
                inputs.len() as int,
            ));
        } else {
            assert(w1 == prev.subrange(prev.len() - cap, prev.len() as int));
            assert(w1.len() == cap);
            assert(window_after(inputs, cap) == w1.drop_first().push(inputs.last()));
            assert(window_after(inputs, cap) =~= inputs.subrange(
                inputs.len() - cap,
                inputs.len() as int,
            ));
        }
    }
}

/// Warm-up law: with capacity `cap`, the mean is undefined until exactly
/// `cap` samples have arrived, and immediately after the `cap`-th sample it
/// is the exact arithmetic mean of all samples fed so far.
pub proof fn lemma_mean_at_warmup(inputs: Seq<i64>, cap: nat)
    requires
        1 <= cap,
    ensures
        inputs.len() < cap ==> mean_spec(window_after(inputs, cap), cap) == Stat::Undefined,
        inputs.len() == cap ==> mean_spec(window_after(inputs, cap), cap) == (Stat::Ratio {
            num: seq_sum(inputs) as i128,
            den: inputs.len() as i128,
        }),
{
    lemma_window_is_recent_suffix(inputs, cap);
}

/// Sliding law: once at least `cap` samples have been fed, the mean is the
/// exact arithmetic mean of the most recent `cap` samples alone.
pub proof fn lemma_mean_slides(inputs: Seq<i64>, cap: nat)
    requires
        1 <= cap <= inputs.len(),
    ensures
        mean_spec(window_after(inputs, cap), cap) == (Stat::Ratio {
            num: seq_sum(inputs.subrange(inputs.len() - cap, inputs.len() as int)) as i128,
            den: cap as i128,
        }),
{
    lemma_window_is_recent_suffix(inputs, cap);
    if inputs.len() == cap {
        assert(inputs.subrange(inputs.len() - cap, inputs.len() as int) =~= inputs);
    }
}

/// Sum of squared distances from a fixed point is non-negative:
/// `sum((t[i] - x)^2) == seq_sum_sq(t) - 2*x*seq_sum(t) + len*x^2 >= 0`.
proof fn lemma_centered_square_sum_nonneg(t: Seq<i64>, x: i64)
    ensures
        seq_sum_sq(t) - 2 * (x as int) * seq_sum(t) + (t.len() as int) * (x as int) * (x as int)
            >= 0,
    decreases t.len(),
{
    if t.len() > 0 {
        let u = t.drop_last();
        lemma_centered_square_sum_nonneg(u, x);
        let y: int = t.last() as int;
        let xi: int = x as int;
        let m: int = u.len() as int;
        assert(seq_sum(t) == seq_sum(u) + y);
        assert(seq_sum_sq(t) == seq_sum_sq(u) + y * y);
        assert(y * y - 2 * xi * y + xi * xi >= 0) by (nonlinear_arith);
        assert((m + 1) * xi * xi == m * xi * xi + xi * xi) by (nonlinear_arith);
        assert(2 * xi * (seq_sum(u) + y) == 2 * xi * seq_sum(u) + 2 * xi * y)
            by (nonlinear_arith);
    }
}

/// Non-negativity law: the variance numerator of any window is
/// non-negative, so the accumulated squared deviation can never be
/// negative, and the degenerate branch of the score fires exactly on
/// zero-variance windows.
pub proof fn lemma_variance_num_nonneg(w: Seq<i64>)
    ensures
        variance_num(w) >= 0,
    decreases w.len(),
{
    if w.len() == 0 {
        assert(variance_num(w) == 0);
    } else {
        let t = w.drop_last();
        lemma_variance_num_nonneg(t);
        lemma_centered_square_sum_nonneg(t, w.last());
        let x: int = w.last() as int;
        let n: int = w.len() as int;
        let m: int = t.len() as int;
        let s1 = seq_sum(t);
        let s2 = seq_sum_sq(t);
        assert(seq_sum(w) == s1 + x);
        assert(seq_sum_sq(w) == s2 + x * x);
        assert(n * (s2 + x * x) - (s1 + x) * (s1 + x) == (m * s2 - s1 * s1) + (s2 - 2 * x * s1
            + m * (x * x))) by (nonlinear_arith)
            requires
                n == m + 1,
        ;
        assert(s2 - 2 * x * s1 + m * x * x == s2 - 2 * x * s1 + m * (x * x))
            by (nonlinear_arith);
    }
}

/// Warm-up law: while a window has seen fewer samples than its capacity,
/// the z-score of any new sample is undefined.
pub proof fn lemma_score_undefined_while_warming(w: Seq<i64>, cap: nat, x: i64)
    requires
        w.len() < cap,
    ensures
        score_spec(w, cap, x) == Score::Undefined,
{
}

/// Degenerate-window law: a warm, zero-variance window scores zero,
/// whatever the observed value.
pub proof fn lemma_score_zero_on_degenerate(w: Seq<i64>, cap: nat, x: i64)
    requires
        w.len() == cap,
        cap >= 2,
        variance_num(w) <= 0,
    ensures
        score_spec(w, cap, x) == Score::Value(0i128),
{
}

/// Constant-window law: once warm, a window of identical samples has
/// standard deviation exactly zero. (Capacity at least 2, since the sample
/// standard deviation divides by `len - 1`.)
pub proof fn lemma_constant_window_sd_zero(inputs: Seq<i64>, cap: nat, c: i64)
    requires
        2 <= cap <= inputs.len(),
        forall|i: int| 0 <= i < inputs.len() ==> #[trigger] inputs[i] == c,
    ensures
        sd_spec(window_after(inputs, cap), cap) == Some(0i128),
{
    lemma_window_is_recent_suffix(inputs, cap);
    let w = window_after(inputs, cap);
    assert(w.len() == cap);
    assert(forall|i: int| 0 <= i < w.len() ==> #[trigger] w[i] == c);
    lemma_seq_sum_constant(w, c);
    let n: int = w.len() as int;
    assert(n * (n * ((c as int) * (c as int))) - (n * (c as int)) * (n * (c as int)) == 0)
        by (nonlinear_arith);
    assert(n * (n * ((c as int) * (c as int))) == n * (n * (c as int) * (c as int)))
        by (nonlinear_arith);
    assert(variance_num(w) == 0);
}

impl Default for RollingStatistics {
    /// A fresh estimator with a window of 20 samples.
    fn default() -> (r: Self)
        ensures
            r.wf(),
            r.cap() == 20,
            r.window() == Seq::<i64>::empty(),
    {
        RollingStatistics::new(20)
    }
}

} // verus!
