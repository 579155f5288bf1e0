//! Exact integer arithmetic used by the sliding-window estimator: sums and
//! sums of squares over sequences of samples, and a floor integer square root.

use vstd::prelude::*;

verus! {

/// Sum of a sequence of samples, as a mathematical integer.
pub open spec fn seq_sum(s: Seq<i64>) -> int
    decreases s.len(),
{
    if s.len() == 0 {
        0
    } else {
        seq_sum(s.drop_last()) + s.last()
    }
}

/// Sum of the squares of a sequence of samples, as a mathematical integer.
pub open spec fn seq_sum_sq(s: Seq<i64>) -> int
    decreases s.len(),
{
    if s.len() == 0 {
        0
    } else {
        seq_sum_sq(s.drop_last()) + s.last() * s.last()
    }
}

pub proof fn lemma_seq_sum_push(s: Seq<i64>, x: i64)
    ensures
        seq_sum(s.push(x)) == seq_sum(s) + x,
        seq_sum_sq(s.push(x)) == seq_sum_sq(s) + x * x,
{
    assert(s.push(x).drop_last() =~= s);
    assert(s.push(x).last() == x);
}

/// Peeling the first element off a sum (the eviction direction).
pub proof fn lemma_seq_sum_first(s: Seq<i64>)
    requires
        s.len() >= 1,
    ensures
        seq_sum(s) == s[0] + seq_sum(s.drop_first()),
        seq_sum_sq(s) == s[0] * s[0] + seq_sum_sq(s.drop_first()),
    decreases s.len(),
{
    if s.len() == 1 {
        assert(s.drop_first() =~= Seq::<i64>::empty());
        assert(s.drop_last() =~= Seq::<i64>::empty());
    } else {
        lemma_seq_sum_first(s.drop_last());
        assert(s.drop_last().drop_first() =~= s.drop_first().drop_last());
        assert(s.drop_last()[0] == s[0]);
        assert(s.drop_first().last() == s.last());
    }
}

/// Element-wise bounds give bounds on the sum and the sum of squares.
pub proof fn lemma_seq_sum_bounds(s: Seq<i64>, m: i64)
    requires
        m >= 0,
        forall|i: int| 0 <= i < s.len() ==> -m <= #[trigger] s[i] <= m,
    ensures
        -(s.len() as int) * m <= seq_sum(s) <= (s.len() as int) * m,
        0 <= seq_sum_sq(s) <= (s.len() as int) * (m as int) * (m as int),
    decreases s.len(),
{
    if s.len() > 0 {
        assert(forall|i: int|
            0 <= i < s.drop_last().len() ==> -m <= #[trigger] s.drop_last()[i] <= m);
        lemma_seq_sum_bounds(s.drop_last(), m);
        let x = s.last();
        let n: int = s.len() as int;
        let n1: int = s.drop_last().len() as int;
        assert(n1 == n - 1);
        assert(seq_sum(s) == seq_sum(s.drop_last()) + x);
        assert(seq_sum_sq(s) == seq_sum_sq(s.drop_last()) + x * x);
        assert(-m <= x <= m);
        assert(0 <= x * x <= m as int * m as int) by (nonlinear_arith)
            requires
                -m <= x <= m,
                m >= 0,
        ;
        assert(n * m == n1 * m + m) by (nonlinear_arith)
            requires
                n1 == n - 1,
        ;
        assert(-n * m == -n1 * m + -m) by (nonlinear_arith)
            requires
                n1 == n - 1,
        ;
        assert(n * (m as int) * (m as int) == n1 * (m as int) * (m as int) + (m as int) * (
        m as int)) by (nonlinear_arith)
            requires
                n1 == n - 1,
        ;
        assert(-n1 * m <= seq_sum(s.drop_last()) <= n1 * m);
        assert(-n * m <= seq_sum(s) <= n * m);
    }
}

/// Sums over a constant sequence.
pub proof fn lemma_seq_sum_constant(s: Seq<i64>, c: i64)
    requires
        forall|i: int| 0 <= i < s.len() ==> #[trigger] s[i] == c,
    ensures
        seq_sum(s) == (s.len() as int) * c,
        seq_sum_sq(s) == (s.len() as int) * (c as int) * (c as int),
    decreases s.len(),
{
    if s.len() == 0 {
    } else {
        assert(forall|i: int|
            0 <= i < s.drop_last().len() ==> #[trigger] s.drop_last()[i] == c);
        lemma_seq_sum_constant(s.drop_last(), c);
        assert(s.last() == c);
        let n: int = s.len() as int;
        let n1: int = s.drop_last().len() as int;
        assert(n1 == n - 1);
        assert(seq_sum(s) == seq_sum(s.drop_last()) + c);
        assert(seq_sum_sq(s) == seq_sum_sq(s.drop_last()) + c * c);
        assert(n * c == n1 * c + c) by (nonlinear_arith)
            requires
                n1 == n - 1,
        ;
        assert(n * (c as int) * (c as int) == n1 * (c as int) * (c as int) + (c as int) * (
        c as int)) by (nonlinear_arith)
            requires
                n1 == n - 1,
        ;
    }
}

/// `r` is the floor of the square root of `x`.
pub open spec fn is_sqrt_floor(r: nat, x: nat) -> bool {
    r * r <= x && x < (r + 1) * (r + 1)
}

/// The floor of the square root of `x`.
pub open spec fn sqrt_floor(x: nat) -> nat {
    choose|r: nat| is_sqrt_floor(r, x)
}

pub proof fn lemma_sqrt_floor_exists(x: nat)
    ensures
        is_sqrt_floor(sqrt_floor(x), x),
    decreases x,
{
    if x == 0 {
        assert((0 as nat) * (0 as nat) <= 0 && 0 < (1 as nat) * (1 as nat)) by (nonlinear_arith);
        assert(is_sqrt_floor(0, 0));
    } else {
        lemma_sqrt_floor_exists((x - 1) as nat);
        let r = sqrt_floor((x - 1) as nat);
        if x < (r + 1) * (r + 1) {
            assert(is_sqrt_floor(r, x));
        } else {
            assert(x == (r + 1) * (r + 1));
            assert((r + 1) * (r + 1) < (r + 2) * (r + 2)) by (nonlinear_arith);
            assert(is_sqrt_floor(r + 1, x));
        }
    }
    assert(exists|r: nat| is_sqrt_floor(r, x));
}

pub proof fn lemma_sqrt_floor_unique(r1: nat, r2: nat, x: nat)
    requires
        is_sqrt_floor(r1, x),
        is_sqrt_floor(r2, x),
    ensures
        r1 == r2,
{
    if r1 < r2 {
        assert((r1 + 1) * (r1 + 1) <= r2 * r2) by (nonlinear_arith)
            requires
                r1 < r2,
        ;
    }
    if r2 < r1 {
        assert((r2 + 1) * (r2 + 1) <= r1 * r1) by (nonlinear_arith)
            requires
                r2 < r1,
        ;
    }
}

/// A floor square root of a bounded value is itself bounded.
pub proof fn lemma_sqrt_floor_small(s: nat, x: nat)
    requires
        is_sqrt_floor(s, x),
        x < 400_000_000_000_000_000_000_000_000_000_000_000_000,
    ensures
        s <= 20_000_000_000_000_000_000,
{
    if s > 20_000_000_000_000_000_000 {
        assert(s * s >= 400_000_000_000_000_000_000_000_000_000_000_000_000) by (nonlinear_arith)
            requires
                s > 20_000_000_000_000_000_000,
        ;
    }
}

/// Floor integer square root, by binary search on the answer.
pub fn isqrt(x: u128) -> (r: u128)
    ensures
        is_sqrt_floor(r as nat, x as nat),
        r as nat == sqrt_floor(x as nat),
{
    let mut lo: u128 = 0;
    let mut hi: u128 = 0x1_0000_0000_0000_0000;
    proof {
        assert((hi as nat) * (hi as nat) > x as nat);
    }
    while hi - lo > 1
        invariant
            lo < hi,
            hi <= 0x1_0000_0000_0000_0000,
            (lo as nat) * (lo as nat) <= x as nat,
            (hi as nat) * (hi as nat) > x as nat,
        decreases hi - lo,
    {
        let mid: u128 = lo + (hi - lo) / 2;
        proof {
            assert(mid < hi);
            assert(lo < mid);
            assert((mid as nat) * (mid as nat) <= 0xFFFF_FFFF_FFFF_FFFF * 0xFFFF_FFFF_FFFF_FFFF)
                by (nonlinear_arith)
                requires
                    mid as nat <= 0xFFFF_FFFF_FFFF_FFFF,
            ;
        }
        let sq: u128 = mid * mid;
        if sq <= x {
            lo = mid;
        } else {
            hi = mid;
        }
    }
    proof {
        assert(hi == lo + 1);
        assert(is_sqrt_floor(lo as nat, x as nat));
        lemma_sqrt_floor_exists(x as nat);
        lemma_sqrt_floor_unique(lo as nat, sqrt_floor(x as nat), x as nat);
    }
    lo
}

} // verus!
