use vstd::prelude::*;
use vstd::arithmetic::div_mod::{lemma_fundamental_div_mod, lemma_fundamental_div_mod_converse_div};

verus! {

/// Largest magnitude of an `i32` observation, as a bound.
pub open spec fn value_bound() -> int {
    0x8000_0000
}

/// Sum of `s[a..b)`.
pub open spec fn sum_of(s: Seq<i32>, a: int, b: int) -> int
    decreases b - a,
{
    if b <= a {
        0
    } else {
        sum_of(s, a, b - 1) + s[b - 1] as int
    }
}

/// Sum of squares of `s[a..b)`.
pub open spec fn sq_of(s: Seq<i32>, a: int, b: int) -> int
    decreases b - a,
{
    if b <= a {
        0
    } else {
        sq_of(s, a, b - 1) + (s[b - 1] as int) * (s[b - 1] as int)
    }
}

/// Sum of squared distances of `s[a..b)` from the point `y`.
pub open spec fn dev_of(s: Seq<i32>, a: int, b: int, y: int) -> int
    decreases b - a,
{
    if b <= a {
        0
    } else {
        dev_of(s, a, b - 1, y) + (s[b - 1] - y) * (s[b - 1] - y)
    }
}

/// `(b - a)` times the within-group sum of squares of `s[a..b)`:
/// `m * sum(x^2) - sum(x)^2` with `m = b - a`.
pub open spec fn spread(s: Seq<i32>, a: int, b: int) -> int {
    (b - a) * sq_of(s, a, b) - sum_of(s, a, b) * sum_of(s, a, b)
}

/// The fixed-point scale of costs: a cost is counted in units of `2^-32`.
pub open spec fn cost_scale() -> int {
    0x1_0000_0000
}

/// A bound on the cost of one observation's share of a group.
pub open spec fn cost_cap() -> int {
    value_bound() * value_bound() * cost_scale()
}

/// The cost of `s[a..b)` as one group: its sum of squared deviations from
/// the group mean, in units of `2^-32` rounded down (`spread / m` exactly,
/// times `2^32`, rounded down); `0` for an empty range.
pub open spec fn group_cost(s: Seq<i32>, a: int, b: int) -> int {
    if b <= a {
        0
    } else {
        cost_scale() * spread(s, a, b) / (b - a)
    }
}

pub proof fn lemma_dev_identity(s: Seq<i32>, a: int, b: int, y: int)
    requires
        0 <= a <= b <= s.len(),
    ensures
        dev_of(s, a, b, y) == sq_of(s, a, b) - 2 * y * sum_of(s, a, b) + (b - a) * y * y,
        dev_of(s, a, b, y) >= 0,
    decreases b - a,
{
    if b > a {
        lemma_dev_identity(s, a, b - 1, y);
        let x = s[b - 1] as int;
        let q = sq_of(s, a, b - 1);
        let t = sum_of(s, a, b - 1);
        let m = b - 1 - a;
        let d = dev_of(s, a, b - 1, y);
        assert(dev_of(s, a, b, y) == d + (x - y) * (x - y));
        assert(sq_of(s, a, b) == q + x * x);
        assert(sum_of(s, a, b) == t + x);
        assert(d + (x - y) * (x - y) == (q + x * x) - 2 * y * (t + x) + (b - a) * y * y)
            by (nonlinear_arith)
            requires
                d == q - 2 * y * t + m * y * y,
                m == b - 1 - a,
        ;
        assert((x - y) * (x - y) >= 0) by (nonlinear_arith);
    } else {
        assert((b - a) * y * y == 0) by (nonlinear_arith)
            requires
                b == a,
        ;
    }
}

/// The spread of a range is never negative (Cauchy-Schwarz).
pub proof fn lemma_spread_nonneg(s: Seq<i32>, a: int, b: int)
    requires
        0 <= a <= b <= s.len(),
    ensures
        spread(s, a, b) >= 0,
    decreases b - a,
{
    if b > a {
        lemma_spread_nonneg(s, a, b - 1);
        let y = s[b - 1] as int;
        lemma_dev_identity(s, a, b - 1, y);
        let q = sq_of(s, a, b - 1);
        let t = sum_of(s, a, b - 1);
        let m = b - 1 - a;
        assert((m + 1) * (q + y * y) - (t + y) * (t + y) == (m * q - t * t) + (q - 2 * y * t + m
            * y * y)) by (nonlinear_arith);
    }
}

/// Bounds on range sums that keep the arithmetic of `cost` in range.
pub proof fn lemma_sum_bounds(s: Seq<i32>, a: int, b: int)
    requires
        0 <= a <= b <= s.len(),
    ensures
        -(b - a) * value_bound() <= sum_of(s, a, b) <= (b - a) * value_bound(),
        0 <= sq_of(s, a, b) <= (b - a) * (value_bound() * value_bound()),
    decreases b - a,
{
    if b > a {
        lemma_sum_bounds(s, a, b - 1);
        let x = s[b - 1] as int;
        assert(0 <= x * x <= value_bound() * value_bound()) by (nonlinear_arith)
            requires
                -value_bound() <= x < value_bound(),
                value_bound() == 0x8000_0000,
        ;
        let v = value_bound() * value_bound();
        assert((b - a) * v == (b - 1 - a) * v + v) by (nonlinear_arith);
        assert((b - a) * value_bound() == (b - 1 - a) * value_bound() + value_bound())
            by (nonlinear_arith);
    }
}

/// Splitting a prefix sum at `a`.
pub proof fn lemma_split(s: Seq<i32>, a: int, b: int)
    requires
        0 <= a <= b <= s.len(),
    ensures
        sum_of(s, 0, b) == sum_of(s, 0, a) + sum_of(s, a, b),
        sq_of(s, 0, b) == sq_of(s, 0, a) + sq_of(s, a, b),
    decreases b - a,
{
    if b > a {
        lemma_split(s, a, b - 1);
    }
}

/// The cost of a group is never negative and at most `m * cost_cap()` for
/// `m` members.
pub proof fn lemma_cost_bounds(s: Seq<i32>, a: int, b: int)
    requires
        0 <= a <= b <= s.len(),
    ensures
        0 <= group_cost(s, a, b) <= (b - a) * cost_cap(),
{
    if b > a {
        lemma_spread_nonneg(s, a, b);
        lemma_sum_bounds(s, a, b);
        let m = b - a;
        let q = sq_of(s, a, b);
        let t = sum_of(s, a, b);
        let v = value_bound() * value_bound();
        assert(spread(s, a, b) <= m * (m * v)) by (nonlinear_arith)
            requires
                spread(s, a, b) == m * q - t * t,
                0 <= q <= m * v,
                m > 0,
        ;
        let qs = cost_scale() * spread(s, a, b);
        assert(0 <= qs <= m * (m * (v * cost_scale()))) by (nonlinear_arith)
            requires
                0 <= spread(s, a, b) <= m * (m * v),
                qs == cost_scale() * spread(s, a, b),
                cost_scale() > 0,
        ;
        assert(qs / m <= m * (v * cost_scale())) by (nonlinear_arith)
            requires
                0 <= qs <= m * (m * (v * cost_scale())),
                m > 0,
        ;
        assert(qs / m >= 0) by (nonlinear_arith)
            requires
                0 <= qs,
                m > 0,
        ;
    }
}

/// The fixed-point scale of costs, `2^32`.
pub const COST_SCALE: u128 = 0x1_0000_0000;

/// Prefix sums and prefix sums of squares of a sequence of observations.
pub struct PrefixStats {
    pub sums: Vec<i128>,
    pub squares: Vec<i128>,
    /// The observations the statistics were built from.
    pub values: Ghost<Seq<i32>>,
}

impl PrefixStats {
    /// `self` holds the prefix statistics of `s`.
    pub open spec fn holds_for(&self, s: Seq<i32>) -> bool {
        &&& self.values@ == s
        &&& self.sums@.len() == s.len() + 1
        &&& self.squares@.len() == s.len() + 1
        &&& forall|j: int| 0 <= j <= s.len() ==> self.sums@[j] == sum_of(s, 0, j)
        &&& forall|j: int| 0 <= j <= s.len() ==> self.squares@[j] == sq_of(s, 0, j)
    }

    /// Builds the prefix statistics of `s`.
    pub fn new(s: &Vec<i32>) -> (r: PrefixStats)
        requires
            s@.len() <= u32::MAX,
        ensures
            r.holds_for(s@),
    {
        let n: usize = s.len();
        let mut sums: Vec<i128> = Vec::new();
        let mut squares: Vec<i128> = Vec::new();
        sums.push(0);
        squares.push(0);
        let mut j: usize = 0;
        let mut acc: i128 = 0;
        let mut acc_sq: i128 = 0;
        while j < n
            invariant
                n == s@.len(),
                n <= u32::MAX,
                0 <= j <= n,
                sums@.len() == j + 1,
                squares@.len() == j + 1,
                acc == sum_of(s@, 0, j as int),
                acc_sq == sq_of(s@, 0, j as int),
                forall|t: int| 0 <= t <= j ==> sums@[t] == sum_of(s@, 0, t),
                forall|t: int| 0 <= t <= j ==> squares@[t] == sq_of(s@, 0, t),
            decreases n - j,
        {
            let x: i128 = s[j] as i128;
            proof {
                lemma_sum_bounds(s@, 0, j as int + 1);
                assert(x * x <= value_bound() * value_bound()) by (nonlinear_arith)
                    requires
                        -value_bound() <= x < value_bound(),
                        value_bound() == 0x8000_0000,
                ;
                assert((j + 1) * (value_bound() * value_bound()) <= 0x1_0000_0000 * (value_bound()
                    * value_bound())) by (nonlinear_arith)
                    requires
                        j + 1 <= 0x1_0000_0000,
                ;
                assert((j + 1) * value_bound() <= 0x1_0000_0000 * value_bound()) by (nonlinear_arith)
                    requires
                        j + 1 <= 0x1_0000_0000,
                ;
            }
            acc = acc + x;
            acc_sq = acc_sq + x * x;
            sums.push(acc);
            squares.push(acc_sq);
            j = j + 1;
        }
        PrefixStats { sums, squares, values: Ghost(s@) }
    }

    /// The cost of `values[a..b)` as one group.
    pub fn cost(&self, a: usize, b: usize) -> (r: u128)
        requires
            self.holds_for(self.values@),
            a <= b <= self.values@.len(),
            self.values@.len() <= u32::MAX,
        ensures
            r == group_cost(self.values@, a as int, b as int),
    {
        let ghost s = self.values@;
        if b == a {
            return 0;
        }
        let m: i128 = (b - a) as i128;
        proof {
            lemma_split(s, a as int, b as int);
            lemma_sum_bounds(s, a as int, b as int);
            lemma_sum_bounds(s, 0, a as int);
            lemma_sum_bounds(s, 0, b as int);
            lemma_spread_nonneg(s, a as int, b as int);
            lemma_cost_bounds(s, a as int, b as int);
        }
        let total: i128 = self.sums[b] - self.sums[a];
        let total_sq: i128 = self.squares[b] - self.squares[a];
        let v = Ghost(value_bound() * value_bound());
        proof {
            assert(m * total_sq <= m * (m * v@)) by (nonlinear_arith)
                requires
                    0 <= total_sq <= m * v@,
                    m > 0,
            ;
            assert(m * (m * v@) <= 0x1_0000_0000 * (0x1_0000_0000 * v@)) by (nonlinear_arith)
                requires
                    0 < m <= 0x1_0000_0000,
                    v@ == 0x8000_0000 * 0x8000_0000,
            ;
            assert(total * total <= m * value_bound() * (m * value_bound())) by (nonlinear_arith)
                requires
                    -m * value_bound() <= total <= m * value_bound(),
            ;
            assert(m * value_bound() * (m * value_bound()) <= 0x1_0000_0000 * value_bound() * (
            0x1_0000_0000 * value_bound())) by (nonlinear_arith)
                requires
                    0 < m <= 0x1_0000_0000,
                    value_bound() == 0x8000_0000,
            ;
            assert(0 <= total * total) by (nonlinear_arith);
            assert(0 <= m * total_sq) by (nonlinear_arith)
                requires
                    0 <= total_sq,
                    m > 0,
            ;
        }
        let num: i128 = m * total_sq - total * total;
        let whole: u128 = (num / m) as u128;
        let part: u128 = (num % m) as u128;
        let mu: u128 = m as u128;
        proof {
            let q = cost_scale();
            let ni = num as int;
            let mi = m as int;
            lemma_fundamental_div_mod(ni, mi);
            assert(ni / mi <= mi * v@) by (nonlinear_arith)
                requires
                    0 <= ni <= mi * (mi * v@),
                    mi > 0,
                    ni == mi * (ni / mi) + ni % mi,
                    0 <= ni % mi,
            ;
            assert(mi * v@ <= 0x1_0000_0000 * v@) by (nonlinear_arith)
                requires
                    mi <= 0x1_0000_0000,
                    v@ >= 0,
            ;
            assert(q * (ni / mi) <= q * (0x1_0000_0000 * v@)) by (nonlinear_arith)
                requires
                    ni / mi <= 0x1_0000_0000 * v@,
                    0 <= ni / mi,
                    mi <= 0x1_0000_0000,
                    q > 0,
            ;
            assert(q * (ni % mi) < q * 0x1_0000_0000) by (nonlinear_arith)
                requires
                    0 <= ni % mi < mi,
                    mi <= 0x1_0000_0000,
                    q > 0,
            ;
            let w = q * (ni / mi);
            let f = q * (ni % mi);
            lemma_fundamental_div_mod(f, mi);
            assert(q * ni == (w + f / mi) * mi + f % mi) by (nonlinear_arith)
                requires
                    ni == mi * (ni / mi) + ni % mi,
                    w == q * (ni / mi),
                    f == q * (ni % mi),
                    f == mi * (f / mi) + f % mi,
            ;
            lemma_fundamental_div_mod_converse_div(q * ni, mi, w + f / mi, f % mi);
            assert(0 <= f / mi <= f) by (nonlinear_arith)
                requires
                    0 <= f,
                    mi >= 1,
            ;
        }
        COST_SCALE * whole + (COST_SCALE * part) / mu
    }
}

} // verus!
