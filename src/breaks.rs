use vstd::prelude::*;
use vstd::arithmetic::div_mod::{lemma_fundamental_div_mod, lemma_mod_multiples_basic};
use crate::cluster::{check_request, request_error, sorted_partition, ClusterError};
use crate::solver::{
    is_canonical, is_optimal, is_partition, lemma_canonical_unique, lemma_partition_ceiling,
    lemma_partition_floor,
};
use crate::sorting::{is_sorted, lemma_sorted_unique};
use crate::laws::lemma_partition_room;

verus! {

// Breaks are written in half units: the value `h` stands for `h / 2`, so
// that the midpoint of two observations is exact.

/// A multiple of every power of ten that the rounding ladder tries, larger
/// than any `i32`, used to move observations to non-negative values without
/// changing which of them are round.
pub const SHIFT: i64 = 10_000_000_000;

/// The coarsest power of ten that the rounding ladder tries.
pub const TOP_POWER: usize = 10;

/// `10^p`.
pub open spec fn pow10(p: nat) -> int
    decreases p,
{
    if p == 0 {
        1
    } else {
        10 * pow10((p - 1) as nat)
    }
}

/// The smallest multiple of `u` greater than `lo`.
pub open spec fn first_above(lo: int, u: int) -> int {
    ((lo + SHIFT) / u + 1) * u - SHIFT
}

/// The largest multiple of `u` not above the midpoint of `lo` and `hi`.
pub open spec fn floor_mid(lo: int, hi: int, u: int) -> int {
    ((lo + hi + 2 * SHIFT) / (2 * u)) * u - SHIFT
}

/// Some multiple of `10^p` lies strictly between `lo` and `hi`.
pub open spec fn has_round(lo: int, hi: int, p: nat) -> bool {
    first_above(lo, pow10(p)) < hi
}

/// The multiple of `10^p` taken at that rung: the largest one not above the
/// midpoint when it lies above `lo`, else the smallest one above `lo`.
pub open spec fn rung_value(lo: int, hi: int, p: nat) -> int {
    let u = pow10(p);
    if floor_mid(lo, hi, u) > lo {
        floor_mid(lo, hi, u)
    } else {
        first_above(lo, u)
    }
}

/// The ladder from `10^p` down to `1`, in half units; the midpoint if no
/// integer lies strictly between `lo` and `hi`.
pub open spec fn ladder(lo: int, hi: int, p: nat) -> int
    decreases p,
{
    if has_round(lo, hi, p) {
        2 * rung_value(lo, hi, p)
    } else if p == 0 {
        lo + hi
    } else {
        ladder(lo, hi, (p - 1) as nat)
    }
}

/// The round break between a class whose largest value is `lo` and the next
/// class, whose smallest value is `hi`, in half units.
#[verifier::opaque]
pub open spec fn round_break_of(lo: int, hi: int) -> int {
    if lo >= hi {
        2 * lo
    } else {
        ladder(lo, hi, TOP_POWER as nat)
    }
}

/// The largest value of class `g` under `cuts`.
pub open spec fn gap_lo(s: Seq<i32>, cuts: Seq<usize>, g: int) -> int {
    s[cuts[g + 1] - 1] as int
}

/// The smallest value of class `g + 1` under `cuts`.
pub open spec fn gap_hi(s: Seq<i32>, cuts: Seq<usize>, g: int) -> int {
    s[cuts[g + 1] as int] as int
}

/// A rung's value lies strictly between `lo` and `hi` when the rung has one.
proof fn lemma_rung_inside(lo: int, hi: int, p: nat)
    requires
        -SHIFT < lo < hi < SHIFT,
        pow10(p) >= 1,
        has_round(lo, hi, p),
    ensures
        lo < rung_value(lo, hi, p) < hi,
        2 * floor_mid(lo, hi, pow10(p)) <= lo + hi,
{
    let u = pow10(p);
    let x = lo + SHIFT;
    lemma_fundamental_div_mod(x, u);
    assert(first_above(lo, u) > lo) by (nonlinear_arith)
        requires
            x == u * (x / u) + x % u,
            0 <= x % u < u,
            first_above(lo, u) == (x / u + 1) * u - SHIFT,
            x == lo + SHIFT,
    ;
    let y = lo + hi + 2 * SHIFT;
    lemma_fundamental_div_mod(y, 2 * u);
    assert(2 * floor_mid(lo, hi, u) <= lo + hi) by (nonlinear_arith)
        requires
            y == (2 * u) * (y / (2 * u)) + y % (2 * u),
            0 <= y % (2 * u),
            floor_mid(lo, hi, u) == (y / (2 * u)) * u - SHIFT,
            y == lo + hi + 2 * SHIFT,
    ;
}

proof fn lemma_pow10_pos(p: nat)
    ensures
        pow10(p) >= 1,
    decreases p,
{
    if p > 0 {
        lemma_pow10_pos((p - 1) as nat);
    }
}

/// The ladder's value lies strictly between `lo` and `hi` (in half units).
proof fn lemma_ladder_inside(lo: int, hi: int, p: nat)
    requires
        -SHIFT < lo < hi < SHIFT,
    ensures
        2 * lo < ladder(lo, hi, p) < 2 * hi,
    decreases p,
{
    lemma_pow10_pos(p);
    if has_round(lo, hi, p) {
        lemma_rung_inside(lo, hi, p);
    } else if p > 0 {
        lemma_ladder_inside(lo, hi, (p - 1) as nat);
    }
}

/// Returns the roundest value strictly between `lo` and `hi`, in half units:
/// a multiple of the largest power of ten, up to `10^10`, that has one
/// there; the midpoint if there is no integer between them; `lo` itself if
/// `lo == hi`. Of the multiples of that power inside the gap it takes the
/// largest one not above the midpoint, or, if that one is not above `lo`,
/// the smallest one above `lo`: between 3 and 10 it gives 6.
pub fn round_break(lo: i32, hi: i32) -> (r: i64)
    requires
        lo <= hi,
    ensures
        r == round_break_of(lo as int, hi as int),
        lo < hi ==> 2 * lo < r < 2 * hi,
        lo == hi ==> r == 2 * lo,
{
    reveal(round_break_of);
    if lo == hi {
        return 2 * (lo as i64);
    }
    let l: i64 = lo as i64;
    let h: i64 = hi as i64;
    let mut u: i64 = SHIFT;
    let mut p: usize = TOP_POWER;
    proof {
        reveal_with_fuel(pow10, 11);
    }
    proof {
        lemma_ladder_inside(lo as int, hi as int, TOP_POWER as nat);
    }
    loop
        invariant
            lo < hi,
            l == lo,
            h == hi,
            p <= TOP_POWER,
            u == pow10(p as nat),
            1 <= u <= SHIFT,
            ladder(l as int, h as int, p as nat) == round_break_of(lo as int, hi as int),
        decreases p,
    {
        let x: i64 = l + SHIFT;
        let y: i64 = l + h + 2 * SHIFT;
        proof {
            let xi = x as int;
            let yi = y as int;
            let ui = u as int;
            let vi = 2 * ui;
            lemma_fundamental_div_mod(xi, ui);
            lemma_fundamental_div_mod(yi, vi);
            assert((xi / ui + 1) * ui <= xi + ui) by (nonlinear_arith)
                requires
                    xi == ui * (xi / ui) + xi % ui,
                    0 <= xi % ui,
            ;
            assert(0 <= (xi / ui + 1) * ui) by (nonlinear_arith)
                requires
                    xi >= 0,
                    ui >= 1,
            ;
            assert((yi / vi) * ui <= yi) by (nonlinear_arith)
                requires
                    yi == vi * (yi / vi) + yi % vi,
                    0 <= yi % vi,
                    vi == 2 * ui,
                    ui >= 1,
                    yi >= 0,
            ;
            assert(0 <= (yi / vi) * ui) by (nonlinear_arith)
                requires
                    yi >= 0,
                    vi >= 1,
                    ui >= 1,
            ;
        }
        let above: i64 = (x / u + 1) * u - SHIFT;
        if above < h {
            let down: i64 = (y / (2 * u)) * u - SHIFT;
            proof {
                lemma_rung_inside(lo as int, hi as int, p as nat);
            }
            if down > l {
                return 2 * down;
            } else {
                return 2 * above;
            }
        }
        if p == 0 {
            return l + h;
        }
        proof {
            lemma_pow10_pos((p - 1) as nat);
        }
        u = u / 10;
        p = p - 1;
    }
}

/// `r` holds, for each pair of adjacent classes of a least-cost partition
/// of `data` into `k` classes, the midpoint (`round == false`) or the round
/// break (`round == true`) of the gap between them, in half units.
pub open spec fn is_breaks(data: Seq<i32>, k: int, r: Seq<i64>, round: bool) -> bool {
    exists|s: Seq<i32>, cuts: Seq<usize>|
        #![trigger is_optimal(s, cuts, k), s.to_multiset(), cuts.len()]
        is_sorted(s) && s.to_multiset() == data.to_multiset() && is_optimal(s, cuts, k)
            && is_canonical(s, cuts, k) && breaks_follow(s, cuts, r, round)
}

/// `r` holds the breaks of the partition `cuts` of `s`.
pub open spec fn breaks_follow(s: Seq<i32>, cuts: Seq<usize>, r: Seq<i64>, round: bool) -> bool {
    &&& r.len() + 2 == cuts.len()
    &&& forall|g: int|
        0 <= g < r.len() ==> #[trigger] r[g] == if round {
            round_break_of(gap_lo(s, cuts, g), gap_hi(s, cuts, g))
        } else {
            gap_lo(s, cuts, g) + gap_hi(s, cuts, g)
        }
}

fn breaks_of_partition(s: &Vec<i32>, cuts: &Vec<usize>, k: usize, round: bool) -> (r: Vec<i64>)
    requires
        is_sorted(s@),
        is_partition(cuts@, k as int, s@.len() as int),
        1 <= k,
    ensures
        breaks_follow(s@, cuts@, r@, round),
{
    let mut r: Vec<i64> = Vec::new();
    let mut g: usize = 0;
    proof {
        lemma_partition_floor(cuts@, k as int, s@.len() as int);
    }
    while g + 1 < k
        invariant
            is_sorted(s@),
            is_partition(cuts@, k as int, s@.len() as int),
            forall|h: int| 0 <= h <= k ==> cuts@[h] >= h,
            1 <= k,
            g < k,
            r@.len() == g,
            forall|h: int|
                0 <= h < g ==> #[trigger] r@[h] == if round {
                    round_break_of(gap_lo(s@, cuts@, h), gap_hi(s@, cuts@, h))
                } else {
                    gap_lo(s@, cuts@, h) + gap_hi(s@, cuts@, h)
                },
        decreases k - g,
    {
        let c: usize = cuts[g + 1];
        proof {
            lemma_partition_ceiling(cuts@, k as int, s@.len() as int, g + 2);
            assert(cuts@[g + 1] < cuts@[g + 2]);
        }
        let lo: i32 = s[c - 1];
        let hi: i32 = s[c];
        let v: i64 = if round {
            round_break(lo, hi)
        } else {
            lo as i64 + hi as i64
        };
        r.push(v);
        g = g + 1;
    }
    r
}

/// The midpoints between adjacent classes of a least-cost partition of
/// `data` into `k` classes, in half units.
pub fn raw_breaks(data: &Vec<i32>, k: usize) -> (r: Result<Vec<i64>, ClusterError>)
    ensures
        r is Ok <==> request_error(data@.len(), k as nat) is None,
        r is Err ==> Some(r->Err_0) == request_error(data@.len(), k as nat),
        r is Ok ==> is_breaks(data@, k as int, r->Ok_0@, false),
{
    match check_request(data.len(), k) {
        Err(e) => {
            return Err(e);
        },
        Ok(()) => {},
    }
    let (s, cuts) = sorted_partition(data, k);
    let r = breaks_of_partition(&s, &cuts, k, false);
    assert(breaks_follow(s@, cuts@, r@, false));
    Ok(r)
}

/// The round breaks between adjacent classes of a least-cost partition of
/// `data` into `k` classes, in half units.
pub fn breaks(data: &Vec<i32>, k: usize) -> (r: Result<Vec<i64>, ClusterError>)
    ensures
        r is Ok <==> request_error(data@.len(), k as nat) is None,
        r is Err ==> Some(r->Err_0) == request_error(data@.len(), k as nat),
        r is Ok ==> is_breaks(data@, k as int, r->Ok_0@, true),
{
    match check_request(data.len(), k) {
        Err(e) => {
            return Err(e);
        },
        Ok(()) => {},
    }
    let (s, cuts) = sorted_partition(data, k);
    let r = breaks_of_partition(&s, &cuts, k, true);
    assert(breaks_follow(s@, cuts@, r@, true));
    Ok(r)
}

/// Between the classes of a partition of sorted observations, each round
/// break lies between the largest value of the lower class and the smallest
/// of the upper one, strictly so where these differ; the breaks never
/// descend, and a break whose gap is not empty lies below the next one.
pub proof fn law_breaks_separate(s: Seq<i32>, cuts: Seq<usize>, k: int, r: Seq<i64>)
    requires
        is_sorted(s),
        is_partition(cuts, k, s.len() as int),
        breaks_follow(s, cuts, r, true),
    ensures
        r.len() == k - 1,
        forall|g: int|
            0 <= g < r.len() ==> 2 * gap_lo(s, cuts, g) <= #[trigger] r[g] <= 2 * gap_hi(s, cuts, g),
        forall|g: int|
            0 <= g < r.len() && gap_lo(s, cuts, g) < gap_hi(s, cuts, g) ==> 2 * gap_lo(s, cuts, g)
                < #[trigger] r[g] < 2 * gap_hi(s, cuts, g),
        forall|g: int| 0 <= g < r.len() - 1 ==> #[trigger] r[g] <= r[g + 1],
        forall|g: int|
            0 <= g < r.len() - 1 && gap_lo(s, cuts, g) < gap_hi(s, cuts, g) ==> #[trigger] r[g]
                < r[g + 1],
{
    assert forall|g: int| 0 <= g < r.len() implies 2 * gap_lo(s, cuts, g) <= #[trigger] r[g] <= 2
        * gap_hi(s, cuts, g) && (gap_lo(s, cuts, g) < gap_hi(s, cuts, g) ==> 2 * gap_lo(s, cuts, g)
        < r[g] < 2 * gap_hi(s, cuts, g)) by {
        lemma_gap_ordered(s, cuts, k, g);
        lemma_break_in_gap(gap_lo(s, cuts, g), gap_hi(s, cuts, g));
    }
    assert forall|g: int| 0 <= g < r.len() - 1 implies #[trigger] r[g] <= r[g + 1] && (gap_lo(
        s,
        cuts,
        g,
    ) < gap_hi(s, cuts, g) ==> r[g] < r[g + 1]) by {
        lemma_gap_ordered(s, cuts, k, g);
        lemma_gap_ordered(s, cuts, k, g + 1);
        lemma_gaps_ascend(s, cuts, k, g);
        lemma_break_in_gap(gap_lo(s, cuts, g), gap_hi(s, cuts, g));
        lemma_break_in_gap(gap_lo(s, cuts, g + 1), gap_hi(s, cuts, g + 1));
    }
}

proof fn lemma_gap_ordered(s: Seq<i32>, cuts: Seq<usize>, k: int, g: int)
    requires
        is_sorted(s),
        is_partition(cuts, k, s.len() as int),
        0 <= g < k - 1,
    ensures
        1 <= cuts[g + 1] < s.len(),
        gap_lo(s, cuts, g) <= gap_hi(s, cuts, g),
{
    lemma_partition_floor(cuts, k, s.len() as int);
    lemma_partition_ceiling(cuts, k, s.len() as int, g + 2);
    assert(cuts[g + 1] < cuts[g + 2]);
}

proof fn lemma_gaps_ascend(s: Seq<i32>, cuts: Seq<usize>, k: int, g: int)
    requires
        is_sorted(s),
        is_partition(cuts, k, s.len() as int),
        0 <= g < k - 2,
    ensures
        gap_hi(s, cuts, g) <= gap_lo(s, cuts, g + 1),
{
    lemma_partition_floor(cuts, k, s.len() as int);
    lemma_partition_ceiling(cuts, k, s.len() as int, g + 3);
    assert(cuts[g + 1] < cuts[g + 2]);
    assert(cuts[g + 2] < cuts[g + 3]);
}

proof fn lemma_break_in_gap(lo: int, hi: int)
    requires
        -SHIFT < lo <= hi < SHIFT,
    ensures
        2 * lo <= round_break_of(lo, hi) <= 2 * hi,
        lo < hi ==> 2 * lo < round_break_of(lo, hi) < 2 * hi,
{
    reveal(round_break_of);
    if lo < hi {
        lemma_ladder_inside(lo, hi, TOP_POWER as nat);
    }
}

/// Breaks are determined by the observations, the number of classes and
/// the kind of break: two results for the same request are equal.
pub proof fn law_breaks_deterministic(data: Seq<i32>, k: int, r1: Seq<i64>, r2: Seq<i64>, round: bool)
    requires
        is_breaks(data, k, r1, round),
        is_breaks(data, k, r2, round),
    ensures
        r1 == r2,
{
    let w1 = choose|s: Seq<i32>, cuts: Seq<usize>|
        #![trigger is_optimal(s, cuts, k), s.to_multiset(), cuts.len()]
        is_sorted(s) && s.to_multiset() == data.to_multiset() && is_optimal(s, cuts, k)
            && is_canonical(s, cuts, k) && breaks_follow(s, cuts, r1, round);
    let w2 = choose|s: Seq<i32>, cuts: Seq<usize>|
        #![trigger is_optimal(s, cuts, k), s.to_multiset(), cuts.len()]
        is_sorted(s) && s.to_multiset() == data.to_multiset() && is_optimal(s, cuts, k)
            && is_canonical(s, cuts, k) && breaks_follow(s, cuts, r2, round);
    lemma_sorted_unique(w1.0, w2.0);
    lemma_partition_floor(w1.1, k, w1.0.len() as int);
    lemma_partition_room(w1.1, k, w1.0.len() as int, 0);
    lemma_canonical_unique(w1.0, w1.1, w2.1, k);
    assert(r1 =~= r2);
}

/// Breaks of a least-cost partition: one fewer than the classes, never
/// descending.
pub proof fn law_breaks_ascend(data: Seq<i32>, k: int, r: Seq<i64>)
    requires
        is_breaks(data, k, r, true),
    ensures
        r.len() == k - 1,
        forall|g: int, h: int| 0 <= g <= h < r.len() ==> #[trigger] r[g] <= #[trigger] r[h],
{
    let w = choose|s: Seq<i32>, cuts: Seq<usize>|
        #![trigger is_optimal(s, cuts, k), s.to_multiset(), cuts.len()]
        is_sorted(s) && s.to_multiset() == data.to_multiset() && is_optimal(s, cuts, k)
            && is_canonical(s, cuts, k) && breaks_follow(s, cuts, r, true);
    law_breaks_separate(w.0, w.1, k, r);
    assert forall|g: int, h: int| 0 <= g <= h < r.len() implies #[trigger] r[g] <= #[trigger] r[h] by {
        lemma_breaks_chain(r, g, h);
    }
}

proof fn lemma_breaks_chain(r: Seq<i64>, g: int, h: int)
    requires
        0 <= g <= h < r.len(),
        forall|t: int| 0 <= t < r.len() - 1 ==> #[trigger] r[t] <= r[t + 1],
    ensures
        r[g] <= r[h],
    decreases h - g,
{
    if g < h {
        lemma_breaks_chain(r, g, h - 1);
        assert(r[h - 1] <= r[h]);
    }
}

proof fn lemma_pow10_split(p: nat, q: nat)
    requires
        q <= p,
    ensures
        pow10(p) == pow10(q) * pow10((p - q) as nat),
    decreases p,
{
    if p > q {
        lemma_pow10_split((p - 1) as nat, q);
        assert(pow10(p) == 10 * pow10((p - 1) as nat));
        assert(pow10((p - q) as nat) == 10 * pow10((p - 1 - q) as nat));
        assert(10 * (pow10(q) * pow10((p - 1 - q) as nat)) == pow10(q) * (10 * pow10(
            (p - 1 - q) as nat,
        ))) by (nonlinear_arith);
    }
}

/// `10^q` divides every multiple of `10^p` when `q <= p`.
proof fn lemma_multiple_coarser(v: int, p: nat, q: nat)
    requires
        q <= p,
        v % pow10(p) == 0,
    ensures
        v % pow10(q) == 0,
{
    lemma_pow10_pos(p);
    lemma_pow10_pos(q);
    lemma_pow10_split(p, q);
    lemma_fundamental_div_mod(v, pow10(p));
    let t = v / pow10(p);
    assert(v == (t * pow10((p - q) as nat)) * pow10(q)) by (nonlinear_arith)
        requires
            v == pow10(p) * t,
            pow10(p) == pow10(q) * pow10((p - q) as nat),
    ;
    lemma_mod_multiples_basic(t * pow10((p - q) as nat), pow10(q));
}

/// Each rung's value is a multiple of its power of ten.
proof fn lemma_rung_multiple(lo: int, hi: int, p: nat)
    requires
        p <= TOP_POWER,
        -SHIFT < lo < hi < SHIFT,
    ensures
        rung_value(lo, hi, p) % pow10(p) == 0,
{
    let u = pow10(p);
    lemma_pow10_pos(p);
    reveal_with_fuel(pow10, 11);
    assert(SHIFT == pow10(TOP_POWER as nat));
    lemma_pow10_split(TOP_POWER as nat, p);
    let b = pow10((TOP_POWER - p) as nat);
    let a1 = (lo + SHIFT) / u + 1;
    let a2 = (lo + hi + 2 * SHIFT) / (2 * u);
    assert(first_above(lo, u) == (a1 - b) * u) by (nonlinear_arith)
        requires
            first_above(lo, u) == a1 * u - SHIFT,
            SHIFT == u * b,
    ;
    assert(floor_mid(lo, hi, u) == (a2 - b) * u) by (nonlinear_arith)
        requires
            floor_mid(lo, hi, u) == a2 * u - SHIFT,
            SHIFT == u * b,
    ;
    lemma_mod_multiples_basic(a1 - b, u);
    lemma_mod_multiples_basic(a2 - b, u);
}

/// When a multiple of `10^q` lies strictly between `lo` and `hi`, the rung
/// for `10^q` finds one.
proof fn lemma_rung_found(lo: int, hi: int, q: nat, m: int)
    requires
        q <= TOP_POWER,
        -SHIFT < lo < m < hi < SHIFT,
        m % pow10(q) == 0,
    ensures
        has_round(lo, hi, q),
{
    let u = pow10(q);
    lemma_pow10_pos(q);
    reveal_with_fuel(pow10, 11);
    lemma_pow10_split(TOP_POWER as nat, q);
    let b = pow10((TOP_POWER - q) as nat);
    let x = lo + SHIFT;
    let big = m + SHIFT;
    lemma_fundamental_div_mod(x, u);
    lemma_fundamental_div_mod(m, u);
    let a = m / u + b;
    assert(big == u * a) by (nonlinear_arith)
        requires
            m == u * (m / u) + m % u,
            m % u == 0,
            SHIFT == u * b,
            big == m + SHIFT,
            a == m / u + b,
    ;
    assert((x / u + 1) * u <= big) by (nonlinear_arith)
        requires
            x == u * (x / u) + x % u,
            0 <= x % u < u,
            x < big,
            big == u * a,
            u >= 1,
    ;
}

proof fn lemma_ladder_coarse(lo: int, hi: int, p: nat, q: nat, m: int)
    requires
        q <= p <= TOP_POWER,
        -SHIFT < lo < m < hi < SHIFT,
        m % pow10(q) == 0,
    ensures
        ladder(lo, hi, p) % 2 == 0,
        (ladder(lo, hi, p) / 2) % pow10(q) == 0,
    decreases p,
{
    lemma_rung_found(lo, hi, q, m);
    if has_round(lo, hi, p) {
        lemma_rung_multiple(lo, hi, p);
        lemma_multiple_coarser(rung_value(lo, hi, p), p, q);
    } else {
        lemma_ladder_coarse(lo, hi, (p - 1) as nat, q, m);
    }
}

/// Where the midpoint of a non-empty gap is a whole multiple of `10^q`, the
/// round break is one too: it is never written with more significant
/// digits than the midpoint, and it stays strictly inside the gap.
pub proof fn law_round_not_finer(lo: i32, hi: i32, q: nat)
    requires
        lo < hi,
        q <= TOP_POWER,
        (lo + hi) % 2 == 0,
        ((lo + hi) / 2) % pow10(q) == 0,
    ensures
        round_break_of(lo as int, hi as int) % 2 == 0,
        (round_break_of(lo as int, hi as int) / 2) % pow10(q) == 0,
        2 * lo < round_break_of(lo as int, hi as int) < 2 * hi,
{
    reveal(round_break_of);
    let m = (lo + hi) / 2;
    lemma_ladder_coarse(lo as int, hi as int, TOP_POWER as nat, q, m);
    lemma_ladder_inside(lo as int, hi as int, TOP_POWER as nat);
}

/// Where a whole number lies strictly inside the gap, the round break is a
/// whole number: it never keeps the half of a midpoint such as `6.5`.
pub proof fn law_round_whole(lo: i32, hi: i32)
    requires
        lo + 1 < hi,
    ensures
        round_break_of(lo as int, hi as int) % 2 == 0,
        2 * lo < round_break_of(lo as int, hi as int) < 2 * hi,
{
    reveal(round_break_of);
    assert(pow10(0) == 1);
    lemma_ladder_coarse(lo as int, hi as int, TOP_POWER as nat, 0, lo + 1);
    lemma_ladder_inside(lo as int, hi as int, TOP_POWER as nat);
}

} // verus!
