use vstd::prelude::*;
use crate::cluster::{is_clustering, splits_into};
use crate::prefix::{cost_scale, group_cost, lemma_spread_nonneg, spread, sq_of, sum_of};
use vstd::arithmetic::div_mod::{lemma_fundamental_div_mod, lemma_mod_multiples_basic};
use crate::solver::{
    is_canonical, is_optimal, is_partition, lemma_canonical_unique, lemma_partition_ceiling,
    lemma_partition_floor, total_cost,
};
use crate::sorting::{is_sorted, lemma_sorted_unique};

verus! {

broadcast use vstd::seq_lib::group_to_multiset_ensures;

/// The groups laid end to end.
pub open spec fn concat(groups: Seq<Seq<i32>>) -> Seq<i32>
    decreases groups.len(),
{
    if groups.len() == 0 {
        Seq::empty()
    } else {
        concat(groups.drop_last()) + groups.last()
    }
}

proof fn lemma_concat_prefix(s: Seq<i32>, cuts: Seq<usize>, groups: Seq<Seq<i32>>, k: int, h: int)
    requires
        is_partition(cuts, k, s.len() as int),
        splits_into(s, cuts, groups),
        0 <= h <= k,
    ensures
        concat(groups.take(h)) == s.subrange(0, cuts[h] as int),
    decreases h,
{
    lemma_partition_ceiling(cuts, k, s.len() as int, h);
    if h == 0 {
        assert(groups.take(0) =~= Seq::<Seq<i32>>::empty());
        assert(s.subrange(0, 0) =~= Seq::<i32>::empty());
    } else {
        lemma_concat_prefix(s, cuts, groups, k, h - 1);
        assert(groups.take(h).drop_last() =~= groups.take(h - 1));
        assert(groups.take(h).last() == groups[h - 1]);
        assert(cuts[h - 1] < cuts[h]);
        assert(s.subrange(0, cuts[h] as int) =~= s.subrange(0, cuts[h - 1] as int) + s.subrange(
            cuts[h - 1] as int,
            cuts[h] as int,
        ));
    }
}

/// A witness of the sorted view and partition behind a clustering.
proof fn lemma_witness(data: Seq<i32>, k: int, groups: Seq<Seq<i32>>) -> (w: (Seq<i32>, Seq<usize>))
    requires
        is_clustering(data, k, groups),
    ensures
        is_sorted(w.0),
        w.0.to_multiset() == data.to_multiset(),
        is_optimal(w.0, w.1, k),
        is_canonical(w.0, w.1, k),
        splits_into(w.0, w.1, groups),
        concat(groups) == w.0,
        w.0.len() == data.len(),
{
    let w = choose|s: Seq<i32>, cuts: Seq<usize>|
        #![trigger is_optimal(s, cuts, k), splits_into(s, cuts, groups)]
        is_sorted(s) && s.to_multiset() == data.to_multiset() && is_optimal(s, cuts, k)
            && is_canonical(s, cuts, k) && splits_into(s, cuts, groups);
    vstd::seq_lib::to_multiset_len(w.0);
    vstd::seq_lib::to_multiset_len(data);
    lemma_concat_prefix(w.0, w.1, groups, k, k);
    assert(groups.take(k) =~= groups);
    assert(w.0.subrange(0, w.0.len() as int) =~= w.0);
    w
}

/// A clustering into `k` groups has exactly `k` groups, none of them empty,
/// which laid end to end hold exactly the observations, in ascending order.
pub proof fn law_groups_cover(data: Seq<i32>, k: int, groups: Seq<Seq<i32>>)
    requires
        is_clustering(data, k, groups),
    ensures
        groups.len() == k,
        forall|g: int| 0 <= g < k ==> #[trigger] groups[g].len() > 0,
        concat(groups).len() == data.len(),
        concat(groups).to_multiset() == data.to_multiset(),
        is_sorted(concat(groups)),
{
    let (s, cuts) = lemma_witness(data, k, groups);
    assert forall|g: int| 0 <= g < k implies #[trigger] groups[g].len() > 0 by {
        lemma_partition_ceiling(cuts, k, s.len() as int, g + 1);
        assert(cuts[g] < cuts[g + 1]);
    }
}

/// Every value of a group is at most every value of any later group.
pub proof fn law_groups_ordered(data: Seq<i32>, k: int, groups: Seq<Seq<i32>>)
    requires
        is_clustering(data, k, groups),
    ensures
        forall|g: int, h: int, a: int, b: int|
            0 <= g < h < k && 0 <= a < groups[g].len() && 0 <= b < groups[h].len() ==> #[trigger] groups[g][a]
                <= #[trigger] groups[h][b],
{
    let (s, cuts) = lemma_witness(data, k, groups);
    assert forall|g: int, h: int, a: int, b: int|
        0 <= g < h < k && 0 <= a < groups[g].len() && 0 <= b < groups[h].len() implies #[trigger] groups[g][a]
        <= #[trigger] groups[h][b] by {
        lemma_partition_ceiling(cuts, k, s.len() as int, h + 1);
        lemma_partition_ceiling(cuts, k, s.len() as int, g + 1);
        lemma_cuts_ascend(cuts, k, s.len() as int, g + 1, h);
        assert(groups[g][a] == s[cuts[g] + a]);
        assert(groups[h][b] == s[cuts[h] + b]);
    }
}

proof fn lemma_cuts_ascend(c: Seq<usize>, i: int, j: int, g: int, h: int)
    requires
        is_partition(c, i, j),
        0 <= g <= h <= i,
    ensures
        c[g] <= c[h],
    decreases h - g,
{
    if g < h {
        lemma_cuts_ascend(c, i, j, g, h - 1);
        assert(c[h - 1] < c[h]);
    }
}

/// A partition of `[0, j)` into `i` groups leaves room for the later groups.
pub proof fn lemma_partition_room(c: Seq<usize>, i: int, j: int, g: int)
    requires
        is_partition(c, i, j),
        0 <= g <= i,
    ensures
        c[g] + (i - g) <= j,
    decreases i - g,
{
    if g < i {
        lemma_partition_room(c, i, j, g + 1);
        assert(c[g] < c[g + 1]);
    }
}

/// A clustering into one group is the observations in ascending order.
pub proof fn law_one_group(data: Seq<i32>, groups: Seq<Seq<i32>>)
    requires
        is_clustering(data, 1, groups),
    ensures
        groups.len() == 1,
        is_sorted(groups[0]),
        groups[0].to_multiset() == data.to_multiset(),
{
    let (s, cuts) = lemma_witness(data, 1, groups);
    assert(groups[0] == s.subrange(0, s.len() as int));
    assert(s.subrange(0, s.len() as int) =~= s);
}

/// A clustering into as many groups as observations puts each observation
/// in a group of its own, in ascending order.
pub proof fn law_singletons(data: Seq<i32>, groups: Seq<Seq<i32>>)
    requires
        is_clustering(data, data.len() as int, groups),
    ensures
        groups.len() == data.len(),
        forall|g: int| 0 <= g < groups.len() ==> #[trigger] groups[g].len() == 1,
        forall|g: int, h: int|
            0 <= g <= h < groups.len() ==> #[trigger] groups[g][0] <= #[trigger] groups[h][0],
        concat(groups).to_multiset() == data.to_multiset(),
{
    let k = data.len() as int;
    let (s, cuts) = lemma_witness(data, k, groups);
    assert forall|g: int| 0 <= g < k implies #[trigger] groups[g].len() == 1 && groups[g][0] == s[g] by {
        lemma_singleton_at(s, cuts, groups, g);
    }
    assert forall|g: int, h: int| 0 <= g <= h < groups.len() implies #[trigger] groups[g][0]
        <= #[trigger] groups[h][0] by {
        lemma_singleton_at(s, cuts, groups, g);
        lemma_singleton_at(s, cuts, groups, h);
        assert(s[g] <= s[h]);
    }
}

proof fn lemma_singleton_at(s: Seq<i32>, cuts: Seq<usize>, groups: Seq<Seq<i32>>, g: int)
    requires
        is_partition(cuts, s.len() as int, s.len() as int),
        splits_into(s, cuts, groups),
        0 <= g < s.len(),
    ensures
        groups[g].len() == 1,
        groups[g][0] == s[g],
{
    let k = s.len() as int;
    lemma_partition_floor(cuts, k, k);
    lemma_partition_room(cuts, k, k, g);
    lemma_partition_room(cuts, k, k, g + 1);
    assert(cuts[g] == g && cuts[g + 1] == g + 1);
}

/// Clustering is determined by the observations and the number of groups:
/// two results for the same request are equal.
pub proof fn law_deterministic(data: Seq<i32>, k: int, g1: Seq<Seq<i32>>, g2: Seq<Seq<i32>>)
    requires
        is_clustering(data, k, g1),
        is_clustering(data, k, g2),
    ensures
        g1 == g2,
{
    let (s1, c1) = lemma_witness(data, k, g1);
    let (s2, c2) = lemma_witness(data, k, g2);
    lemma_sorted_unique(s1, s2);
    lemma_partition_floor(c1, k, s1.len() as int);
    lemma_partition_room(c1, k, s1.len() as int, 0);
    lemma_canonical_unique(s1, c1, c2, k);
    assert(g1 =~= g2);
}

/// The total cost of a list of groups, each taken as one group.
pub open spec fn groups_cost(groups: Seq<Seq<i32>>) -> int
    decreases groups.len(),
{
    if groups.len() == 0 {
        0
    } else {
        groups_cost(groups.drop_last()) + group_cost(groups.last(), 0, groups.last().len() as int)
    }
}

proof fn lemma_sub_sums(s: Seq<i32>, a: int, b: int)
    requires
        0 <= a <= b <= s.len(),
    ensures
        sum_of(s.subrange(a, b), 0, b - a) == sum_of(s, a, b),
        sq_of(s.subrange(a, b), 0, b - a) == sq_of(s, a, b),
    decreases b - a,
{
    if b > a {
        lemma_sub_sums(s, a, b - 1);
        let t = s.subrange(a, b);
        let u = s.subrange(a, b - 1);
        lemma_prefix_sums_agree(t, u, b - 1 - a);
    }
}

proof fn lemma_prefix_sums_agree(t: Seq<i32>, u: Seq<i32>, e: int)
    requires
        0 <= e <= u.len(),
        e <= t.len(),
        forall|x: int| 0 <= x < e ==> t[x] == u[x],
    ensures
        sum_of(t, 0, e) == sum_of(u, 0, e),
        sq_of(t, 0, e) == sq_of(u, 0, e),
    decreases e,
{
    if e > 0 {
        lemma_prefix_sums_agree(t, u, e - 1);
    }
}

proof fn lemma_cost_prefix(s: Seq<i32>, cuts: Seq<usize>, groups: Seq<Seq<i32>>, k: int, h: int)
    requires
        is_partition(cuts, k, s.len() as int),
        splits_into(s, cuts, groups),
        0 <= h <= k,
    ensures
        total_cost(s, cuts.take(h + 1)) == groups_cost(groups.take(h)),
    decreases h,
{
    if h == 0 {
        assert(groups.take(0) =~= Seq::<Seq<i32>>::empty());
    } else {
        lemma_cost_prefix(s, cuts, groups, k, h - 1);
        assert(cuts.take(h + 1).drop_last() =~= cuts.take(h));
        assert(groups.take(h).drop_last() =~= groups.take(h - 1));
        lemma_partition_ceiling(cuts, k, s.len() as int, h);
        assert(cuts[h - 1] < cuts[h]);
        let a = cuts[h - 1] as int;
        let b = cuts[h] as int;
        lemma_sub_sums(s, a, b);
        assert(groups.take(h).last() == s.subrange(a, b));
    }
}

/// No partition of the ascending observations into `k` contiguous groups
/// has a smaller total cost than the groups of a clustering.
pub proof fn law_least_cost(data: Seq<i32>, k: int, groups: Seq<Seq<i32>>, c: Seq<usize>)
    requires
        is_clustering(data, k, groups),
        is_partition(c, k, data.len() as int),
    ensures
        groups_cost(groups) <= total_cost(concat(groups), c),
{
    let (s, cuts) = lemma_witness(data, k, groups);
    lemma_cost_prefix(s, cuts, groups, k, k);
    assert(cuts.take(k + 1) =~= cuts);
    assert(groups.take(k) =~= groups);
}

/// `n!`, a common multiple of every group size up to `n`.
pub open spec fn fact(n: nat) -> int
    decreases n,
{
    if n == 0 {
        1
    } else {
        n * fact((n - 1) as nat)
    }
}

/// `d` times the exact total within-group sum of squares of the groups that
/// `cuts` marks out in `s`, when every group size divides `d`.
pub open spec fn exact_total(s: Seq<i32>, cuts: Seq<usize>, d: int) -> int
    decreases cuts.len(),
{
    if cuts.len() < 2 {
        0
    } else {
        let a = cuts[cuts.len() - 2] as int;
        let b = cuts[cuts.len() - 1] as int;
        exact_total(s, cuts.drop_last(), d) + spread(s, a, b) * (d / (b - a))
    }
}

proof fn lemma_fact_divisible(n: nat, m: int)
    requires
        1 <= m <= n,
    ensures
        fact(n) % m == 0,
        fact(n) >= 1,
    decreases n,
{
    lemma_fact_pos((n - 1) as nat);
    if m == n {
        lemma_mod_multiples_basic(fact((n - 1) as nat), m);
        assert(fact(n) == fact((n - 1) as nat) * m);
    } else {
        lemma_fact_divisible((n - 1) as nat, m);
        lemma_fundamental_div_mod(fact((n - 1) as nat), m);
        let t = fact((n - 1) as nat) / m;
        assert(fact(n) == (n * t) * m) by (nonlinear_arith)
            requires
                fact(n) == n * fact((n - 1) as nat),
                fact((n - 1) as nat) == m * t + 0,
        ;
        lemma_mod_multiples_basic(n * t, m);
    }
    assert(fact(n) >= 1) by (nonlinear_arith)
        requires
            fact(n) == n * fact((n - 1) as nat),
            fact((n - 1) as nat) >= 1,
            n >= 1,
    ;
}

proof fn lemma_fact_pos(n: nat)
    ensures
        fact(n) >= 1,
    decreases n,
{
    if n > 0 {
        lemma_fact_pos((n - 1) as nat);
        assert(n * fact((n - 1) as nat) >= 1) by (nonlinear_arith)
            requires
                fact((n - 1) as nat) >= 1,
                n >= 1,
        ;
    }
}

/// One group: its rounded cost, scaled by `d`, is at most `d - 1` below its
/// exact cost scaled by `d * 2^32`.
proof fn lemma_group_rounding(s: Seq<i32>, a: int, b: int, d: int)
    requires
        0 <= a < b <= s.len(),
        d >= 1,
        d % (b - a) == 0,
    ensures
        0 <= cost_scale() * (spread(s, a, b) * (d / (b - a))) - d * group_cost(s, a, b) <= d - 1,
{
    let m = b - a;
    let q = cost_scale();
    let sp = spread(s, a, b);
    lemma_spread_nonneg(s, a, b);
    lemma_fundamental_div_mod(d, m);
    lemma_fundamental_div_mod(q * sp, m);
    let w = d / m;
    let f = (q * sp) / m;
    let r = (q * sp) % m;
    assert(w >= 1) by (nonlinear_arith)
        requires
            d == m * w + 0,
            d >= 1,
            m >= 1,
    ;
    assert(q * (sp * w) - d * f == r * w) by (nonlinear_arith)
        requires
            d == m * w + 0,
            q * sp == m * f + r,
    ;
    assert(0 <= r * w <= (m - 1) * w) by (nonlinear_arith)
        requires
            0 <= r < m,
            w >= 1,
    ;
    assert((m - 1) * w == d - w) by (nonlinear_arith)
        requires
            d == m * w + 0,
    ;
}

/// A whole chain of groups: the same bound, once per group.
proof fn lemma_total_rounding(s: Seq<i32>, cuts: Seq<usize>, n: nat)
    requires
        cuts.len() >= 1,
        n == s.len(),
        cuts[cuts.len() - 1] <= n,
        forall|g: int| 0 <= g < cuts.len() - 1 ==> #[trigger] cuts[g] < cuts[g + 1],
    ensures
        0 <= cost_scale() * exact_total(s, cuts, fact(n)) - fact(n) * total_cost(s, cuts) <= (
        cuts.len() - 1) * (fact(n) - 1),
    decreases cuts.len(),
{
    lemma_fact_pos(n);
    if cuts.len() >= 2 {
        let d = cuts.drop_last();
        let len = cuts.len() as int;
        assert(cuts[len - 2] < cuts[len - 1]);
        lemma_total_rounding(s, d, n);
        let a = cuts[len - 2] as int;
        let b = cuts[len - 1] as int;
        lemma_fact_divisible(n, b - a);
        lemma_group_rounding(s, a, b, fact(n));
        let q = cost_scale();
        let e0 = exact_total(s, d, fact(n));
        let f0 = total_cost(s, d);
        let eg = spread(s, a, b) * (fact(n) / (b - a));
        let fg = group_cost(s, a, b);
        assert(q * (e0 + eg) - fact(n) * (f0 + fg) == (q * e0 - fact(n) * f0) + (q * eg - fact(n)
            * fg)) by (nonlinear_arith);
        assert((len - 2) * (fact(n) - 1) + (fact(n) - 1) == (len - 1) * (fact(n) - 1))
            by (nonlinear_arith);
    } else {
        assert(exact_total(s, cuts, fact(n)) == 0);
        assert(total_cost(s, cuts) == 0);
    }
}

/// The dynamic program's partition is within `k * 2^-32` of the least exact
/// within-group sum of squares. With `d = n!`, `exact_total(s, c, d)` is `d`
/// times the exact sum for any partition `c`; scaled by `2^32`, the result's
/// sum is below that of every other partition into `k` groups plus `k * d`.
pub proof fn law_near_least_exact(s: Seq<i32>, cuts: Seq<usize>, k: int, c: Seq<usize>)
    requires
        1 <= k,
        is_optimal(s, cuts, k),
        is_partition(c, k, s.len() as int),
    ensures
        cost_scale() * exact_total(s, cuts, fact(s.len())) < cost_scale() * exact_total(
            s,
            c,
            fact(s.len()),
        ) + k * fact(s.len()),
{
    let n = s.len();
    lemma_total_rounding(s, cuts, n);
    lemma_total_rounding(s, c, n);
    lemma_fact_pos(n);
    assert(total_cost(s, cuts) <= total_cost(s, c));
    assert(fact(n) * total_cost(s, cuts) <= fact(n) * total_cost(s, c)) by (nonlinear_arith)
        requires
            total_cost(s, cuts) <= total_cost(s, c),
            fact(n) >= 1,
    ;
    assert(k * (fact(n) - 1) < k * fact(n)) by (nonlinear_arith)
        requires
            k >= 1,
            fact(n) >= 1,
    ;
}

/// `d` times the exact total within-group sum of squares of a list of
/// groups, when every group size divides `d`.
pub open spec fn groups_exact(groups: Seq<Seq<i32>>, d: int) -> int
    decreases groups.len(),
{
    if groups.len() == 0 {
        0
    } else {
        let g = groups.last();
        groups_exact(groups.drop_last(), d) + spread(g, 0, g.len() as int) * (d / (g.len() as int))
    }
}

proof fn lemma_exact_prefix(
    s: Seq<i32>,
    cuts: Seq<usize>,
    groups: Seq<Seq<i32>>,
    k: int,
    h: int,
    d: int,
)
    requires
        is_partition(cuts, k, s.len() as int),
        splits_into(s, cuts, groups),
        0 <= h <= k,
    ensures
        exact_total(s, cuts.take(h + 1), d) == groups_exact(groups.take(h), d),
    decreases h,
{
    if h == 0 {
        assert(groups.take(0) =~= Seq::<Seq<i32>>::empty());
    } else {
        lemma_exact_prefix(s, cuts, groups, k, h - 1, d);
        assert(cuts.take(h + 1).drop_last() =~= cuts.take(h));
        assert(groups.take(h).drop_last() =~= groups.take(h - 1));
        lemma_partition_ceiling(cuts, k, s.len() as int, h);
        assert(cuts[h - 1] < cuts[h]);
        let a = cuts[h - 1] as int;
        let b = cuts[h] as int;
        lemma_sub_sums(s, a, b);
        assert(groups.take(h).last() == s.subrange(a, b));
    }
}

/// The groups of a clustering come within `k * 2^-32` of the least exact
/// within-group sum of squares: with `d = n!`, `groups_exact(groups, d)` is
/// `d` times their exact sum, and scaled by `2^32` it is below that of every
/// partition `c` of the ascending observations into `k` groups plus `k * d`.
pub proof fn law_groups_near_least_exact(
    data: Seq<i32>,
    k: int,
    groups: Seq<Seq<i32>>,
    c: Seq<usize>,
)
    requires
        1 <= k,
        is_clustering(data, k, groups),
        is_partition(c, k, data.len() as int),
    ensures
        cost_scale() * groups_exact(groups, fact(data.len())) < cost_scale() * exact_total(
            concat(groups),
            c,
            fact(data.len()),
        ) + k * fact(data.len()),
{
    let (s, cuts) = lemma_witness(data, k, groups);
    lemma_exact_prefix(s, cuts, groups, k, k, fact(data.len()));
    assert(cuts.take(k + 1) =~= cuts);
    assert(groups.take(k) =~= groups);
    law_near_least_exact(s, cuts, k, c);
}

} // verus!
