use vstd::prelude::*;
use crate::prefix::{cost_cap, group_cost, lemma_cost_bounds, PrefixStats};

verus! {

/// `cuts` splits the range `[0, j)` into `i` non-empty contiguous groups:
/// group `g` is `[cuts[g], cuts[g + 1])`.
pub open spec fn is_partition(cuts: Seq<usize>, i: int, j: int) -> bool {
    &&& cuts.len() == i + 1
    &&& cuts[0] == 0
    &&& cuts[i] == j
    &&& forall|g: int| 0 <= g < i ==> #[trigger] cuts[g] < cuts[g + 1]
}

/// Total cost of the groups that `cuts` marks out in `s`.
pub open spec fn total_cost(s: Seq<i32>, cuts: Seq<usize>) -> int
    decreases cuts.len(),
{
    if cuts.len() < 2 {
        0
    } else {
        total_cost(s, cuts.drop_last()) + group_cost(
            s,
            cuts[cuts.len() - 2] as int,
            cuts[cuts.len() - 1] as int,
        )
    }
}

/// `cuts` is a partition of `s` into `k` groups whose total cost is least
/// among all partitions of `s` into `k` contiguous groups.
pub open spec fn is_optimal(s: Seq<i32>, cuts: Seq<usize>, k: int) -> bool {
    &&& is_partition(cuts, k, s.len() as int)
    &&& forall|c: Seq<usize>| #[trigger]
        is_partition(c, k, s.len() as int) ==> total_cost(s, cuts) <= total_cost(s, c)
}

/// The table entry for `i >= 2` groups over the first `j` values: `c` is the
/// least cost of a split at `t`, and `t` is the leftmost such split.
pub open spec fn entry_ok(s: Seq<i32>, prev: Seq<u128>, c: u128, t: usize, i: int, j: int) -> bool {
    &&& i - 1 <= t <= j - 1
    &&& c == prev[t as int] + group_cost(s, t as int, j)
    &&& forall|u: int| i - 1 <= u <= j - 1 ==> c <= prev[u] + group_cost(s, u, j)
    &&& forall|u: int| i - 1 <= u < t ==> c < prev[u] + group_cost(s, u, j)
}

/// `cuts` is the partition that the dynamic program yields for `k` groups:
/// the one read back from filled tables, whose ties between splits of equal
/// cost go to the leftmost split.
pub open spec fn is_canonical(s: Seq<i32>, cuts: Seq<usize>, k: int) -> bool {
    exists|best: Seq<Vec<u128>>, split: Seq<Vec<usize>>|
        #[trigger] tables_ok(s, best, split) && k < best.len() && cuts == trace(
            split,
            k,
            s.len() as int,
        )
}

/// Rows `1..best.len()` of the cost table and the split table are filled.
pub open spec fn tables_ok(s: Seq<i32>, best: Seq<Vec<u128>>, split: Seq<Vec<usize>>) -> bool {
    let n = s.len() as int;
    &&& best.len() == split.len()
    &&& best.len() >= 1
    &&& forall|i: int| 1 <= i < best.len() ==> #[trigger] best[i]@.len() == n + 1
    &&& forall|i: int| 1 <= i < split.len() ==> #[trigger] split[i]@.len() == n + 1
    &&& forall|i: int, j: int|
        1 <= i < best.len() && 0 <= j <= n ==> #[trigger] best[i]@[j] <= j * cost_cap()
    &&& forall|j: int|
        1 <= j <= n && 1 < best.len() ==> #[trigger] best[1]@[j] == group_cost(s, 0, j)
    &&& forall|j: int| 1 <= j <= n && 1 < best.len() ==> #[trigger] split[1]@[j] == 0
    &&& forall|i: int, j: int|
        2 <= i < best.len() && i <= j <= n ==> entry_ok(
            s,
            best[i - 1]@,
            #[trigger] best[i]@[j],
            split[i]@[j],
            i,
            j,
        )
}

/// The partition that the split table gives for `i` groups over `[0, j)`.
pub open spec fn trace(split: Seq<Vec<usize>>, i: int, j: int) -> Seq<usize>
    decreases i,
{
    if i <= 1 {
        seq![0usize, j as usize]
    } else {
        trace(split, i - 1, split[i]@[j] as int).push(j as usize)
    }
}

pub proof fn lemma_partition_floor(c: Seq<usize>, i: int, j: int)
    requires
        is_partition(c, i, j),
    ensures
        forall|g: int| 0 <= g <= i ==> c[g] >= g,
{
    assert forall|g: int| 0 <= g <= i implies c[g] >= g by {
        lemma_partition_floor_at(c, i, j, g);
    }
}

proof fn lemma_partition_floor_at(c: Seq<usize>, i: int, j: int, g: int)
    requires
        is_partition(c, i, j),
        0 <= g <= i,
    ensures
        c[g] >= g,
    decreases g,
{
    if g > 0 {
        lemma_partition_floor_at(c, i, j, g - 1);
    }
}

/// Every boundary of a partition of `[0, j)` is at most `j`.
pub proof fn lemma_partition_ceiling(c: Seq<usize>, i: int, j: int, g: int)
    requires
        is_partition(c, i, j),
        0 <= g <= i,
    ensures
        c[g] <= j,
    decreases i - g,
{
    if g < i {
        lemma_partition_ceiling(c, i, j, g + 1);
    }
}

/// No partition of `[0, j)` into `i` groups costs less than the table entry.
proof fn lemma_table_lower(
    s: Seq<i32>,
    best: Seq<Vec<u128>>,
    split: Seq<Vec<usize>>,
    c: Seq<usize>,
    i: int,
    j: int,
)
    requires
        tables_ok(s, best, split),
        1 <= i < best.len(),
        j <= s.len(),
        is_partition(c, i, j),
    ensures
        best[i]@[j] <= total_cost(s, c),
    decreases i,
{
    lemma_partition_floor(c, i, j);
    assert(c[0] < c[1]);
    assert(best[i]@.len() == s.len() + 1);
    if i == 1 {
        assert(c.drop_last().len() == 1);
        assert(total_cost(s, c.drop_last()) == 0);
        assert(total_cost(s, c) == group_cost(s, 0, j));
        assert(best[1]@[j] == group_cost(s, 0, j));
    } else {
        let d = c.drop_last();
        let t = c[i - 1] as int;
        assert(c[i - 1] < c[i]);
        assert(is_partition(d, i - 1, t));
        lemma_table_lower(s, best, split, d, i - 1, t);
        assert(entry_ok(s, best[i - 1]@, best[i]@[j], split[i]@[j], i, j));
        assert(best[i]@[j] <= best[i - 1]@[t] + group_cost(s, t, j));
        assert(total_cost(s, c) == total_cost(s, d) + group_cost(s, t, j));
    }
}

/// The partition that the split table gives costs exactly the table entry.
proof fn lemma_trace(s: Seq<i32>, best: Seq<Vec<u128>>, split: Seq<Vec<usize>>, i: int, j: int)
    requires
        tables_ok(s, best, split),
        1 <= i < best.len(),
        i <= j <= s.len(),
        j <= usize::MAX,
    ensures
        is_partition(trace(split, i, j), i, j),
        total_cost(s, trace(split, i, j)) == best[i]@[j],
    decreases i,
{
    let r = trace(split, i, j);
    assert(best[i]@.len() == s.len() + 1);
    assert(split[i]@.len() == s.len() + 1);
    if i == 1 {
        assert(r =~= seq![0usize, j as usize]);
        assert(r.drop_last() =~= seq![0usize]);
        assert(total_cost(s, r.drop_last()) == 0);
        assert(r[0] == 0 && r[1] == j);
        assert(best[1]@[j] == group_cost(s, 0, j));
        assert(total_cost(s, r) == group_cost(s, 0, j));
    } else {
        assert(entry_ok(s, best[i - 1]@, best[i]@[j], split[i]@[j], i, j));
        let t = split[i]@[j] as int;
        lemma_trace(s, best, split, i - 1, t);
        let d = trace(split, i - 1, t);
        assert(r == d.push(j as usize));
        assert(r.drop_last() =~= d);
        assert(r[i - 1] == t);
        assert(forall|g: int| 0 <= g < i - 1 ==> #[trigger] r[g] == d[g]);
        assert(forall|g: int| 0 <= g < i - 1 ==> #[trigger] d[g] < d[g + 1]);
    }
}

/// Reads back the partition for `i` groups over `[0, j)` from the split table.
fn trace_cuts(
    Ghost(s): Ghost<Seq<i32>>,
    best: &Vec<Vec<u128>>,
    split: &Vec<Vec<usize>>,
    i: usize,
    j: usize,
) -> (r: Vec<usize>)
    requires
        tables_ok(s, best@, split@),
        1 <= i < best@.len(),
        i <= j <= s.len(),
    ensures
        r@ == trace(split@, i as int, j as int),
    decreases i,
{
    if i <= 1 {
        let r: Vec<usize> = vec![0, j];
        assert(r@ =~= seq![0usize, j]);
        r
    } else {
        assert(split@[i as int]@.len() == s.len() + 1);
        let t: usize = split[i][j];
        assert(entry_ok(
            s,
            best@[i - 1]@,
            best@[i as int]@[j as int],
            split@[i as int]@[j as int],
            i as int,
            j as int,
        ));
        let mut r = trace_cuts(Ghost(s), best, split, i - 1, t);
        r.push(j);
        r
    }
}

/// Two filled tables for the same observations agree on every entry that
/// the read-back can reach.
proof fn lemma_tables_agree(
    s: Seq<i32>,
    b1: Seq<Vec<u128>>,
    p1: Seq<Vec<usize>>,
    b2: Seq<Vec<u128>>,
    p2: Seq<Vec<usize>>,
    i: int,
)
    requires
        tables_ok(s, b1, p1),
        tables_ok(s, b2, p2),
        1 <= i < b1.len(),
        i < b2.len(),
    ensures
        forall|j: int| i <= j <= s.len() ==> #[trigger] b1[i]@[j] == b2[i]@[j] && p1[i]@[j] == p2[i]@[j],
    decreases i,
{
    if i >= 2 {
        lemma_tables_agree(s, b1, p1, b2, p2, i - 1);
        assert forall|j: int| i <= j <= s.len() implies #[trigger] b1[i]@[j] == b2[i]@[j] && p1[i]@[j]
            == p2[i]@[j] by {
            assert(entry_ok(s, b1[i - 1]@, b1[i]@[j], p1[i]@[j], i, j));
            assert(entry_ok(s, b2[i - 1]@, b2[i]@[j], p2[i]@[j], i, j));
            let t1 = p1[i]@[j] as int;
            let t2 = p2[i]@[j] as int;
            assert(b1[i - 1]@[t1] == b2[i - 1]@[t1]);
            assert(b1[i - 1]@[t2] == b2[i - 1]@[t2]);
        }
    }
}

proof fn lemma_trace_agree(
    s: Seq<i32>,
    b1: Seq<Vec<u128>>,
    p1: Seq<Vec<usize>>,
    b2: Seq<Vec<u128>>,
    p2: Seq<Vec<usize>>,
    i: int,
    j: int,
)
    requires
        tables_ok(s, b1, p1),
        tables_ok(s, b2, p2),
        1 <= i < b1.len(),
        i < b2.len(),
        i <= j <= s.len(),
    ensures
        trace(p1, i, j) == trace(p2, i, j),
    decreases i,
{
    if i >= 2 {
        lemma_tables_agree(s, b1, p1, b2, p2, i);
        assert(b1[i]@[j] == b2[i]@[j]);
        assert(entry_ok(s, b1[i - 1]@, b1[i]@[j], p1[i]@[j], i, j));
        lemma_trace_agree(s, b1, p1, b2, p2, i - 1, p1[i]@[j] as int);
    }
}

/// The dynamic program's partition is determined by the observations and
/// the number of groups.
pub proof fn lemma_canonical_unique(s: Seq<i32>, c1: Seq<usize>, c2: Seq<usize>, k: int)
    requires
        is_canonical(s, c1, k),
        is_canonical(s, c2, k),
        1 <= k <= s.len(),
    ensures
        c1 == c2,
{
    let (b1, p1) = choose|best: Seq<Vec<u128>>, split: Seq<Vec<usize>>|
        #[trigger] tables_ok(s, best, split) && k < best.len() && c1 == trace(split, k, s.len() as int);
    let (b2, p2) = choose|best: Seq<Vec<u128>>, split: Seq<Vec<usize>>|
        #[trigger] tables_ok(s, best, split) && k < best.len() && c2 == trace(split, k, s.len() as int);
    lemma_trace_agree(s, b1, p1, b2, p2, k, s.len() as int);
}

/// Adding a group's cost to a table entry stays within the table's bound.
proof fn lemma_entry_bound(s: Seq<i32>, p: int, u: int, j: int)
    requires
        0 <= u <= j <= s.len(),
        0 <= p <= u * cost_cap(),
    ensures
        0 <= p + group_cost(s, u, j) <= j * cost_cap(),
{
    lemma_cost_bounds(s, u, j);
    let v = cost_cap();
    assert(u * v + (j - u) * v == j * v) by (nonlinear_arith);
}

proof fn lemma_table_cap(j: int)
    requires
        0 <= j <= u32::MAX,
    ensures
        j * cost_cap() <= u32::MAX * cost_cap(),
{
    assert(j * cost_cap() <= u32::MAX * cost_cap())
        by (nonlinear_arith)
        requires
            0 <= j <= u32::MAX,
            cost_cap() > 0,
    ;
}

/// Finds the least cost of `i` groups over the first `j` values, given the
/// row for `i - 1` groups; of equal costs the leftmost split wins.
fn fill_entry(
    Ghost(s): Ghost<Seq<i32>>,
    stats: &PrefixStats,
    prev: &Vec<u128>,
    i: usize,
    j: usize,
) -> (r: (u128, usize))
    requires
        stats.holds_for(s),
        s.len() <= u32::MAX,
        prev@.len() == s.len() + 1,
        forall|u: int| 0 <= u <= s.len() ==> #[trigger] prev@[u] <= u * cost_cap(),
        2 <= i <= j <= s.len(),
    ensures
        entry_ok(s, prev@, r.0, r.1, i as int, j as int),
        r.0 <= j * cost_cap(),
{
    proof {
        lemma_entry_bound(s, prev@[i - 1] as int, i - 1, j as int);
        lemma_table_cap(j as int);
    }
    let mut best_cost: u128 = prev[i - 1] + stats.cost(i - 1, j);
    let mut best_split: usize = i - 1;
    let mut u: usize = i;
    while u < j
        invariant
            stats.holds_for(s),
            s.len() <= u32::MAX,
            prev@.len() == s.len() + 1,
            forall|u: int| 0 <= u <= s.len() ==> #[trigger] prev@[u] <= u * cost_cap(),
            2 <= i <= u <= j <= s.len(),
            i - 1 <= best_split < u,
            best_cost == prev@[best_split as int] + group_cost(s, best_split as int, j as int),
            best_cost <= j * cost_cap(),
            forall|w: int| i - 1 <= w < u ==> best_cost <= prev@[w] + group_cost(s, w, j as int),
            forall|w: int| i - 1 <= w < best_split ==> best_cost < prev@[w] + group_cost(s, w, j as int),
        decreases j - u,
    {
        proof {
            lemma_entry_bound(s, prev@[u as int] as int, u as int, j as int);
            lemma_table_cap(j as int);
        }
        let c: u128 = prev[u] + stats.cost(u, j);
        if c < best_cost {
            best_cost = c;
            best_split = u;
        }
        u = u + 1;
    }
    (best_cost, best_split)
}

/// Fills the table rows for `i` groups from the row for `i - 1` groups.
fn fill_row(
    Ghost(s): Ghost<Seq<i32>>,
    stats: &PrefixStats,
    prev: &Vec<u128>,
    i: usize,
) -> (r: (Vec<u128>, Vec<usize>))
    requires
        stats.holds_for(s),
        s.len() <= u32::MAX,
        prev@.len() == s.len() + 1,
        forall|u: int| 0 <= u <= s.len() ==> #[trigger] prev@[u] <= u * cost_cap(),
        2 <= i <= s.len(),
        s.len() < u32::MAX,
    ensures
        r.0@.len() == s.len() + 1,
        r.1@.len() == s.len() + 1,
        forall|j: int| 0 <= j <= s.len() ==> #[trigger] r.0@[j] <= j * cost_cap(),
        forall|j: int| i <= j <= s.len() ==> entry_ok(s, prev@, #[trigger] r.0@[j], r.1@[j], i as int, j),
{
    let n: usize = s_len(Ghost(s), stats);
    let mut row: Vec<u128> = Vec::new();
    let mut srow: Vec<usize> = Vec::new();
    let mut j: usize = 0;
    while j <= n
        invariant
            n == s.len(),
            stats.holds_for(s),
            s.len() < u32::MAX,
            prev@.len() == s.len() + 1,
            forall|u: int| 0 <= u <= s.len() ==> #[trigger] prev@[u] <= u * cost_cap(),
            2 <= i <= n,
            j <= n + 1,
            row@.len() == j,
            srow@.len() == j,
            forall|jj: int| 0 <= jj < j ==> #[trigger] row@[jj] <= jj * cost_cap(),
            forall|jj: int| i <= jj < j ==> entry_ok(s, prev@, #[trigger] row@[jj], srow@[jj], i as int, jj),
        decreases n + 1 - j,
    {
        if j < i {
            row.push(0);
            srow.push(0);
        } else {
            let (c, t) = fill_entry(Ghost(s), stats, prev, i, j);
            row.push(c);
            srow.push(t);
        }
        j = j + 1;
    }
    (row, srow)
}

/// The number of observations whose statistics `stats` holds.
fn s_len(Ghost(s): Ghost<Seq<i32>>, stats: &PrefixStats) -> (r: usize)
    requires
        stats.holds_for(s),
    ensures
        r == s.len(),
{
    stats.sums.len() - 1
}

/// Returns the boundaries of a partition of `s` into `k` contiguous groups
/// with the least total cost.
pub fn optimal_cuts(s: &Vec<i32>, k: usize) -> (r: Vec<usize>)
    requires
        1 <= k <= s@.len() < u32::MAX,
    ensures
        is_optimal(s@, r@, k as int),
        is_canonical(s@, r@, k as int),
{
    let n: usize = s.len();
    let stats = PrefixStats::new(s);
    let mut best: Vec<Vec<u128>> = Vec::new();
    let mut split: Vec<Vec<usize>> = Vec::new();
    best.push(Vec::new());
    split.push(Vec::new());
    let mut row: Vec<u128> = Vec::new();
    let mut srow: Vec<usize> = Vec::new();
    let mut j: usize = 0;
    while j <= n
        invariant
            n == s@.len(),
            n < u32::MAX,
            stats.holds_for(s@),
            j <= n + 1,
            row@.len() == j,
            srow@.len() == j,
            forall|jj: int| 0 <= jj < j ==> #[trigger] row@[jj] <= jj * cost_cap(),
            forall|jj: int| 1 <= jj < j ==> #[trigger] row@[jj] == group_cost(s@, 0, jj),
            forall|jj: int| 0 <= jj < j ==> #[trigger] srow@[jj] == 0,
        decreases n + 1 - j,
    {
        proof {
            lemma_cost_bounds(s@, 0, j as int);
        }
        let c: u128 = stats.cost(0, j);
        row.push(c);
        srow.push(0);
        j = j + 1;
    }
    best.push(row);
    split.push(srow);
    let mut i: usize = 2;
    while i <= k
        invariant
            n == s@.len(),
            n < u32::MAX,
            1 <= k <= n,
            stats.holds_for(s@),
            2 <= i <= k + 1,
            best@.len() == i,
            tables_ok(s@, best@, split@),
        decreases k + 1 - i,
    {
        assert(best@[i - 1]@.len() == n + 1);
        let (r, sr) = fill_row(Ghost(s@), &stats, &best[i - 1], i);
        let ghost old_best = best@;
        let ghost old_split = split@;
        best.push(r);
        split.push(sr);
        proof {
            assert(best@.drop_last() == old_best);
            assert(forall|ii: int| 0 <= ii < old_best.len() ==> #[trigger] best@[ii] == old_best[ii]);
            assert(forall|ii: int| 0 <= ii < old_split.len() ==> #[trigger] split@[ii] == old_split[ii]);
        }
        i = i + 1;
    }
    let cuts = trace_cuts(Ghost(s@), &best, &split, k, n);
    proof {
        lemma_trace(s@, best@, split@, k as int, n as int);
        assert forall|c: Seq<usize>| #[trigger] is_partition(c, k as int, n as int) implies total_cost(
            s@,
            cuts@,
        ) <= total_cost(s@, c) by {
            lemma_table_lower(s@, best@, split@, c, k as int, n as int);
        }
        assert(tables_ok(s@, best@, split@));
    }
    cuts
}

} // verus!
