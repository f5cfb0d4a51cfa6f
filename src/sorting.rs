use vstd::prelude::*;

verus! {

broadcast use vstd::seq_lib::group_to_multiset_ensures;

/// `s` is non-decreasing.
pub open spec fn is_sorted(s: Seq<i32>) -> bool {
    forall|a: int, b: int| 0 <= a <= b < s.len() ==> s[a] <= s[b]
}

/// Two non-decreasing sequences with the same elements are equal.
pub proof fn lemma_sorted_unique(a: Seq<i32>, b: Seq<i32>)
    requires
        is_sorted(a),
        is_sorted(b),
        a.to_multiset() == b.to_multiset(),
    ensures
        a == b,
    decreases a.len(),
{
    vstd::seq_lib::to_multiset_len(a);
    vstd::seq_lib::to_multiset_len(b);
    if a.len() == 0 {
        assert(a =~= b);
    } else {
        let la = a.last();
        let lb = b.last();
        vstd::seq_lib::to_multiset_contains(a, lb);
        vstd::seq_lib::to_multiset_contains(b, la);
        assert(a.contains(lb));
        assert(b.contains(la));
        let ia = choose|x: int| 0 <= x < a.len() && a[x] == lb;
        let ib = choose|x: int| 0 <= x < b.len() && b[x] == la;
        assert(a[ia] <= a[a.len() - 1]);
        assert(b[ib] <= b[b.len() - 1]);
        assert(la == lb);
        let da = a.drop_last();
        let db = b.drop_last();
        assert(a =~= da.push(la));
        assert(b =~= db.push(lb));
        vstd::seq_lib::to_multiset_build(da, la);
        vstd::seq_lib::to_multiset_build(db, lb);
        assert(da.to_multiset() =~= a.to_multiset().remove(la));
        assert(db.to_multiset() =~= b.to_multiset().remove(lb));
        lemma_sorted_unique(da, db);
    }
}

/// Returns a copy of `data` in non-decreasing order, leaving `data` untouched.
pub fn sorted_copy(data: &Vec<i32>) -> (r: Vec<i32>)
    ensures
        is_sorted(r@),
        r@.to_multiset() == data@.to_multiset(),
        r@.len() == data@.len(),
{
    let mut v: Vec<i32> = data.clone();
    assert(v@ == data@);
    let n: usize = v.len();
    let mut i: usize = 0;
    while i < n
        invariant
            n == v@.len(),
            n == data@.len(),
            0 <= i <= n,
            v@.to_multiset() == data@.to_multiset(),
            forall|a: int, b: int| 0 <= a <= b < i ==> v@[a] <= v@[b],
        decreases n - i,
    {
        let mut j: usize = i;
        while j > 0 && v[j - 1] > v[j]
            invariant
                n == v@.len(),
                0 <= j <= i < n,
                v@.to_multiset() == data@.to_multiset(),
                forall|a: int, b: int| 0 <= a <= b <= i && a != j && b != j ==> v@[a] <= v@[b],
                forall|a: int, b: int| j <= a <= b <= i ==> v@[a] <= v@[b],
                0 < j < i ==> v@[j - 1] <= v@[j + 1],
            decreases j,
        {
            let x: i32 = v[j - 1];
            let y: i32 = v[j];
            let ghost before = v@;
            v.set(j - 1, y);
            proof {
                vstd::seq_lib::to_multiset_update(before, (j - 1) as int, y);
            }
            let ghost mid = v@;
            v.set(j, x);
            proof {
                vstd::seq_lib::to_multiset_update(mid, j as int, x);
                assert(v@.to_multiset() =~= before.to_multiset());
            }
            j = j - 1;
        }
        i = i + 1;
    }
    v
}

} // verus!
