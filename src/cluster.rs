use vstd::prelude::*;
use crate::solver::{is_canonical, is_optimal, is_partition, lemma_partition_ceiling, optimal_cuts};
use crate::sorting::{is_sorted, sorted_copy};

verus! {

/// Largest number of groups a request may ask for.
pub const MAX_CLUSTERS: usize = 255;

/// Largest number of observations a request may hold.
pub const MAX_VALUES: usize = 0xffff_fffe;

/// Why a request was refused.
#[derive(Debug, Clone, Copy, PartialEq, Eq, Structural)]
pub enum ClusterError {
    /// There are no observations.
    EmptyData,
    /// The observation at `index` is not a finite number.
    NonFiniteValue { index: usize },
    /// More observations than the engine can hold.
    TooManyValues { len: usize },
    /// Zero groups were asked for.
    ZeroClusters,
    /// More groups than observations were asked for.
    MoreClustersThanValues { k: usize, len: usize },
    /// More groups than the group-count type holds.
    ClusterCountTooLarge { k: usize },
}

/// The error, if any, for a request of `k` groups over `len` observations.
pub open spec fn request_error(len: nat, k: nat) -> Option<ClusterError> {
    if len == 0 {
        Some(ClusterError::EmptyData)
    } else if k == 0 {
        Some(ClusterError::ZeroClusters)
    } else if k > len {
        Some(ClusterError::MoreClustersThanValues { k: k as usize, len: len as usize })
    } else if k > MAX_CLUSTERS {
        Some(ClusterError::ClusterCountTooLarge { k: k as usize })
    } else if len > MAX_VALUES {
        Some(ClusterError::TooManyValues { len: len as usize })
    } else {
        None
    }
}

/// The groups `groups` are the pieces of `s` between consecutive `cuts`.
pub open spec fn splits_into(s: Seq<i32>, cuts: Seq<usize>, groups: Seq<Seq<i32>>) -> bool {
    &&& groups.len() + 1 == cuts.len()
    &&& forall|g: int|
        0 <= g < groups.len() ==> #[trigger] groups[g] == s.subrange(
            cuts[g] as int,
            cuts[g + 1] as int,
        )
}

/// `groups` is a least-cost partition of `data`, sorted, into `k`
/// contiguous groups; among partitions of equal cost, the one that the
/// dynamic program picks.
pub open spec fn is_clustering(data: Seq<i32>, k: int, groups: Seq<Seq<i32>>) -> bool {
    exists|s: Seq<i32>, cuts: Seq<usize>|
        #![trigger is_optimal(s, cuts, k), splits_into(s, cuts, groups)]
        is_sorted(s) && s.to_multiset() == data.to_multiset() && is_optimal(s, cuts, k)
            && is_canonical(s, cuts, k) && splits_into(s, cuts, groups)
}

/// The values of a list of groups.
pub open spec fn groups_view(groups: Seq<Vec<i32>>) -> Seq<Seq<i32>> {
    groups.map_values(|g: Vec<i32>| g@)
}

/// Checks a request of `k` groups over `len` observations.
pub fn check_request(len: usize, k: usize) -> (r: Result<(), ClusterError>)
    ensures
        r is Ok <==> request_error(len as nat, k as nat) is None,
        r is Err ==> Some(r->Err_0) == request_error(len as nat, k as nat),
{
    if len == 0 {
        Err(ClusterError::EmptyData)
    } else if k == 0 {
        Err(ClusterError::ZeroClusters)
    } else if k > len {
        Err(ClusterError::MoreClustersThanValues { k, len })
    } else if k > MAX_CLUSTERS {
        Err(ClusterError::ClusterCountTooLarge { k })
    } else if len > MAX_VALUES {
        Err(ClusterError::TooManyValues { len })
    } else {
        Ok(())
    }
}

/// Checks that every observation is finite, given one flag per
/// observation; reports the first one that is not.
pub fn check_finite(finite: &Vec<bool>) -> (r: Result<(), ClusterError>)
    ensures
        r is Ok <==> forall|i: int| 0 <= i < finite@.len() ==> #[trigger] finite@[i],
        r matches Err(ClusterError::NonFiniteValue { index }) ==> {
            &&& index < finite@.len()
            &&& !finite@[index as int]
            &&& forall|i: int| 0 <= i < index ==> #[trigger] finite@[i]
        },
        r is Err ==> r->Err_0 is NonFiniteValue,
{
    let mut i: usize = 0;
    while i < finite.len()
        invariant
            0 <= i <= finite@.len(),
            forall|j: int| 0 <= j < i ==> #[trigger] finite@[j],
        decreases finite@.len() - i,
    {
        if !finite[i] {
            return Err(ClusterError::NonFiniteValue { index: i });
        }
        i = i + 1;
    }
    Ok(())
}

/// Checks a request of `k` groups over observations given by one
/// finiteness flag each, in this order: no observations, zero groups, more
/// groups than observations, the first non-finite observation, then the
/// limits on the group count and on the number of observations.
pub fn check_input(finite: &Vec<bool>, k: usize) -> (r: Result<(), ClusterError>)
    ensures
        finite@.len() == 0 || k == 0 || k > finite@.len() ==> r is Err && Some(r->Err_0)
            == request_error(finite@.len(), k as nat),
        !(finite@.len() == 0 || k == 0 || k > finite@.len()) ==> {
            if exists|i: int| 0 <= i < finite@.len() && !finite@[i] {
                r matches Err(ClusterError::NonFiniteValue { index }) && index < finite@.len()
                    && !finite@[index as int] && forall|i: int|
                    0 <= i < index ==> #[trigger] finite@[i]
            } else {
                &&& r is Ok <==> request_error(finite@.len(), k as nat) is None
                &&& r is Err ==> Some(r->Err_0) == request_error(finite@.len(), k as nat)
            }
        },
{
    let len: usize = finite.len();
    if len == 0 || k == 0 || k > len {
        return check_request(len, k);
    }
    match check_finite(finite) {
        Err(e) => {
            return Err(e);
        },
        Ok(()) => {},
    }
    check_request(len, k)
}

/// Copies `s[a..b)`.
fn copy_range(s: &Vec<i32>, a: usize, b: usize) -> (r: Vec<i32>)
    requires
        a <= b <= s@.len(),
    ensures
        r@ == s@.subrange(a as int, b as int),
{
    let mut r: Vec<i32> = Vec::new();
    let mut t: usize = a;
    while t < b
        invariant
            a <= t <= b <= s@.len(),
            r@ == s@.subrange(a as int, t as int),
        decreases b - t,
    {
        r.push(s[t]);
        t = t + 1;
        assert(r@ =~= s@.subrange(a as int, t as int));
    }
    r
}

/// The sorted observations and the boundaries of a least-cost partition of
/// them into `k` groups.
pub fn sorted_partition(data: &Vec<i32>, k: usize) -> (r: (Vec<i32>, Vec<usize>))
    requires
        request_error(data@.len(), k as nat) is None,
    ensures
        is_sorted(r.0@),
        r.0@.to_multiset() == data@.to_multiset(),
        is_optimal(r.0@, r.1@, k as int),
        is_canonical(r.0@, r.1@, k as int),
{
    let s = sorted_copy(data);
    let cuts = optimal_cuts(&s, k);
    (s, cuts)
}

/// Partitions `data` into `k` groups, each sorted ascending, in ascending
/// order, with the least total within-group sum of squares.
pub fn cluster(data: &Vec<i32>, k: usize) -> (r: Result<Vec<Vec<i32>>, ClusterError>)
    ensures
        r is Ok <==> request_error(data@.len(), k as nat) is None,
        r is Err ==> Some(r->Err_0) == request_error(data@.len(), k as nat),
        r is Ok ==> is_clustering(data@, k as int, groups_view(r->Ok_0@)),
{
    match check_request(data.len(), k) {
        Err(e) => {
            return Err(e);
        },
        Ok(()) => {},
    }
    let (s, cuts) = sorted_partition(data, k);
    let mut groups: Vec<Vec<i32>> = Vec::new();
    let mut g: usize = 0;
    while g < k
        invariant
            is_optimal(s@, cuts@, k as int),
            is_canonical(s@, cuts@, k as int),
            is_partition(cuts@, k as int, s@.len() as int),
            0 <= g <= k,
            groups@.len() == g,
            forall|h: int|
                0 <= h < g ==> #[trigger] groups@[h]@ == s@.subrange(
                    cuts@[h] as int,
                    cuts@[h + 1] as int,
                ),
        decreases k - g,
    {
        assert(cuts@[g as int] < cuts@[g + 1]);
        assert(cuts@[g + 1] <= s@.len()) by {
            lemma_partition_ceiling(cuts@, k as int, s@.len() as int, g + 1);
        }
        let piece = copy_range(&s, cuts[g], cuts[g + 1]);
        let ghost before = groups@;
        groups.push(piece);
        assert(forall|h: int| 0 <= h < g ==> #[trigger] groups@[h] == before[h]);
        g = g + 1;
    }
    proof {
        let gv = groups_view(groups@);
        assert(splits_into(s@, cuts@, gv));
    }
    Ok(groups)
}

} // verus!
