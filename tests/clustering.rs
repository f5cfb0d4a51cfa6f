use ckmeans::breaks::{breaks, raw_breaks, round_break};
use ckmeans::cluster::{check_finite, check_input, check_request, cluster, ClusterError};
use ckmeans::prefix::PrefixStats;
use ckmeans::solver::optimal_cuts;
use ckmeans::sorting::sorted_copy;

fn withinss(group: &[i32]) -> f64 {
    let m = group.len() as f64;
    let mean = group.iter().map(|&x| x as f64).sum::<f64>() / m;
    group.iter().map(|&x| (x as f64 - mean) * (x as f64 - mean)).sum()
}

fn total(groups: &[Vec<i32>]) -> f64 {
    groups.iter().map(|g| withinss(g)).sum()
}

fn best_by_search(s: &[i32], k: usize) -> f64 {
    if k == 1 {
        return withinss(s);
    }
    let mut best = f64::INFINITY;
    for cut in (k - 1)..s.len() {
        let head = best_by_search(&s[..cut], k - 1);
        let c = head + withinss(&s[cut..]);
        if c < best {
            best = c;
        }
    }
    best
}

#[test]
fn two_separated_clusters() {
    let data = vec![1, 2, 3, 10, 11, 12];
    let groups = cluster(&data, 2).unwrap();
    assert_eq!(groups, vec![vec![1, 2, 3], vec![10, 11, 12]]);
    assert_eq!(raw_breaks(&data, 2).unwrap(), vec![13]);
    assert_eq!(breaks(&data, 2).unwrap(), vec![12]);
}

#[test]
fn all_equal_values() {
    let data = vec![1, 1, 1, 1];
    let groups = cluster(&data, 2).unwrap();
    assert_eq!(groups.len(), 2);
    assert_eq!(total(&groups), 0.0);
    assert_eq!(groups.iter().map(|g| g.len()).sum::<usize>(), 4);
    assert_eq!(raw_breaks(&data, 2).unwrap(), vec![2]);
    assert_eq!(breaks(&data, 2).unwrap(), vec![2]);
}

#[test]
fn empty_data_is_refused() {
    let data: Vec<i32> = vec![];
    assert_eq!(cluster(&data, 0), Err(ClusterError::EmptyData));
    assert_eq!(cluster(&data, 3), Err(ClusterError::EmptyData));
    assert_eq!(breaks(&data, 1), Err(ClusterError::EmptyData));
}

#[test]
fn zero_clusters_is_refused() {
    assert_eq!(cluster(&vec![4, 5], 0), Err(ClusterError::ZeroClusters));
    assert_eq!(raw_breaks(&vec![4, 5], 0), Err(ClusterError::ZeroClusters));
}

#[test]
fn more_clusters_than_values_is_refused() {
    assert_eq!(
        cluster(&vec![4, 5, 6], 4),
        Err(ClusterError::MoreClustersThanValues { k: 4, len: 3 })
    );
}

#[test]
fn cluster_count_above_limit_is_refused() {
    let data: Vec<i32> = (0..300).collect();
    assert_eq!(
        cluster(&data, 256),
        Err(ClusterError::ClusterCountTooLarge { k: 256 })
    );
    assert_eq!(cluster(&data, 255).unwrap().len(), 255);
}

#[test]
fn non_finite_value_is_reported_by_index() {
    let flags = vec![true, true, true, false, true, false];
    assert_eq!(
        check_finite(&flags),
        Err(ClusterError::NonFiniteValue { index: 3 })
    );
    assert_eq!(check_finite(&vec![true, true]), Ok(()));
    assert_eq!(check_request(6, 2), Ok(()));
}

#[test]
fn one_cluster_is_sorted_data() {
    let data = vec![5, -3, 9, 0, 5, 2];
    assert_eq!(cluster(&data, 1).unwrap(), vec![vec![-3, 0, 2, 5, 5, 9]]);
    assert_eq!(breaks(&data, 1).unwrap(), Vec::<i64>::new());
}

#[test]
fn as_many_clusters_as_values() {
    let data = vec![7, 3, 3, -1, 12];
    let groups = cluster(&data, 5).unwrap();
    assert_eq!(groups, vec![vec![-1], vec![3], vec![3], vec![7], vec![12]]);
}

#[test]
fn partition_is_optimal_against_search() {
    let cases: Vec<Vec<i32>> = vec![
        vec![1, 9, 2, 8, 3, 7, 4, 6, 5, 100],
        vec![0, 0, 1, 50, 51, 52, -20, -21, 3],
        vec![10, 10, 10, 11, 40, 41, 90, 92],
        vec![-5, 3, 3, 3, 17, 18, 200, 201, 202, 203],
        vec![0, 1, 2, 4],
        vec![0, 1, 3, 4, 6, 9, 10, 13],
    ];
    for data in cases {
        let mut s = data.clone();
        s.sort();
        for k in 1..=4usize {
            let groups = cluster(&data, k).unwrap();
            assert_eq!(groups.len(), k);
            assert!(groups.iter().all(|g| !g.is_empty()));
            let flat: Vec<i32> = groups.iter().flatten().copied().collect();
            assert_eq!(flat, s);
            for w in groups.windows(2) {
                assert!(w[0].last().unwrap() <= w[1].first().unwrap());
            }
            let best = best_by_search(&s, k);
            assert!(total(&groups) <= best + 1e-6);
        }
    }
}

#[test]
fn breaks_ascend_and_separate_classes() {
    let data = vec![1, 2, 4, 30, 33, 35, 120, 125, 990, 1010];
    let k = 4;
    let groups = cluster(&data, k).unwrap();
    let b = breaks(&data, k).unwrap();
    let raw = raw_breaks(&data, k).unwrap();
    assert_eq!(b.len(), k - 1);
    assert_eq!(raw.len(), k - 1);
    for i in 0..k - 1 {
        let lo = 2 * *groups[i].last().unwrap() as i64;
        let hi = 2 * *groups[i + 1].first().unwrap() as i64;
        assert!(lo < b[i] && b[i] < hi);
        assert!(lo <= raw[i] && raw[i] <= hi);
    }
    for i in 1..b.len() {
        assert!(b[i - 1] < b[i]);
    }
}

#[test]
fn repeated_calls_agree() {
    let data = vec![3, 8, 1, 1, 9, 14, 2, 7, 7, 30];
    assert_eq!(cluster(&data, 3), cluster(&data, 3));
    assert_eq!(breaks(&data, 3), breaks(&data, 3));
}

#[test]
fn round_break_examples() {
    assert_eq!(round_break(3, 10), 12);
    assert_eq!(round_break(95, 120), 200);
    assert_eq!(round_break(103, 109), 212);
    assert_eq!(round_break(-7, 3), 0);
    assert_eq!(round_break(4, 5), 9);
    assert_eq!(round_break(2, 2), 4);
    assert_eq!(round_break(-2147483648, 2147483647), 0);
    assert_eq!(round_break(1999, 2011), 4000);
}

#[test]
fn round_break_not_finer_than_midpoint() {
    // midpoint 100, a multiple of 100: the round break is a multiple of 100
    let r = round_break(1, 199);
    assert_eq!(r % 2, 0);
    assert_eq!((r / 2) % 100, 0);
    assert!(2 < r && r < 398);
    // midpoint 6.5: a whole number lies inside, so the break is whole
    let r = round_break(3, 10);
    assert_eq!(r % 2, 0);
    // adjacent integers: only the midpoint separates them
    assert_eq!(round_break(-4, -3), -7);
}

#[test]
fn raw_breaks_are_midpoints_in_half_units() {
    let data = vec![0, 1, 40, 41, 100, 107];
    assert_eq!(cluster(&data, 3).unwrap(), vec![vec![0, 1], vec![40, 41], vec![100, 107]]);
    assert_eq!(raw_breaks(&data, 3).unwrap(), vec![41, 141]);
    assert_eq!(breaks(&data, 3).unwrap(), vec![40, 140]);
}

#[test]
fn negative_values_cluster() {
    let data = vec![-100, -98, -99, 5, 6, 7, 1000];
    let groups = cluster(&data, 3).unwrap();
    assert_eq!(groups, vec![vec![-100, -99, -98], vec![5, 6, 7], vec![1000]]);
    assert_eq!(breaks(&data, 3).unwrap(), vec![0, 1000]);
}

#[test]
fn range_cost_in_fixed_point() {
    let unit: u128 = 1 << 32;
    let stats = PrefixStats::new(&vec![1, 2, 3, 10, 11, 12]);
    assert_eq!(stats.sums, vec![0, 1, 3, 6, 16, 27, 39]);
    assert_eq!(stats.squares, vec![0, 1, 5, 14, 114, 235, 379]);
    assert_eq!(stats.cost(0, 3), 2 * unit);
    assert_eq!(stats.cost(2, 2), 0);
    // [1, 2]: withinss 0.5
    assert_eq!(stats.cost(0, 2), unit / 2);
    // [3, 10, 11, 12]: withinss 50
    assert_eq!(stats.cost(2, 6), 50 * unit);
    // [1 .. 12]: withinss 753 / 6 = 125.5
    assert_eq!(stats.cost(0, 6), 125 * unit + unit / 2);
    // [1, 2, 3, 10]: (4 * 114 - 16^2) / 4 = 50
    assert_eq!(stats.cost(0, 4), 50 * unit);
}

#[test]
fn range_cost_rounds_down_below_unit() {
    // [0, 1, 3]: withinss 14 / 3 = 4.666..., in units of 2^-32 rounded down
    let stats = PrefixStats::new(&vec![0, 1, 3]);
    assert_eq!(stats.cost(0, 3), (14u128 << 32) / 3);
}

#[test]
fn fractional_costs_decide_the_partition() {
    // [[0, 1], [2, 4]] costs 0.5 + 2 = 2.5; [[0, 1, 2], [4]] costs 2
    let data = vec![0, 1, 2, 4];
    assert_eq!(cluster(&data, 2).unwrap(), vec![vec![0, 1, 2], vec![4]]);
    assert_eq!(optimal_cuts(&data, 2), vec![0, 3, 4]);
}

#[test]
fn input_checks_follow_request_order() {
    let mut flags = vec![true; 300];
    flags[7] = false;
    assert_eq!(check_input(&flags, 256), Err(ClusterError::NonFiniteValue { index: 7 }));
    assert_eq!(check_input(&flags, 301), Err(ClusterError::MoreClustersThanValues { k: 301, len: 300 }));
    assert_eq!(check_input(&flags, 0), Err(ClusterError::ZeroClusters));
    assert_eq!(check_input(&vec![], 2), Err(ClusterError::EmptyData));
    flags[7] = true;
    assert_eq!(check_input(&flags, 256), Err(ClusterError::ClusterCountTooLarge { k: 256 }));
    assert_eq!(check_input(&flags, 255), Ok(()));
}

#[test]
fn sorted_copy_keeps_input() {
    let data = vec![3, -1, 3, 0];
    assert_eq!(sorted_copy(&data), vec![-1, 0, 3, 3]);
    assert_eq!(data, vec![3, -1, 3, 0]);
}

#[test]
fn optimal_cuts_marks_group_bounds() {
    assert_eq!(optimal_cuts(&vec![1, 2, 3, 10, 11, 12], 2), vec![0, 3, 6]);
    assert_eq!(optimal_cuts(&vec![1, 1, 1, 1], 2), vec![0, 1, 4]);
}
