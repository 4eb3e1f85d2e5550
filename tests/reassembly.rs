use shred_sort::affinity::{
    delta, measure_pair, pixel_difference, retained_differences, uniform_shape, unordered_pairs,
    Delta, ScoreConfig,
};
use shred_sort::assembler::{assemble, sort};
use shred_sort::cluster::{cluster, cluster_with, Membership};
use shred_sort::strip::Strip;

const RED: [u8; 3] = [255, 0, 0];
const GREEN: [u8; 3] = [0, 255, 0];
const BLUE: [u8; 3] = [0, 0, 255];

fn column(pixels: Vec<[u8; 3]>) -> Strip {
    let h = pixels.len();
    Strip::new(1, h, pixels).unwrap()
}

fn retained(d: &Delta) -> Option<Vec<u32>> {
    match d {
        Delta::Implausible => None,
        Delta::Retained(v) => Some(v.clone()),
    }
}

#[test]
fn nested_palettes_share_a_cluster() {
    let big = column(vec![RED, GREEN, GREEN]);
    let small = column(vec![RED, RED, RED]);
    assert_eq!(cluster(&[big, small]), vec![vec![0, 1]]);
}

#[test]
fn equal_palettes_share_a_cluster() {
    let a = column(vec![RED, GREEN]);
    let b = column(vec![GREEN, RED]);
    let r = cluster(&[a, b]);
    assert_eq!(r.len(), 1);
    let mut members = r[0].clone();
    members.sort();
    assert_eq!(members, vec![0, 1]);
}

#[test]
fn disjoint_palettes_found_separate_clusters() {
    let a = column(vec![RED, RED]);
    let b = column(vec![BLUE, GREEN]);
    assert_eq!(cluster(&[a, b]), vec![vec![1], vec![0]]);
}

#[test]
fn strip_can_join_several_clusters() {
    let a = column(vec![RED, GREEN]);
    let b = column(vec![RED, BLUE]);
    let c = column(vec![RED, RED]);
    let r = cluster(&[a, b, c]);
    assert_eq!(r.len(), 2);
    assert!(r.iter().all(|m| m.contains(&2)));
    assert!(r.iter().any(|m| m == &vec![0, 2] || m == &vec![1, 2]));
}

#[test]
fn empty_input_has_no_clusters() {
    assert_eq!(cluster(&[]), Vec::<Vec<usize>>::new());
}

#[test]
fn pixel_difference_sums_squared_channels() {
    assert_eq!(pixel_difference([0, 0, 0], [3, 4, 0]), 25);
    assert_eq!(pixel_difference([10, 20, 30], [7, 24, 30]), 25);
    assert_eq!(pixel_difference([0, 0, 0], [255, 255, 255]), 195075);
}

#[test]
fn self_delta_is_zero_everywhere() {
    let a = column(vec![RED, GREEN, BLUE, [1, 2, 3]]);
    let cfg = ScoreConfig { limit: 195075, min_confidence_per_mille: 0 };
    assert_eq!(retained(&delta(&a, &a, &cfg)), Some(vec![0, 0, 0, 0]));
}

#[test]
fn delta_is_symmetric() {
    let a = column(vec![[0, 0, 0], [10, 10, 10], [200, 0, 0]]);
    let b = column(vec![[1, 2, 2], [10, 13, 14], [0, 0, 0]]);
    let cfg = ScoreConfig { limit: 1000, min_confidence_per_mille: 0 };
    let ab = retained(&delta(&a, &b, &cfg));
    let ba = retained(&delta(&b, &a, &cfg));
    assert_eq!(ab, Some(vec![9, 25]));
    assert_eq!(ab, ba);
}

#[test]
fn all_positions_over_limit_are_implausible() {
    let a = column(vec![[0, 0, 0], [0, 0, 0]]);
    let b = column(vec![[255, 255, 255], [100, 100, 100]]);
    let cfg = ScoreConfig { limit: 100, min_confidence_per_mille: 0 };
    assert_eq!(retained(&delta(&a, &b, &cfg)), None);
    let strict = ScoreConfig { limit: 100, min_confidence_per_mille: 1000 };
    assert_eq!(retained(&delta(&a, &b, &strict)), None);
}

#[test]
fn low_confidence_is_implausible() {
    // Height 100: five matching positions, then 95 far apart.
    let mut pa = Vec::new();
    let mut pb = Vec::new();
    for k in 0..100 {
        pa.push([0, 0, 0]);
        pb.push(if k < 5 { [0, 0, 0] } else { [255, 255, 255] });
    }
    let a = column(pa);
    let b = column(pb);
    let cfg = ScoreConfig { limit: 195075, min_confidence_per_mille: 100 };
    assert_eq!(retained(&delta(&a, &b, &cfg)), None);
    let lax = ScoreConfig { limit: 195075, min_confidence_per_mille: 50 };
    assert_eq!(retained(&delta(&a, &b, &lax)), Some(vec![0; 5]));
}

#[test]
fn retained_differences_drop_values_at_limit() {
    let a = vec![[0, 0, 0], [0, 0, 0], [0, 0, 0]];
    let b = vec![[2, 0, 0], [3, 0, 0], [1, 0, 0]];
    assert_eq!(retained_differences(&a, &b, 9), vec![4, 1]);
}

#[test]
fn shapes_are_checked() {
    let a = column(vec![RED, GREEN]);
    let b = column(vec![RED]);
    assert!(!uniform_shape(&[a, b]));
    let c = column(vec![RED, GREEN]);
    let d = column(vec![BLUE, GREEN]);
    assert!(uniform_shape(&[c, d]));
    assert!(Strip::new(2, 2, vec![RED; 3]).is_none());
    assert!(Strip::new(2, 2, vec![RED; 4]).is_some());
}

#[test]
fn measure_pair_compares_by_index() {
    let strips = vec![column(vec![RED]), column(vec![[250, 0, 0]])];
    let cfg = ScoreConfig { limit: 1000, min_confidence_per_mille: 0 };
    assert_eq!(retained(&measure_pair(&strips, (0, 1), &cfg)), Some(vec![25]));
}

#[test]
fn unordered_pairs_cover_each_pair_once() {
    assert_eq!(unordered_pairs(&[5, 7, 9]), vec![(5, 7), (5, 9), (7, 9)]);
    assert_eq!(unordered_pairs(&[4]), vec![]);
    assert_eq!(unordered_pairs(&[0, 1, 2, 3]).len(), 6);
}

#[test]
fn chain_of_four_skips_cycle_edge() {
    let chain = sort(&[0, 1, 2, 3], &[(0, 1), (1, 2), (2, 3), (0, 3)]);
    assert!(chain == vec![0, 1, 2, 3] || chain == vec![3, 2, 1, 0]);
}

#[test]
fn interior_strip_is_not_merged() {
    let (chunks, last) = assemble(&[0, 1, 2, 3, 4], &[(0, 1), (1, 2), (3, 4), (1, 3)]);
    assert_eq!(chunks, vec![vec![0, 1, 2], vec![], vec![], vec![3, 4], vec![]]);
    assert_eq!(last, 3);
}

#[test]
fn merge_turns_chunks_at_their_endpoints() {
    // [1, 0] then joining head 1 to head 2 of [2, 3] gives [0, 1, 2, 3].
    let chain = sort(&[0, 1, 2, 3], &[(1, 0), (2, 3), (1, 2)]);
    assert_eq!(chain, vec![0, 1, 2, 3]);
}

#[test]
fn strips_never_merged_are_left_out() {
    let chain = sort(&[0, 1, 2], &[(0, 1)]);
    assert_eq!(chain, vec![0, 1]);
    assert_eq!(sort(&[7], &[]), vec![7]);
    assert_eq!(sort(&[], &[]), Vec::<usize>::new());
}

#[test]
fn first_match_rule_records_strip_once() {
    let a = column(vec![RED, GREEN]);
    let b = column(vec![RED, BLUE]);
    let c = column(vec![RED, RED]);
    let strips = [a, b, c];
    let first = cluster_with(&strips, Membership::FirstMatch);
    assert_eq!(first.len(), 2);
    assert_eq!(first.iter().filter(|m| m.contains(&2)).count(), 1);
    assert_eq!(first[0], vec![1, 2]);
    assert_eq!(first[1], vec![0]);
    let all = cluster_with(&strips, Membership::AllMatches);
    assert_eq!(all, vec![vec![1, 2], vec![0, 2]]);
}
