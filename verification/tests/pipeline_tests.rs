use misato::config::{primary, secondaries, Role};
use misato::connected::Blob;
use misato::extract::{crop_too_small, group_bbox, merge_blobs, ExtractConfig};
use misato::rank::{group_by_character, MAX_DIM};
use misato::text::{decimal_string, join_path};
use misato::tune::{
    chrono_now, clock_stamp, default_tuned_config_path, epoch_stamp, has_enough_labels, MIN_NEG, MIN_POS, N_ITER,
};

#[test]
fn roles_pick_primary_and_secondaries() {
    let roles = [Role::Secondary, Role::Primary, Role::Secondary, Role::Primary];
    assert_eq!(primary(&roles), Some(1));
    assert_eq!(secondaries(&roles), vec![0, 2]);
    assert_eq!(primary(&[Role::Secondary]), None);
    assert!(secondaries(&[Role::Primary]).is_empty());
}

#[test]
fn extract_config_defaults() {
    let c = ExtractConfig::default();
    assert_eq!(c.top_n, 30);
    assert!(c.also_save_full_page);
}

fn blob(min_x: u32, min_y: u32, max_x: u32, max_y: u32) -> Blob {
    Blob { area: 1, min_x, min_y, max_x, max_y, sum_x: 0, sum_y: 0 }
}

#[test]
fn group_bounding_box() {
    let g = [blob(4, 2, 6, 3), blob(1, 5, 2, 9)];
    assert_eq!(group_bbox(&g), (1, 2, 6, 8));
    assert_eq!(group_bbox(&[blob(3, 3, 3, 3)]), (3, 3, 1, 1));
}

fn overlaps(n: usize, pairs: &[(usize, usize)]) -> Vec<Vec<bool>> {
    let mut o = vec![vec![false; n]; n];
    for &(i, j) in pairs {
        o[i][j] = true;
    }
    o
}

#[test]
fn merge_joins_through_chains() {
    // 0-1, 0-5 and 1-3 overlap: {0, 1, 3, 5} is one group.
    let groups = merge_blobs(&overlaps(6, &[(0, 1), (0, 5), (1, 3)]));
    assert_eq!(groups, vec![vec![2], vec![0, 1, 3, 5], vec![4]]);
}

#[test]
fn merge_single_pair() {
    let groups = merge_blobs(&overlaps(3, &[(0, 2)]));
    assert_eq!(groups, vec![vec![1], vec![0, 2]]);
}

#[test]
fn merge_nothing_and_everything() {
    assert!(merge_blobs(&Vec::new()).is_empty());
    assert_eq!(merge_blobs(&overlaps(3, &[])), vec![vec![0], vec![1], vec![2]]);
    assert_eq!(merge_blobs(&overlaps(3, &[(0, 1), (1, 2)])), vec![vec![0, 1, 2]]);
}

#[test]
fn merge_reads_only_upper_triangle() {
    let groups = merge_blobs(&overlaps(2, &[(1, 0)]));
    assert_eq!(groups, vec![vec![0], vec![1]]);
}

#[test]
fn tiny_crops_are_skipped() {
    assert!(!crop_too_small(10, 10, 20000));
    assert!(crop_too_small(9, 10, 20000));
    assert!(!crop_too_small(0, 0, 199));
    assert!(crop_too_small(0, 5, 200));
    assert!(!crop_too_small(u32::MAX, u32::MAX, u64::MAX));
}

#[test]
fn scores_grouped_by_character() {
    let chars: Vec<String> = vec!["rei".to_string(), "misato".to_string(), "rei".to_string(), "asuka".to_string()];
    assert_eq!(
        group_by_character(&chars),
        vec![
            ("asuka".to_string(), vec![3]),
            ("misato".to_string(), vec![1]),
            ("rei".to_string(), vec![0, 2]),
        ]
    );
}

#[test]
fn constants() {
    assert_eq!(MAX_DIM, 1500);
    assert_eq!(MIN_POS, 10);
    assert_eq!(MIN_NEG, 10);
    assert_eq!(N_ITER, 2000);
}

#[test]
fn tuning_needs_enough_labels() {
    assert!(has_enough_labels(10, 10));
    assert!(has_enough_labels(40, 12));
    assert!(!has_enough_labels(9, 10));
    assert!(!has_enough_labels(10, 9));
}

#[test]
fn tuned_config_path() {
    assert_eq!(default_tuned_config_path("output"), "output/tuned_config.json");
    assert_eq!(default_tuned_config_path("/abs"), "/abs/tuned_config.json");
}

#[test]
fn epoch_stamps() {
    assert_eq!(epoch_stamp(0), "epoch:0");
    assert_eq!(epoch_stamp(1700000000), "epoch:1700000000");
    assert_eq!(epoch_stamp(u64::MAX), "epoch:18446744073709551615");
}

#[test]
fn now_stamp_has_epoch_form() {
    let s = chrono_now();
    let digits = s.strip_prefix("epoch:").unwrap();
    assert!(!digits.is_empty());
    assert!(digits.chars().all(|c| c.is_ascii_digit()));
    assert!(digits.parse::<u64>().unwrap() > 1_000_000_000);
}

#[test]
fn paths_and_numbers() {
    assert_eq!(join_path("out", "x.json"), "out/x.json");
    assert_eq!(join_path("out", "/abs/x.json"), "/abs/x.json");
    assert_eq!(decimal_string(0), "0");
    assert_eq!(decimal_string(907), "907");
}

#[test]
fn clock_stamps() {
    assert_eq!(clock_stamp(Some(42)), "epoch:42");
    assert_eq!(clock_stamp(None), "epoch:0");
}
