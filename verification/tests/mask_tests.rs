use misato::classify::{mask_count, mask_union};
use misato::connected::{label, sort_by_area_desc, Blob};
use misato::rank::max_or_zero;

#[test]
fn mask_count_sums_matches() {
    assert_eq!(mask_count(&[1, 0, 1, 1, 0]), 3);
    assert_eq!(mask_count(&[]), 0);
    assert_eq!(mask_count(&[0, 0, 0]), 0);
}

#[test]
fn mask_union_ors_bytes() {
    let mut acc = vec![0u8, 1, 0, 0];
    mask_union(&mut acc, &[1, 0, 0, 1]);
    assert_eq!(acc, vec![1, 1, 0, 1]);
}

#[test]
fn mask_union_shorter_other() {
    let mut acc = vec![0u8, 0, 0];
    mask_union(&mut acc, &[1]);
    assert_eq!(acc, vec![1, 0, 0]);
    let mut acc2 = vec![0u8];
    mask_union(&mut acc2, &[0, 1, 1]);
    assert_eq!(acc2, vec![0]);
}

#[test]
fn max_or_zero_values() {
    assert_eq!(max_or_zero(&[]), 0);
    assert_eq!(max_or_zero(&[3, 9, 2]), 9);
    assert_eq!(max_or_zero(&[0, 0]), 0);
}

fn blob(area: u32, min_x: u32, min_y: u32, max_x: u32, max_y: u32, sum_x: u64, sum_y: u64) -> Blob {
    Blob { area, min_x, min_y, max_x, max_y, sum_x, sum_y }
}

#[test]
fn label_three_components_largest_first() {
    // 1 1 0 0
    // 0 0 0 1
    // 1 0 1 1
    let mask = [1u8, 1, 0, 0, 0, 0, 0, 1, 1, 0, 1, 1];
    let blobs = label(&mask, 4, 3, 1);
    assert_eq!(
        blobs,
        vec![
            blob(3, 2, 1, 3, 2, 8, 5),
            blob(2, 0, 0, 1, 0, 1, 0),
            blob(1, 0, 2, 0, 2, 0, 2),
        ]
    );
}

#[test]
fn label_min_area_filters() {
    let mask = [1u8, 1, 0, 0, 0, 0, 0, 1, 1, 0, 1, 1];
    let blobs = label(&mask, 4, 3, 2);
    assert_eq!(blobs.len(), 2);
    assert_eq!(blobs[0].area, 3);
    assert_eq!(blobs[1].area, 2);
    assert!(label(&mask, 4, 3, 4).is_empty());
}

#[test]
fn label_diagonal_is_not_adjacent() {
    let mask = [1u8, 0, 0, 1];
    let blobs = label(&mask, 2, 2, 1);
    assert_eq!(blobs.len(), 2);
    assert_eq!(blobs[0], blob(1, 0, 0, 0, 0, 0, 0));
    assert_eq!(blobs[1], blob(1, 1, 1, 1, 1, 1, 1));
}

#[test]
fn label_ties_keep_scan_order() {
    let mask = [1u8, 0, 1, 0, 1];
    let blobs = label(&mask, 5, 1, 1);
    let xs: Vec<u32> = blobs.iter().map(|b| b.min_x).collect();
    assert_eq!(xs, vec![0, 2, 4]);
}

#[test]
fn label_any_nonzero_byte_is_set() {
    let mask = [7u8, 255, 0, 1];
    let blobs = label(&mask, 2, 2, 1);
    assert_eq!(blobs, vec![blob(3, 0, 0, 1, 1, 2, 1)]);
}

#[test]
fn label_empty_and_blank() {
    assert!(label(&[], 0, 0, 0).is_empty());
    assert!(label(&[0u8; 6], 3, 2, 0).is_empty());
}

#[test]
fn label_u_shape_is_one_component() {
    // 1 0 1
    // 1 0 1
    // 1 1 1
    let mask = [1u8, 0, 1, 1, 0, 1, 1, 1, 1];
    let blobs = label(&mask, 3, 3, 1);
    assert_eq!(blobs, vec![blob(7, 0, 0, 2, 2, 0 + 2 + 0 + 2 + 0 + 1 + 2, 0 + 0 + 1 + 1 + 2 + 2 + 2)]);
}

#[test]
fn blob_width_height() {
    let b = blob(3, 2, 1, 3, 2, 8, 5);
    assert_eq!(b.width(), 2);
    assert_eq!(b.height(), 2);
}

#[test]
fn sort_by_area_is_stable() {
    let a = blob(2, 0, 0, 1, 0, 1, 0);
    let b = blob(5, 9, 9, 9, 9, 9, 9);
    let c = blob(2, 4, 4, 5, 4, 9, 8);
    let sorted = sort_by_area_desc(vec![a, b, c]);
    assert_eq!(sorted, vec![b, a, c]);
}
