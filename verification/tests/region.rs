use photonyx::error::FitsError;
use photonyx::region::{Region, Run};

#[test]
fn rect_is_start_shape_in_fits_order() {
    let r = Region::rect(3, 7, 10, 20);
    assert_eq!(r.start(), &[3, 7]);
    assert_eq!(r.shape(), &[10, 20]);
    assert_eq!(r.len(), 200);
}

#[test]
fn validate_rejects_wrong_dimensionality() {
    let r = Region::rect(0, 0, 2, 2);
    assert!(matches!(r.validate(&[10, 10, 10]), Err(FitsError::RegionOutOfBounds(..))));
}

#[test]
fn validate_rejects_out_of_bounds_extent() {
    let r = Region::rect(8, 0, 4, 4);
    assert!(matches!(r.validate(&[10, 10]), Err(FitsError::RegionOutOfBounds(..))));
}

#[test]
fn validate_accepts_full_extent() {
    let r = Region::new(vec![0, 0], vec![10, 10]);
    assert!(r.validate(&[10, 10]).is_ok());
}

#[test]
fn plan_1d_is_a_single_run() {
    let r = Region::new(vec![5], vec![12]);
    assert_eq!(r.plan_runs(&[100]), vec![Run { src_elem: 5, dst_elem: 0, len: 12 }]);
}

#[test]
fn plan_2d_rect_is_one_run_per_subset_row() {
    let r = Region::rect(2, 1, 4, 4);
    let runs = r.plan_runs(&[10, 10]);
    assert_eq!(runs.len(), 4);
    for (row, run) in runs.iter().enumerate() {
        assert_eq!(run.len, 4);
        assert_eq!(run.dst_elem, row * 4);
        assert_eq!(run.src_elem, 2 + (1 + row as u64) * 10);
    }
}

#[test]
fn plan_3d_iterates_axis1_fastest_then_axis2() {
    let r = Region::new(vec![1, 2, 1], vec![3, 2, 2]);
    let runs = r.plan_runs(&[8, 8, 4]);
    assert_eq!(runs.len(), 4);
    let stride2 = 8u64;
    let stride3 = 64u64;
    let src = |i1: u64, i2: u64| 1 + (2 + i1) * stride2 + (1 + i2) * stride3;
    let expected = [src(0, 0), src(1, 0), src(0, 1), src(1, 1)];
    for (i, run) in runs.iter().enumerate() {
        assert_eq!(run.len, 3);
        assert_eq!(run.dst_elem, i * 3);
        assert_eq!(run.src_elem, expected[i], "run {i}");
    }
}

#[test]
fn plan_4d_run_count_is_product_of_slower_axes() {
    let r = Region::new(vec![0, 0, 0, 0], vec![2, 3, 4, 5]);
    let runs = r.plan_runs(&[10, 10, 10, 10]);
    assert_eq!(runs.len(), 3 * 4 * 5);
    assert!(runs.iter().all(|run| run.len == 2));
    assert_eq!(runs.last().unwrap().dst_elem, (3 * 4 * 5 - 1) * 2);
}

#[test]
fn empty_region_plans_no_runs() {
    assert!(Region::rect(0, 0, 0, 4).plan_runs(&[10, 10]).is_empty());
    assert!(Region::rect(0, 0, 4, 0).plan_runs(&[10, 10]).is_empty());
}

#[test]
fn region_of_a_zero_axis_is_empty_and_valid_in_bounds() {
    let r = Region::new(vec![10, 0], vec![0, 3]);
    assert!(r.is_empty());
    assert_eq!(r.ndim(), 2);
    assert!(r.validate(&[10, 10]).is_ok());
}

#[test]
fn out_of_bounds_error_names_the_region_and_the_image() {
    let r = Region::rect(8, 0, 4, 4);
    match r.validate(&[10, 10]) {
        Err(FitsError::RegionOutOfBounds(msg, dims)) => {
            assert_eq!(msg, "start=[8, 0] shape=[4, 4]");
            assert_eq!(dims, vec![10u64, 10]);
        }
        other => panic!("unexpected {:?}", other),
    }
    let one = Region::new(vec![12], vec![1]);
    match one.validate(&[10]) {
        Err(FitsError::RegionOutOfBounds(msg, _)) => assert_eq!(msg, "start=[12] shape=[1]"),
        other => panic!("unexpected {:?}", other),
    }
}

#[test]
fn plan_runs_reaches_the_last_u64_element() {
    let big: usize = 1 << 63;
    let r = Region::new(vec![1, big - 1], vec![1, 1]);
    assert!(r.validate(&[2, big]).is_ok());
    let runs = r.plan_runs(&[2, big]);
    assert_eq!(runs.len(), 1);
    assert_eq!(runs[0].src_elem, u64::MAX);
    assert_eq!(runs[0].dst_elem, 0);
    assert_eq!(runs[0].len, 1);
}

#[test]
fn len_is_zero_with_a_zero_extent_after_a_huge_one() {
    let r = Region::new(vec![0, 0, 0], vec![usize::MAX, 2, 0]);
    assert_eq!(r.len(), 0);
    assert!(r.is_empty());
}
