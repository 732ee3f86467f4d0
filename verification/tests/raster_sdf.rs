use heven::{blit, downsample, padded_mask, sdf, SdfLevels, SDF_FAR};

fn test_levels() -> SdfLevels {
    let mut levels = SdfLevels { blended: [0; 256], inside: [0; 65], outside: [0; 65] };
    for m in 0..256 {
        levels.blended[m] = m as u8;
    }
    for d in 0..65 {
        levels.inside[d] = 100 + d as u8;
        levels.outside[d] = d as u8;
    }
    levels
}

#[test]
fn blit_copies_rectangle_and_keeps_the_rest() {
    let mut dst = vec![9u8; 4 * 3];
    blit(&mut dst, 4, [1, 1], &[1, 2, 3, 4], [2, 2]);
    assert_eq!(dst, vec![9, 9, 9, 9, 9, 1, 2, 9, 9, 3, 4, 9]);
}

#[test]
fn blit_of_empty_rectangle_changes_nothing() {
    let mut dst = vec![5u8; 6];
    blit(&mut dst, 3, [3, 2], &[], [0, 0]);
    assert_eq!(dst, vec![5; 6]);
}

#[test]
fn padded_mask_pads_above_and_left() {
    let mask = padded_mask(&[1, 2, 3, 4], [2, 2], [4, 4], 1, 1);
    assert_eq!(mask, vec![0, 0, 0, 0, 0, 1, 2, 0, 0, 3, 4, 0, 0, 0, 0, 0]);
}

#[test]
fn padded_mask_scales_padding() {
    let mask = padded_mask(&[7], [1, 1], [2, 2], 2, 1);
    assert_eq!(mask.len(), 16);
    assert_eq!(mask[2 * 4 + 2], 7);
    assert_eq!(mask.iter().filter(|&&p| p != 0).count(), 1);
}

#[test]
fn downsample_averages_blocks_rounding_down() {
    let pixels = downsample(&[1, 2, 3, 4, 5, 6, 7, 8], [2, 1], 2);
    assert_eq!(pixels, vec![3, 5]);
}

#[test]
fn downsample_by_one_is_identity() {
    assert_eq!(downsample(&[4, 5, 6], [3, 1], 1), vec![4, 5, 6]);
}

#[test]
fn sdf_measures_distance_across_the_edge() {
    let field = sdf(&[255, 0, 0], [3, 1], &test_levels());
    assert_eq!(field, vec![101, 1, 4]);
}

#[test]
fn sdf_uses_far_distance_without_an_edge() {
    let field = sdf(&[0, 0, 0, 0], [2, 2], &test_levels());
    assert_eq!(field, vec![SDF_FAR as u8; 4]);
    let covered = sdf(&[255; 4], [2, 2], &test_levels());
    assert_eq!(covered, vec![100 + SDF_FAR as u8; 4]);
}

#[test]
fn sdf_keeps_blended_pixels_by_value() {
    let field = sdf(&[100, 0], [2, 1], &test_levels());
    assert_eq!(field, vec![100, 64]);
}

#[test]
fn sdf_search_stops_at_the_radius() {
    let mut mask = vec![0u8; 10];
    mask[9] = 255;
    let field = sdf(&mask, [10, 1], &test_levels());
    assert_eq!(field[0], SDF_FAR as u8);
    assert_eq!(field[1], 64);
    assert_eq!(field[8], 1);
    assert_eq!(field[9], 101);
}

#[test]
fn sdf_measures_diagonals() {
    let mut mask = vec![0u8; 9];
    mask[0] = 255;
    let field = sdf(&mask, [3, 3], &test_levels());
    assert_eq!(field[4], 2);
    assert_eq!(field[8], 8);
}

fn ordered_levels() -> SdfLevels {
    let mut levels = SdfLevels { blended: [0; 256], inside: [0; 65], outside: [0; 65] };
    for m in 0..256 {
        levels.blended[m] = 70 + (m / 4) as u8;
    }
    for d in 0..65 {
        levels.inside[d] = 140 + d as u8;
        levels.outside[d] = 64 - d as u8;
    }
    levels
}

#[test]
fn level_tables_are_checked_for_order() {
    assert!(ordered_levels().is_ordered());
    assert!(!test_levels().is_ordered());
    let mut broken = ordered_levels();
    broken.blended[200] = 0;
    assert!(!broken.is_ordered());
}

#[test]
fn more_coverage_never_lowers_the_field() {
    let levels = ordered_levels();
    let less = [0u8, 0, 40, 255, 0, 0, 0, 0, 0, 0, 0, 0];
    let more = [0u8, 200, 40, 255, 255, 10, 0, 0, 0, 0, 0, 255];
    let low = sdf(&less, [4, 3], &levels);
    let high = sdf(&more, [4, 3], &levels);
    for i in 0..12 {
        assert!(low[i] <= high[i], "pixel {i}: {} > {}", low[i], high[i]);
    }
}
