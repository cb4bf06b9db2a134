use sample_split::segmenter::segment_bounds;
use sample_split::segmenter::SkipPredicate;

#[test]
fn test_skip_predicate_initial_skip() {
    let slice: &[usize] = &[0, 0, 0, 0, 1, 0, 0, 0, 2, 3, 4, 0, 0, 5, 6];
    let result = slice.skip_predicate(|x| x == 0);
    assert_eq!(result.len(), 3);
    assert_eq!(result[0], &[1]);
    assert_eq!(result[1], &[2, 3, 4]);
    assert_eq!(result[2], &[5, 6]);
}

#[test]
fn test_skip_predicate_no_delay() {
    let slice: &[usize] = &[1, 0, 0, 0, 2, 3, 4, 0, 0, 5, 6];
    let result = slice.skip_predicate(|x| x == 0);
    assert_eq!(result.len(), 3);
    assert_eq!(result[0], &[1]);
    assert_eq!(result[1], &[2, 3, 4]);
    assert_eq!(result[2], &[5, 6]);
}

#[test]
fn test_skip_predicate_with_delay() {
    let slice: &[usize] = &[1, 0, 0, 0, 2, 3, 4, 0, 0, 5, 6];
    let result = slice.skip_predicate_with_delay(|x| x == 0, 0, 0, 1);
    assert_eq!(result.len(), 3);
    assert_eq!(result[0], &[1, 0]);
    assert_eq!(result[1], &[2, 3, 4, 0]);
    assert_eq!(result[2], &[5, 6]);
}

#[test]
fn test_skip_predicate_with_predelay() {
    let slice: &[usize] = &[1, 0, 0, 0, 2, 3, 4, 0, 0, 5, 6];
    let result = slice.skip_predicate_with_delay(|x| x == 0, 1, 0, 0);
    assert_eq!(result.len(), 3);
    assert_eq!(result[0], &[1]);
    assert_eq!(result[1], &[0, 2, 3, 4]);
    assert_eq!(result[2], &[0, 5, 6]);
}

#[test]
fn segment_bounds_partition_is_ordered() {
    // mask of [0,0,0,0,1,0,0,0,2,3,4,0,0,5,6] under `x == 0`
    let mask: &[bool] = &[
        true, true, true, true, false, true, true, true, false, false, false, true, true, false,
        false,
    ];
    let bounds = segment_bounds(mask, 0, 1, 0);
    assert_eq!(bounds, vec![(4, 5), (8, 11), (13, 15)]);
    // non-overlapping, strictly increasing, within [0, len)
    for w in bounds.windows(2) {
        assert!(w[0].1 <= w[1].0);
        assert!(w[0].0 < w[1].0);
    }
    for &(a, b) in &bounds {
        assert!(a < b && b <= mask.len());
    }
}

#[test]
fn segment_bounds_trailing_sound_is_emitted() {
    let mask: &[bool] = &[true, false, false];
    assert_eq!(segment_bounds(mask, 0, 1, 0), vec![(1, 3)]);
    let all_sound: &[bool] = &[false, false];
    assert_eq!(segment_bounds(all_sound, 0, 1, 0), vec![(0, 2)]);
    let all_silent: &[bool] = &[true, true];
    assert_eq!(segment_bounds(all_silent, 0, 1, 0), vec![]);
}

#[test]
fn segment_bounds_hold_debounces_onsets() {
    // a single non-silent blip does not open a segment when hold is 2
    let mask: &[bool] = &[true, false, true, true, false, false, true];
    assert_eq!(segment_bounds(mask, 0, 2, 0), vec![(5, 6)]);
}

#[test]
fn segment_bounds_delay_counts_hits() {
    // with delay 1 the first silent sample leaves the region open; the second
    // closes it, even though a non-silent sample came in between (the hit
    // counter is deliberately never reset inside a sound region)
    let mask: &[bool] = &[false, true, false, true, true];
    assert_eq!(segment_bounds(mask, 0, 1, 1), vec![(0, 3)]);
}

#[test]
fn segment_bounds_predelay_pads_onset() {
    let mask: &[bool] = &[true, true, true, false, false];
    assert_eq!(segment_bounds(mask, 2, 1, 0), vec![(1, 5)]);
    // clamped at the buffer start
    assert_eq!(segment_bounds(mask, 9, 1, 0), vec![(0, 5)]);
}
