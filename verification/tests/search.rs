use pixen::{
    count, count_in_region, debug_match, find_all, find_all_in_region, find_best, find_in_region,
    find_nth, find_nth_in_region, get_nth_tolerance, get_nth_tolerance_in_region, get_region,
    get_tolerance, get_tolerance_in_region, matches_at, matches_in_region,
    ranked_in_region, search_defined, Image,
};

/// A 16x8 RGBA screen, black except for a block of value 200 covering
/// x in 5..13 and y in 2..6.
fn screen() -> Image {
    let mut buf = vec![0u8; 16 * 8 * 4];
    for y in 2..6 {
        for x in 5..13 {
            for c in 0..4 {
                buf[(y * 16 + x) * 4 + c] = 200;
            }
        }
    }
    Image::new(buf, 16, 8, 4).unwrap()
}

/// An 8x4 RGBA sample equal to the block.
fn sample() -> Image {
    Image::new(vec![200u8; 8 * 4 * 4], 8, 4, 4).unwrap()
}

/// An 8x4 RGBA sample that differs from every window by 100 per byte.
fn grey() -> Image {
    Image::new(vec![100u8; 8 * 4 * 4], 8, 4, 4).unwrap()
}

#[test]
fn find_best_exact() {
    assert_eq!(find_best(&screen(), &sample(), 0), Some([5, 2]));
}

#[test]
fn find_best_none_below_grey_difference() {
    assert_eq!(find_best(&screen(), &grey(), 99), None);
}

#[test]
fn find_best_first_of_equal_windows() {
    assert_eq!(find_best(&screen(), &grey(), 100), Some([0, 0]));
}

#[test]
fn get_tolerance_exact() {
    assert_eq!(get_tolerance(&screen(), &sample()), (0, [5, 2]));
}

#[test]
fn get_tolerance_grey() {
    assert_eq!(get_tolerance(&screen(), &grey()), (100, [0, 0]));
}

#[test]
fn get_tolerance_in_region_shifted() {
    // every window of the region misses one sampled column per sampled row:
    // 2 * 4 * 200 = 1600 over 64 compared bytes
    assert_eq!(get_tolerance_in_region(&screen(), &sample(), [[6, 0], [16, 8]]), (25, [6, 2]));
}

#[test]
fn get_region_of_best() {
    assert_eq!(get_region(&screen(), &sample()), [[5, 2], [13, 6]]);
}

#[test]
fn count_merges_nearby_windows() {
    // (5, 2) and (5, 3) both match exactly and are merged
    assert_eq!(count(&screen(), &sample(), 0), 1);
    assert_eq!(count(&screen(), &grey(), 100), 4);
    assert_eq!(count(&screen(), &grey(), 99), 0);
}

#[test]
fn find_all_lists_merged_points() {
    assert_eq!(find_all(&screen(), &sample(), 0), vec![[5, 2]]);
    assert_eq!(find_all(&screen(), &grey(), 100), vec![[0, 0], [8, 0], [0, 4], [8, 4]]);
}

#[test]
fn find_nth_entries() {
    assert_eq!(find_nth(&screen(), &grey(), 100, 2), Some([0, 4]));
    assert_eq!(find_nth(&screen(), &grey(), 100, 4), None);
    assert_eq!(find_nth(&screen(), &sample(), 0, 0), Some([5, 2]));
}

#[test]
fn find_nth_sample_larger_than_screen() {
    assert_eq!(find_nth(&sample(), &screen(), 0, 0), None);
}

#[test]
fn get_nth_tolerance_ranks() {
    assert_eq!(get_nth_tolerance(&screen(), &grey(), 0), (100, [0, 0]));
    assert_eq!(get_nth_tolerance(&screen(), &grey(), 1), (100, [0, 4]));
    assert_eq!(get_nth_tolerance(&screen(), &grey(), 2), (100, [8, 0]));
    assert_eq!(get_nth_tolerance(&screen(), &grey(), 3), (100, [8, 4]));
}

#[test]
fn region_searches() {
    let region = [[3, 1], [14, 7]];
    assert_eq!(find_in_region(&screen(), &sample(), region, 0), Some([5, 2]));
    assert_eq!(count_in_region(&screen(), &sample(), region, 0), 1);
    assert_eq!(find_all_in_region(&screen(), &sample(), region, 0), vec![[5, 2]]);
    assert!(matches_in_region(&screen(), &sample(), region, 0));
    assert_eq!(find_nth_in_region(&screen(), &sample(), region, 0, 0), Some([5, 2]));
    assert_eq!(find_nth_in_region(&screen(), &sample(), region, 0, 1), None);
    assert_eq!(get_nth_tolerance_in_region(&screen(), &sample(), region, 0), (0, [5, 2]));
    assert_eq!(ranked_in_region(&screen(), &sample(), region), vec![(0, [5, 2])]);
}

#[test]
fn region_without_match() {
    let region = [[6, 0], [16, 8]];
    assert_eq!(find_in_region(&screen(), &sample(), region, 0), None);
    assert!(!matches_in_region(&screen(), &sample(), region, 0));
    assert_eq!(count_in_region(&screen(), &sample(), region, 24), 0);
    assert_eq!(count_in_region(&screen(), &sample(), region, 25), 1);
}

#[test]
fn matches_whole_screen() {
    assert!(pixen::matches(&screen(), &sample(), 0));
    assert!(!pixen::matches(&screen(), &grey(), 99));
    assert!(pixen::matches(&screen(), &grey(), 100));
}

#[test]
fn matches_at_compares_every_row() {
    assert!(matches_at(&screen(), &sample(), [5, 2], 0));
    // row 6 is black: 32 bytes of 200 over 128 sample bytes
    assert!(!matches_at(&screen(), &sample(), [5, 3], 49));
    assert!(matches_at(&screen(), &sample(), [5, 3], 50));
    assert!(!matches_at(&screen(), &grey(), [5, 2], 99));
    assert!(matches_at(&screen(), &grey(), [5, 2], 100));
}

#[test]
fn debug_match_differences() {
    assert_eq!(debug_match(&screen(), &sample(), [5, 2]), [0u8; 32]);
    let mut expected = [0u8; 32];
    for i in 0..4 {
        expected[i] = 200;
    }
    assert_eq!(debug_match(&screen(), &sample(), [4, 2]), expected);
}

#[test]
fn search_defined_cases() {
    assert!(search_defined(&screen(), &sample(), None, 255));
    assert!(search_defined(&screen(), &sample(), Some([[3, 1], [14, 7]]), 0));
    // inverted region
    assert!(!search_defined(&screen(), &sample(), Some([[4, 1], [3, 7]]), 0));
    // a region that does not fit is defined: the search reports that it does not fit
    assert!(search_defined(&screen(), &sample(), Some([[0, 0], [4, 4]]), 0));
    // rows of any positive length are accepted
    let small = Image::new(vec![0u8; 12], 2, 2, 3).unwrap();
    assert!(search_defined(&screen(), &small, None, 0));
    // an empty sample row is not
    let empty = Image::new(Vec::new(), 0, 2, 3).unwrap();
    assert!(!search_defined(&screen(), &empty, None, 0));
}
