use pixen::{
    count, find_all, find_all_in_region, find_best, find_in_region, get_nth_tolerance,
    get_tolerance, matches_at, Image,
};

fn screen() -> Image {
    let mut buf = vec![0u8; 16 * 8 * 4];
    for y in 2..6 {
        for x in 5..13 {
            for c in 0..4 {
                buf[(y * 16 + x) * 4 + c] = 200;
            }
        }
    }
    Image::new(buf, 16, 8, 4).unwrap()
}

fn sample() -> Image {
    Image::new(vec![200u8; 8 * 4 * 4], 8, 4, 4).unwrap()
}

fn grey() -> Image {
    Image::new(vec![100u8; 8 * 4 * 4], 8, 4, 4).unwrap()
}

#[test]
fn law_tolerance_monotone_example() {
    for t in 0..=255u8 {
        if pixen::matches(&screen(), &sample(), t) {
            assert!(t == 255 || pixen::matches(&screen(), &sample(), t + 1));
        }
    }
    assert!(count(&screen(), &grey(), 99) <= count(&screen(), &grey(), 100));
}

#[test]
fn law_best_tolerance_decides_example() {
    let (best, _) = get_tolerance(&screen(), &grey());
    assert_eq!(best, 100);
    assert!(!pixen::matches(&screen(), &grey(), best - 1));
    assert!(pixen::matches(&screen(), &grey(), best + 1));
}

#[test]
fn law_full_region_is_whole_screen_example() {
    assert_eq!(
        find_in_region(&screen(), &sample(), [[0, 0], [16, 8]], 0),
        find_best(&screen(), &sample(), 0)
    );
}

#[test]
fn law_hits_inside_region_example() {
    let region = [[2, 1], [15, 8]];
    for p in find_all_in_region(&screen(), &grey(), region, 100) {
        assert!(p[0] >= 2 && p[0] + 8 <= 15);
        assert!(p[1] >= 1 && p[1] + 4 <= 8);
    }
}

#[test]
fn law_clusters_count_matches_list_example() {
    assert_eq!(find_all(&screen(), &grey(), 100).len(), count(&screen(), &grey(), 100));
}

#[test]
fn law_ranked_sorted_example() {
    let mut prev = get_nth_tolerance(&screen(), &grey(), 0);
    for n in 1..4 {
        let next = get_nth_tolerance(&screen(), &grey(), n);
        assert!(prev <= next);
        prev = next;
    }
}

#[test]
fn law_at_tolerance_monotone_example() {
    assert!(matches_at(&screen(), &sample(), [5, 3], 50));
    assert!(matches_at(&screen(), &sample(), [5, 3], 51));
}
