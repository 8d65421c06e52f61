use pixen::{count, find_all, find_best, get_tolerance, matches_at, Image};

/// A 3x4 RGB screen.
fn screen() -> Image {
    Image::new(
        vec![
            66, 66, 66, 66, 66, 66, 66, 66, 66, //
            66, 66, 66, 0, 1, 2, 250, 251, 252, //
            66, 66, 66, 253, 254, 255, 3, 4, 5, //
            66, 66, 66, 100, 101, 102, 50, 51, 52,
        ],
        3,
        4,
        3,
    )
    .unwrap()
}

/// A 2x3 RGB sample close to the screen at [1, 1].
fn sample() -> Image {
    Image::new(
        vec![
            6, 7, 8, 250, 250, 250, //
            250, 250, 250, 9, 10, 11, //
            105, 95, 100, 45, 55, 50,
        ],
        2,
        3,
        3,
    )
    .unwrap()
}

/// A 2x3 RGB sample present nowhere.
fn different_sample() -> Image {
    Image::new(vec![255; 18], 2, 3, 3).unwrap()
}

#[test]
fn short_rows_found() {
    assert_eq!(find_best(&screen(), &sample(), u8::MAX), Some([1, 1]));
    // 75 over 18 compared bytes: accepted from tolerance 5 on (5 * 18 = 90)
    assert_eq!(find_best(&screen(), &sample(), 5), Some([1, 1]));
    assert_eq!(find_best(&screen(), &sample(), 4), None);
}

#[test]
fn short_rows_not_found() {
    assert_eq!(find_best(&screen(), &different_sample(), 10), None);
    assert!(!pixen::matches(&screen(), &different_sample(), 10));
}

#[test]
fn short_rows_tolerance() {
    // 75 over 18 compared bytes
    assert_eq!(get_tolerance(&screen(), &sample()), (4, [1, 1]));
}

#[test]
fn short_rows_matches() {
    assert!(pixen::matches(&screen(), &sample(), 5));
    assert!(!pixen::matches(&screen(), &sample(), 4));
}

#[test]
fn short_rows_merge_to_best() {
    assert_eq!(count(&screen(), &sample(), u8::MAX), 1);
    assert_eq!(find_all(&screen(), &sample(), u8::MAX), vec![[1, 1]]);
}

#[test]
fn short_rows_matches_at() {
    assert!(matches_at(&screen(), &sample(), [1, 1], 5));
    assert!(!matches_at(&screen(), &sample(), [1, 1], 4));
    assert!(!matches_at(&screen(), &sample(), [0, 0], 5));
    assert!(!matches_at(&screen(), &different_sample(), [0, 0], 5));
}

#[test]
fn last_byte_counts() {
    let mut screen_bytes = vec![1u8; 33];
    screen_bytes[32] = 2;
    let screen = Image::new(screen_bytes, 33, 1, 1).unwrap();
    let sample = Image::new(vec![1u8; 33], 33, 1, 1).unwrap();
    assert!(!matches_at(&screen, &sample, [0, 0], 0));
    assert!(matches_at(&screen, &sample, [0, 0], 1));
    assert_eq!(find_best(&screen, &sample, 0), None);
    assert_eq!(get_tolerance(&screen, &sample), (0, [0, 0]));
}
