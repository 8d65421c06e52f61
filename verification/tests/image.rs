use pixen::Image;

#[test]
fn image_new_keeps_geometry() {
    let img = Image::new(vec![1, 2, 3, 4, 5, 6], 2, 1, 3).unwrap();
    assert_eq!(img.width(), 2);
    assert_eq!(img.height(), 1);
    assert_eq!(img.channels(), 3);
    assert_eq!(img.dimensions(), [2, 1]);
    assert_eq!(img.as_raw(), &vec![1, 2, 3, 4, 5, 6]);
}

#[test]
fn image_new_rejects_wrong_length() {
    let err = Image::new(vec![0; 5], 2, 1, 3).err().unwrap();
    assert_eq!(err, "Buffer size mismatch: expected 2×1×3 = 6 bytes, got 5 bytes");
}

#[test]
fn image_new_accepts_empty() {
    let img = Image::new(Vec::new(), 0, 7, 4).unwrap();
    assert_eq!(img.dimensions(), [0, 7]);
    assert!(img.as_raw().is_empty());
}
