use amazon_captcha_rs::raster::{extract_letters, fingerprint_image, merge_images, GrayImg};

fn img(width: usize, height: usize, pixels: Vec<u8>) -> GrayImg {
    GrayImg::from_raw(width, height, pixels).expect("dimensions match buffer")
}

#[test]
fn from_raw_rejects_mismatched_buffer() {
    assert!(GrayImg::from_raw(2, 2, vec![0u8; 3]).is_none());
    assert!(GrayImg::from_raw(2, 2, vec![0u8; 4]).is_some());
    assert!(GrayImg::from_raw(0, 0, vec![]).is_some());
}

#[test]
fn fingerprint_marks_ink_and_background() {
    let g = img(2, 2, vec![0, 255, 1, 2]);
    assert_eq!(fingerprint_image(&g), "1010");
}

#[test]
fn fingerprint_of_empty_image_is_empty() {
    let g = img(0, 0, vec![]);
    assert_eq!(fingerprint_image(&g), "");
}

#[test]
fn extract_letters_finds_separated_runs() {
    // Columns: ink, blank, ink, ink, blank -> two regions of widths 1 and 2.
    let g = img(5, 1, vec![0, 255, 0, 0, 255]);
    let letters = extract_letters(&g);
    assert_eq!(letters.len(), 2);
    assert_eq!(letters[0].width(), 1);
    assert_eq!(letters[1].width(), 2);
    assert_eq!(letters[0].height(), 1);
    assert_eq!(letters[1].height(), 1);
    assert_eq!(fingerprint_image(&letters[0]), "1");
    assert_eq!(fingerprint_image(&letters[1]), "11");
}

#[test]
fn extract_letters_closes_run_at_right_edge() {
    let g = img(3, 1, vec![255, 0, 0]);
    let letters = extract_letters(&g);
    assert_eq!(letters.len(), 1);
    assert_eq!(letters[0].width(), 2);
}

#[test]
fn extract_letters_ink_detected_in_any_row() {
    // Ink only in the bottom row of column 1.
    let g = img(3, 2, vec![255, 255, 255, 255, 1, 255]);
    let letters = extract_letters(&g);
    assert_eq!(letters.len(), 1);
    assert_eq!(letters[0].width(), 1);
    assert_eq!(letters[0].height(), 2);
    assert_eq!(fingerprint_image(&letters[0]), "01");
}

#[test]
fn extract_letters_no_ink_yields_nothing() {
    let g = img(4, 3, vec![255u8; 12]);
    assert_eq!(extract_letters(&g).len(), 0);
}

#[test]
fn extract_letters_threshold_is_near_black() {
    // Intensity 2 is above the threshold: background, not ink.
    let g = img(2, 1, vec![2, 2]);
    assert_eq!(extract_letters(&g).len(), 0);
    let g = img(2, 1, vec![1, 2]);
    assert_eq!(extract_letters(&g).len(), 1);
}

#[test]
fn extract_letters_is_deterministic() {
    let g = img(7, 2, vec![0, 255, 0, 0, 255, 255, 0, 255, 255, 0, 0, 255, 255, 0]);
    let a = extract_letters(&g);
    let b = extract_letters(&g);
    assert_eq!(a.len(), b.len());
    for (x, y) in a.iter().zip(b.iter()) {
        assert_eq!(x.width(), y.width());
        assert_eq!(x.height(), y.height());
        assert_eq!(fingerprint_image(x), fingerprint_image(y));
    }
}

#[test]
fn merge_places_first_image_on_the_left() {
    let a = img(2, 2, vec![0, 255, 255, 0]);
    let b = img(1, 2, vec![0, 255]);
    let m = merge_images(&a, &b);
    assert_eq!(m.width(), 3);
    assert_eq!(m.height(), 2);
    // Row 0: a's (0, 255) then b's 0; row 1: a's (255, 0) then b's 255.
    assert_eq!(fingerprint_image(&m), "101010");
}

#[test]
fn merge_pads_shorter_image_with_background_zero() {
    let a = img(1, 2, vec![255, 255]);
    let b = img(1, 1, vec![255]);
    let m = merge_images(&a, &b);
    assert_eq!(m.width(), 2);
    assert_eq!(m.height(), 2);
    // The padded pixel below b is 0, which counts as ink.
    assert_eq!(fingerprint_image(&m), "0001");
}
