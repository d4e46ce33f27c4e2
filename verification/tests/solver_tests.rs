use std::collections::HashMap;

use amazon_captcha_rs::raster::GrayImg;
use amazon_captcha_rs::text::match_count;
use amazon_captcha_rs::{LoadError, Solver};

fn corpus_bytes(entries: &[(&str, char)]) -> Vec<u8> {
    let map: HashMap<String, char> =
        entries.iter().map(|(k, v)| (k.to_string(), *v)).collect();
    bincode::serialize(&map).expect("serializing a map cannot fail")
}

fn solver(entries: &[(&str, char)]) -> Solver {
    Solver::new(&corpus_bytes(entries)).expect("well-formed corpus")
}

fn img(width: usize, height: usize, pixels: Vec<u8>) -> GrayImg {
    GrayImg::from_raw(width, height, pixels).expect("dimensions match buffer")
}

#[test]
fn corpus_load_failure_empty_bytes() {
    let r = Solver::new(&[]);
    assert!(r.is_err());
    assert_eq!(r.err().unwrap(), LoadError);
}

#[test]
fn corpus_load_failure_corrupted_bytes() {
    // A length prefix promising far more entries than the bytes hold.
    let mut bytes = corpus_bytes(&[("10", 'a')]);
    bytes.truncate(bytes.len() / 2);
    assert!(Solver::new(&bytes).is_err());
    assert!(Solver::new(&[0xff, 0xff, 0xff, 0xff, 0xff, 0xff, 0xff, 0xff, 0x01]).is_err());
}

#[test]
fn corpus_load_success() {
    assert!(Solver::new(&corpus_bytes(&[("1", 'a'), ("0", 'b')])).is_ok());
}

#[test]
fn corpus_with_ill_formed_key_is_rejected() {
    // Keys must be non-empty and hold only '0'/'1'.
    assert!(Solver::new(&corpus_bytes(&[("102", 'a')])).is_err());
    assert!(Solver::new(&corpus_bytes(&[("", 'a')])).is_err());
    assert!(Solver::new(&corpus_bytes(&[("01", 'a'), ("x", 'b')])).is_err());
}

#[test]
fn from_entries_last_write_wins() {
    let s = Solver::from_entries(vec![
        ("11".to_string(), 'a'),
        ("00".to_string(), 'b'),
        ("11".to_string(), 'c'),
    ]);
    assert_eq!(s.lookup_exact("11"), Some('c'));
    assert_eq!(s.lookup_exact("00"), Some('b'));
}

#[test]
fn most_similar_tie_breaks_to_first_entry() {
    // Both entries score 1 against "11": the first in store order wins.
    let s = Solver::from_entries(vec![("10".to_string(), 'a'), ("01".to_string(), 'b')]);
    assert_eq!(s.most_similar_letter("11"), 'a');
    // A later entry must score strictly higher to take over.
    let s = Solver::from_entries(vec![("10".to_string(), 'a'), ("11".to_string(), 'b')]);
    assert_eq!(s.most_similar_letter("11"), 'b');
}

#[test]
fn lookup_exact_hit_and_miss() {
    let s = solver(&[("1100", 'a'), ("0011", 'b')]);
    assert_eq!(s.lookup_exact("1100"), Some('a'));
    assert_eq!(s.lookup_exact("0011"), Some('b'));
    assert_eq!(s.lookup_exact("1111"), None);
    assert_eq!(s.lookup_exact(""), None);
    // Exact equality only: no normalization of length.
    assert_eq!(s.lookup_exact("110"), None);
}

#[test]
fn match_count_concrete_values() {
    // Identical equal-length fingerprints match everywhere: ratio 1.
    assert_eq!(match_count("1010", "1010"), 4);
    // Opposite fingerprints match nowhere: ratio 0.
    assert_eq!(match_count("10", "01"), 0);
    // Unequal lengths compare only over the zipped prefix.
    assert_eq!(match_count("1100", "10"), 1);
    assert_eq!(match_count("", "1100"), 0);
    // The count never exceeds the shorter length.
    assert_eq!(match_count("111", "11111"), 3);
}

#[test]
fn most_similar_prefers_higher_score() {
    let s = solver(&[("1111", 'm'), ("0000", 'z')]);
    assert_eq!(s.most_similar_letter("1110"), 'm');
    assert_eq!(s.most_similar_letter("0001"), 'z');
}

#[test]
fn most_similar_on_empty_store_is_blank() {
    let s = solver(&[]);
    assert_eq!(s.most_similar_letter("1010"), ' ');
}

#[test]
fn most_similar_all_scores_zero_still_yields_stored_character() {
    // Even when no position matches, a non-empty store yields a stored
    // character, never the sentinel blank.
    let s = solver(&[("0000", 'z')]);
    assert_eq!(s.most_similar_letter("1111"), 'z');
    assert_eq!(s.most_similar_letter(""), 'z');
    assert_eq!(s.most_similar_letter("0000"), 'z');
}

#[test]
fn fallback_never_emits_blank_for_nonempty_store() {
    // The glyph's fingerprint "1" matches "0" at no position; the store's
    // character is still emitted.
    let s = solver(&[("0", 'z')]);
    let g = img(1, 1, vec![0]);
    assert_eq!(s.resolve_gray(&g), "z");
}

#[test]
fn exact_match_entry_resolves_to_its_character() {
    // A glyph whose pixels reproduce a corpus fingerprint exactly.
    let s = solver(&[("1101", 'x'), ("0000", 'y')]);
    let g = img(2, 2, vec![0, 0, 255, 0]);
    assert_eq!(s.resolve_gray(&g), "x");
}

#[test]
fn six_regions_resolve_to_six_characters() {
    // Six single-column glyphs separated by blank columns.
    let s = solver(&[("1", 'A')]);
    let g = img(
        11,
        1,
        vec![0, 255, 0, 255, 0, 255, 0, 255, 0, 255, 0],
    );
    let text = s.resolve_gray(&g);
    assert_eq!(text.len(), 6);
    assert_eq!(text, "aaaaaa");
}

#[test]
fn seven_regions_merge_into_six_characters() {
    // Seven single-column glyphs: the seventh merges with the first, the
    // seventh on the left, and the merged glyph takes the last slot.
    let s = solver(&[("1", 'a'), ("11", 'b')]);
    let g = img(
        13,
        1,
        vec![0, 255, 0, 255, 0, 255, 0, 255, 0, 255, 0, 255, 0],
    );
    let text = s.resolve_gray(&g);
    assert_eq!(text.len(), 6);
    assert_eq!(text, "aaaaab");
}

#[test]
fn resolved_text_is_lowercased() {
    let s = solver(&[("11", 'Q')]);
    let g = img(1, 2, vec![0, 0]);
    assert_eq!(s.resolve_gray(&g), "q");
}

#[test]
fn blank_image_resolves_to_empty_text() {
    let s = solver(&[("1", 'a')]);
    let g = img(9, 4, vec![255u8; 36]);
    assert_eq!(s.resolve_gray(&g), "");
    let tiny = img(1, 1, vec![255]);
    assert_eq!(s.resolve_gray(&tiny), "");
}

#[test]
fn similarity_fallback_resolves_unknown_glyph() {
    // "1110" is not in the corpus; "1111" scores 3 against it, "0000" only 1.
    let s = solver(&[("1111", 'm'), ("0000", 'z')]);
    let g = img(2, 2, vec![0, 0, 0, 255]);
    assert_eq!(s.resolve_gray(&g), "m");
}

#[test]
fn resolve_image_goes_through_grayscale_conversion() {
    // A dynamic image built from gray pixel values: the conversion must hand
    // the same intensities to segmentation.
    let s = solver(&[("1101", 'x')]);
    let buffer = image::GrayImage::from_raw(2, 2, vec![0, 0, 255, 0]).unwrap();
    let dynamic = image::DynamicImage::ImageLuma8(buffer);
    assert_eq!(s.resolve_image(&dynamic), "x");
}

#[test]
fn resolve_image_of_white_image_is_empty() {
    let s = solver(&[("1", 'a')]);
    let buffer = image::GrayImage::from_raw(5, 3, vec![255u8; 15]).unwrap();
    let dynamic = image::DynamicImage::ImageLuma8(buffer);
    assert_eq!(s.resolve_image(&dynamic), "");
}

#[test]
fn end_to_end_six_distinct_letters() {
    // Six two-column glyphs with distinct patterns spelling "letter"; every
    // glyph column holds ink, so each glyph is one region.
    let glyphs: [(&str, char); 4] = [
        ("1001", 'L'),
        ("1101", 'E'),
        ("1110", 'T'),
        ("0111", 'R'),
    ];
    let s = solver(&glyphs);
    // Each glyph is 2 columns x 2 rows; glyph columns and blank separators.
    let word = ["1001", "1101", "1110", "1110", "1101", "0111"];
    let width = 6 * 2 + 5;
    let height = 2;
    let mut pixels = vec![255u8; width * height];
    for (gi, fp) in word.iter().enumerate() {
        let x0 = gi * 3;
        let fp: Vec<u8> = fp.bytes().collect();
        for y in 0..height {
            for x in 0..2 {
                let v = if fp[y * 2 + x] == b'1' { 0 } else { 255 };
                pixels[y * width + x0 + x] = v;
            }
        }
    }
    let g = img(width, height, pixels);
    assert_eq!(s.resolve_gray(&g), "letter");
}
