use chip8::audio::{expand_pattern_1bit, frame_chunk_size, samples_needed};
use chip8::colors::parse_colors;

#[test]
fn four_color_override_parses() {
    let c = parse_colors("00AA4400,00FFAA00,00AAAAAA,00000000").unwrap();
    assert_eq!(c, [0x00AA4400, 0x00FFAA00, 0x00AAAAAA, 0x00000000]);
}

#[test]
fn two_color_override_leaves_the_rest_zero() {
    let c = parse_colors("000000,FFFFFF").unwrap();
    assert_eq!(c, [0, 0xFFFFFF, 0, 0]);
}

#[test]
fn mixed_case_digits_parse() {
    let c = parse_colors("aAbBcC,1").unwrap();
    assert_eq!(c, [0xAABBCC, 1, 0, 0]);
}

#[test]
fn extra_segments_are_ignored() {
    let c = parse_colors("1,2,3,4,5,6").unwrap();
    assert_eq!(c, [1, 2, 3, 4]);
}

#[test]
fn malformed_overrides_are_rejected() {
    assert!(parse_colors("").is_none());
    assert!(parse_colors("xyz").is_none());
    assert!(parse_colors("12,,34").is_none());
    assert!(parse_colors("123456,").is_none());
    assert!(parse_colors("1FFFFFFFF").is_none());
}

#[test]
fn nine_digit_value_with_leading_zero_fits() {
    let c = parse_colors("000000001").unwrap();
    assert_eq!(c[0], 1);
}

#[test]
fn alternating_pattern_expands_to_alternating_samples() {
    let pattern = [0xAAu8; 16];
    let samples = expand_pattern_1bit(&pattern);
    assert_eq!(samples.len(), 128);
    for (i, &s) in samples.iter().enumerate() {
        if i % 2 == 0 {
            assert_eq!(s, 10_000);
        } else {
            assert_eq!(s, -10_000);
        }
    }
}

#[test]
fn all_clear_pattern_is_all_negative() {
    let samples = expand_pattern_1bit(&[0u8; 16]);
    assert!(samples.iter().all(|&s| s == -10_000));
}

#[test]
fn sample_counts_follow_duration_and_rate() {
    assert_eq!(samples_needed(1_000_000, 4000), 4000);
    assert_eq!(samples_needed(500_000, 4000), 2000);
    assert_eq!(samples_needed(0, 4000), 0);
    // a 255-step tone at 60 Hz
    assert_eq!(samples_needed(255 * 1_000_000 / 60, 4000), 17_000);
}

#[test]
fn frame_chunks_are_a_fixed_slice_of_the_rate() {
    assert_eq!(frame_chunk_size(4000), 6);
    assert_eq!(frame_chunk_size(48_000), 79);
}
