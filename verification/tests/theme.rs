use aetheria::theme::hex_to_rgb_triplet;

#[test]
fn hex_to_rgb_triplet_parses_a_normal_hex_color() {
    assert_eq!(hex_to_rgb_triplet("#7c5cff"), "124, 92, 255");
}

#[test]
fn hex_to_rgb_triplet_works_without_the_leading_hash() {
    assert_eq!(hex_to_rgb_triplet("000000"), "0, 0, 0");
}

#[test]
fn hex_to_rgb_triplet_falls_back_to_black_on_invalid_input() {
    assert_eq!(hex_to_rgb_triplet("rgba(0,0,0,1)"), "0, 0, 0");
    assert_eq!(hex_to_rgb_triplet("#fff"), "0, 0, 0");
    assert_eq!(hex_to_rgb_triplet(""), "0, 0, 0");
}

#[test]
fn hex_to_rgb_triplet_accepts_upper_case_and_repeated_hashes() {
    assert_eq!(hex_to_rgb_triplet("##FF8000"), "255, 128, 0");
}

#[test]
fn hex_to_rgb_triplet_reads_a_bad_pair_as_zero() {
    assert_eq!(hex_to_rgb_triplet("#zz10+f"), "0, 16, 15");
}
