use strdist::bitap_bitwise_search;
use strdist::hamming_distance;
use strdist::hamming_distance::BitVec;
use strdist::hamming_distance::BitVecError;
use strdist::lev;
use strdist::osa_distance;
use strdist::wagner_fischer;

#[test]
fn empty_string_boundary() {
    assert_eq!(wagner_fischer("", "abc"), 3);
    assert_eq!(wagner_fischer("abc", ""), 3);
    assert_eq!(wagner_fischer("", ""), 0);
    assert_eq!(lev("", "abc"), 3);
    assert_eq!(lev("abc", ""), 3);
    assert_eq!(lev("", ""), 0);
}

#[test]
fn recursive_and_tabulated_agree() {
    let pairs = [
        ("kitten", "sitting"),
        ("flaw", "lawn"),
        ("ab", "ba"),
        ("", "abc"),
        ("abc", "abc"),
        ("a", "b"),
        ("saturday", "sunday"),
        ("gumbo", "gambol"),
    ];
    for (a, b) in pairs {
        assert_eq!(lev(a, b), wagner_fischer(a, b));
    }
}

#[test]
fn known_edit_distances() {
    assert_eq!(wagner_fischer("kitten", "sitting"), 3);
    assert_eq!(wagner_fischer("saturday", "sunday"), 3);
    assert_eq!(wagner_fischer("flaw", "lawn"), 2);
    assert_eq!(wagner_fischer("a", "b"), 1);
}

#[test]
fn identity_is_zero() {
    assert_eq!(wagner_fischer("distance", "distance"), 0);
    assert_eq!(lev("distance", "distance"), 0);
    assert_eq!(osa_distance("distance", "distance"), 0);
}

#[test]
fn distance_is_symmetric() {
    let pairs = [("kitten", "sitting"), ("", "abc"), ("flaw", "lawn")];
    for (a, b) in pairs {
        assert_eq!(wagner_fischer(a, b), wagner_fischer(b, a));
    }
    assert_eq!(
        hamming_distance("00000000", "11111111"),
        hamming_distance("11111111", "00000000")
    );
}

#[test]
fn bounded_by_sum_of_lengths() {
    let pairs = [("kitten", "sitting"), ("", "abc"), ("ab", "ba"), ("xyz", "abcdef")];
    for (a, b) in pairs {
        assert!(wagner_fischer(a, b) <= a.len() + b.len());
    }
}

#[test]
fn hamming_counts_differing_positions() {
    assert_eq!(hamming_distance("00000000", "11111111"), 8);
    assert_eq!(hamming_distance("01010101", "01010101"), 0);
    assert_eq!(hamming_distance("  01010101 ", "01010100"), 1);
}

#[test]
fn hamming_parse_rejects_wrong_length() {
    let r: Result<BitVec<8>, BitVecError> = BitVec::from_str("0102");
    assert!(matches!(r, Err(BitVecError::InvalidLength)));
}

#[test]
fn hamming_parse_rejects_bad_symbol() {
    let r: Result<BitVec<8>, BitVecError> = BitVec::from_str("0000000a");
    assert!(matches!(r, Err(BitVecError::InvalidValue)));
}

#[test]
fn hamming_parse_accepts_valid_input() {
    let r: Result<BitVec<8>, BitVecError> = BitVec::from_str("01101001");
    assert!(r.is_ok());
}

#[test]
fn bitvec_distance_from_raw_symbols() {
    let a: BitVec<4> = BitVec::new([b'0', b'1', b'0', b'1']);
    let b: BitVec<4> = BitVec::new([b'0', b'0', b'1', b'1']);
    assert_eq!(a.hamming_distance(&b), 2);
}

#[test]
fn error_messages() {
    assert_eq!(
        BitVecError::InvalidLength.message(),
        "Invalid Length for BitVec"
    );
    assert_eq!(
        BitVecError::InvalidValue.message(),
        "Invalid value for BitVec - elements can only be 0 or 1"
    );
}

#[test]
fn transposition_distinguishes_osa_from_wagner_fischer() {
    assert_eq!(osa_distance("ab", "ba"), 1);
    assert_eq!(wagner_fischer("ab", "ba"), 2);
}

#[test]
fn osa_known_distances() {
    assert_eq!(osa_distance("abcd", "acbd"), 1);
    assert_eq!(osa_distance("ca", "abc"), 3);
    assert_eq!(osa_distance("kitten", "sitting"), 3);
    assert_eq!(osa_distance("", "abc"), 3);
    assert_eq!(osa_distance("abc", ""), 3);
}

#[test]
fn bitap_finds_first_match() {
    assert_eq!(bitap_bitwise_search("hello world", "world"), Some(6));
    assert_eq!(bitap_bitwise_search("abcabc", "bca"), Some(1));
    assert_eq!(bitap_bitwise_search("xworldx", "world"), Some(1));
}

#[test]
fn bitap_reports_absence() {
    assert_eq!(bitap_bitwise_search("abc", "xyz"), None);
}

#[test]
fn bitap_empty_pattern_matches_at_start() {
    assert_eq!(bitap_bitwise_search("anything", ""), Some(0));
}

#[test]
fn bitap_declines_long_pattern() {
    let pattern = "a".repeat(32);
    let text = "a".repeat(40);
    assert_eq!(bitap_bitwise_search(&text, &pattern), None);
}

#[test]
fn bitap_accepts_31_byte_pattern() {
    let pattern = "a".repeat(31);
    let text = format!("x{}", pattern);
    assert_eq!(bitap_bitwise_search(&text, &pattern), Some(1));
    assert_eq!(bitap_bitwise_search(&pattern, &pattern), Some(0));
}

#[test]
fn distances_are_byte_oriented() {
    // The distances compare UTF-8 bytes, not code points: a two-byte symbol
    // differs from a one-byte symbol in two positions.
    assert_eq!(wagner_fischer("\u{e9}", "e"), 2);
    assert_eq!(lev("\u{e9}", "e"), 2);
}

#[test]
fn hamming_trims_tabs_and_newlines() {
    assert_eq!(hamming_distance("\t00000000\n", "00000001"), 1);
}

#[test]
fn bitap_finds_match_at_offset_zero() {
    assert_eq!(bitap_bitwise_search("world hello", "world"), Some(0));
    assert_eq!(bitap_bitwise_search("aa", "a"), Some(0));
    assert_eq!(bitap_bitwise_search("abc", "abc"), Some(0));
}
