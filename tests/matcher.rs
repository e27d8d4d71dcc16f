use primer_pairs::matcher::{ascii_upper, find_bytes, find_with_wildcard};

#[test]
fn find_is_case_insensitive() {
    assert_eq!(find_with_wildcard("acgtACGT", "ACGT"), Some(0));
    assert_eq!(find_with_wildcard("acgtACGT", "acgt"), Some(0));
}

#[test]
fn wildcard_matches_on_either_side() {
    assert_eq!(find_with_wildcard("ACNT", "ACGT"), Some(0));
    assert_eq!(find_with_wildcard("ACGT", "ACNT"), Some(0));
    assert_eq!(find_with_wildcard("ACGT", "acnt"), Some(0));
    assert_eq!(find_with_wildcard("ACgT", "nnnn"), Some(0));
}

#[test]
fn no_match_gives_none() {
    assert_eq!(find_with_wildcard("ACGT", "TTTT"), None);
}

#[test]
fn first_offset_is_returned() {
    assert_eq!(find_with_wildcard("GGACGTACGT", "ACGT"), Some(2));
    assert_eq!(find_with_wildcard("GGACGTCCTTTTGG", "TTTT"), Some(8));
    assert_eq!(find_with_wildcard("TTTA", "TA"), Some(2));
}

#[test]
fn empty_needle_matches_at_zero() {
    assert_eq!(find_with_wildcard("ACGT", ""), Some(0));
    assert_eq!(find_with_wildcard("", ""), Some(0));
}

#[test]
fn longer_needle_never_matches() {
    assert_eq!(find_with_wildcard("ACG", "ACGT"), None);
    assert_eq!(find_with_wildcard("", "A"), None);
}

#[test]
fn equal_length_checked_at_zero_only() {
    assert_eq!(find_with_wildcard("ACGT", "acgt"), Some(0));
    assert_eq!(find_with_wildcard("ACGT", "CGTA"), None);
}

#[test]
fn other_symbols_are_not_folded() {
    assert_eq!(find_with_wildcard("A-C", "A_C"), None);
    assert_eq!(find_bytes(b"xx\x7a", b"Z"), Some(2));
    assert_eq!(find_bytes(b"ab{", b"["), None);
}

#[test]
fn upper_casing_of_bytes() {
    assert_eq!(ascii_upper(b'a'), b'A');
    assert_eq!(ascii_upper(b'z'), b'Z');
    assert_eq!(ascii_upper(b'n'), b'N');
    assert_eq!(ascii_upper(b'G'), b'G');
    assert_eq!(ascii_upper(b'{'), b'{');
    assert_eq!(ascii_upper(b'`'), b'`');
}
