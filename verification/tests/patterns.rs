use awooter::pattern::{contains_bytes, matches_any_pattern};

#[test]
fn substring_found_in_middle() {
    let hay = b"R12C7_FCO_SLICE".to_vec();
    let pat = b"FCO_SLICE".to_vec();
    assert!(contains_bytes(&hay, &pat));
}

#[test]
fn substring_found_at_start_and_end() {
    let hay = b"DDR_PAD".to_vec();
    assert!(contains_bytes(&hay, &b"DDR".to_vec()));
    assert!(contains_bytes(&hay, &b"PAD".to_vec()));
    assert!(contains_bytes(&hay, &b"DDR_PAD".to_vec()));
}

#[test]
fn substring_absent() {
    let hay = b"R12C7_FCO_SLICE".to_vec();
    assert!(!contains_bytes(&hay, &b"Q6_SLICE".to_vec()));
    assert!(!contains_bytes(&hay, &b"R12C7_FCO_SLICE_X".to_vec()));
}

#[test]
fn empty_pattern_always_matches() {
    assert!(contains_bytes(&b"abc".to_vec(), &Vec::new()));
    assert!(contains_bytes(&Vec::new(), &Vec::new()));
}

#[test]
fn any_of_several_patterns() {
    let pats = vec![b"FCO_SLICE".to_vec(), b"Q6_SLICE".to_vec(), b"DDR".to_vec()];
    assert!(matches_any_pattern(&b"X1_Q6_SLICE".to_vec(), &pats));
    assert!(matches_any_pattern(&b"DDRDEL".to_vec(), &pats));
    assert!(!matches_any_pattern(&b"PLAIN_WIRE".to_vec(), &pats));
    assert!(!matches_any_pattern(&b"PLAIN_WIRE".to_vec(), &Vec::new()));
}
