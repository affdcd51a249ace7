use refer_lib::extension::extension_matches;

#[test]
fn plain_match() {
    assert!(extension_matches("a.refer", "refer"));
}

#[test]
fn upper_case_name_matches() {
    assert!(extension_matches("a.REFER", "refer"));
}

#[test]
fn upper_case_filter_matches() {
    assert!(extension_matches("a.refer", "REFER"));
}

#[test]
fn mixed_case_matches() {
    assert!(extension_matches("a.ReFeR", "rEfEr"));
}

#[test]
fn other_extension_does_not_match() {
    assert!(!extension_matches("a.txt", "refer"));
}

#[test]
fn no_dot_means_no_extension() {
    assert!(!extension_matches("refer", "refer"));
}

#[test]
fn empty_name_does_not_match() {
    assert!(!extension_matches("", "refer"));
}

#[test]
fn last_dot_decides() {
    assert!(extension_matches("a.b.c", "c"));
    assert!(!extension_matches("a.b.c", "b"));
}

#[test]
fn leading_dot_name_has_extension() {
    assert!(extension_matches(".refer", "refer"));
}

#[test]
fn trailing_dot_matches_empty_filter() {
    assert!(extension_matches("a.", ""));
    assert!(!extension_matches("a", ""));
}

#[test]
fn prefix_of_extension_does_not_match() {
    assert!(!extension_matches("a.refers", "refer"));
    assert!(!extension_matches("a.refe", "refer"));
}

#[test]
fn non_ascii_characters_compare_exactly() {
    assert!(extension_matches("a.r\u{00e9}f", "r\u{00e9}f"));
    assert!(!extension_matches("a.r\u{00e9}f", "r\u{00c9}f"));
}
