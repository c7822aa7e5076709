use citygen::name_gen::{ends_with, longest_matching};

#[test]
fn longest_matching_counts_from_first_occurrence() {
    assert_eq!(longest_matching(b"abc", b"xxabcd"), 3);
    assert_eq!(longest_matching(b"abx", b"zabc"), 2);
    assert_eq!(longest_matching(b"q", b"abc"), 0);
    assert_eq!(longest_matching(b"abcdef", b"abc"), 3);
    assert_eq!(longest_matching(b"ab", b"ba"), 1);
    assert_eq!(longest_matching(b"aab", b"xaaab"), 2);
}

#[test]
fn ends_with_answers_false_at_the_first_difference() {
    assert!(!ends_with(b"walking", b"talked"));
    assert!(!ends_with(b"ab", b"b0"));
    assert!(!ends_with(b"x", b"y"));
}
