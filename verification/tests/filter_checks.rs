use wordfind::filters::{
    ComparisonType, Filter, FilterErrorKind, LenFilter, MatchFilter, SeqFilter,
};

fn cs(s: &str) -> Vec<char> {
    s.chars().collect()
}

#[test]
fn match_filter_subset_without_wildcards() {
    let f = MatchFilter::from_str(&cs("ab")).unwrap();
    assert!(f.check(&cs("ab")));
    assert!(f.check(&cs("ba")));
    assert!(f.check(&cs("a")));
    assert!(f.check(&cs("")));
    assert!(!f.check(&cs("aab")));
    assert!(!f.check(&cs("abc")));
    assert!(!f.check(&cs("c")));
}

#[test]
fn match_filter_tallies_multiplicity() {
    let f = MatchFilter::from_str(&cs("aab")).unwrap();
    assert!(f.check(&cs("aa")));
    assert!(f.check(&cs("aab")));
    assert!(f.check(&cs("baa")));
    assert!(!f.check(&cs("aaa")));
    assert!(!f.check(&cs("abb")));
}

#[test]
fn match_filter_wildcard_accounting() {
    let f = MatchFilter::from_str(&cs("c*t")).unwrap();
    assert!(f.check(&cs("cat")));
    assert!(f.check(&cs("cot")));
    assert!(f.check(&cs("cut")));
    assert!(!f.check(&cs("coat")));
}

#[test]
fn match_filter_folds_case() {
    let f = MatchFilter::from_str(&cs("AB")).unwrap();
    assert!(f.check(&cs("ab")));
    assert!(f.check(&cs("ba")));
    assert!(!f.check(&cs("abc")));
}

#[test]
fn len_filter_operators() {
    let eq = LenFilter::from_str(&cs("=3")).unwrap();
    assert!(eq.check(&cs("cat")));
    assert!(!eq.check(&cs("cats")));
    assert!(!eq.check(&cs("at")));

    let lt = LenFilter::from_str(&cs("<3")).unwrap();
    assert!(lt.check(&cs("at")));
    assert!(!lt.check(&cs("cat")));

    let gt = LenFilter::from_str(&cs(">3")).unwrap();
    assert!(gt.check(&cs("cats")));
    assert!(!gt.check(&cs("cat")));

    let le = LenFilter::from_str(&cs("<=3")).unwrap();
    assert!(le.check(&cs("cat")));
    assert!(le.check(&cs("at")));
    assert!(!le.check(&cs("cats")));

    let ge = LenFilter::from_str(&cs(">=3")).unwrap();
    assert!(ge.check(&cs("cat")));
    assert!(ge.check(&cs("cats")));
    assert!(!ge.check(&cs("at")));
}

#[test]
fn len_filter_monotone_over_lengths() {
    let le = LenFilter::from_str(&cs("<=4")).unwrap();
    let ge = LenFilter::from_str(&cs(">=4")).unwrap();
    for n in 0..10usize {
        let w: Vec<char> = std::iter::repeat('x').take(n).collect();
        assert_eq!(le.check(&w), n <= 4);
        assert_eq!(ge.check(&w), n >= 4);
    }
}

#[test]
fn len_filter_parse_errors() {
    assert_eq!(
        LenFilter::from_str(&cs("")).unwrap_err().kind,
        FilterErrorKind::EmptyText
    );
    assert_eq!(
        LenFilter::from_str(&cs("x5")).unwrap_err().kind,
        FilterErrorKind::BadOperator
    );
    assert_eq!(
        LenFilter::from_str(&cs("<a")).unwrap_err().kind,
        FilterErrorKind::BadLength
    );
    assert_eq!(
        LenFilter::from_str(&cs("<")).unwrap_err().kind,
        FilterErrorKind::BadLength
    );
    assert_eq!(
        LenFilter::from_str(&cs("=99999999999999999999999999")).unwrap_err().kind,
        FilterErrorKind::BadLength
    );
}

#[test]
fn len_filter_accepts_plus_prefixed_number() {
    let f = LenFilter::from_str(&cs("<+5")).unwrap();
    assert!(f.check(&cs("cat")));
    assert!(!f.check(&cs("united")));
}

#[test]
fn seq_filter_anchored_prefix() {
    let f = SeqFilter::from_str(&cs("0:cat")).unwrap();
    assert!(f.check(&cs("cat")));
    assert!(f.check(&cs("catalog")));
    assert!(!f.check(&cs("bat")));
    assert!(!f.check(&cs("ca")));
}

#[test]
fn seq_filter_inner_offset() {
    let f = SeqFilter::from_str(&cs("2:ing")).unwrap();
    assert!(f.check(&cs("doing")));
    assert!(f.check(&cs("going")));
    assert!(!f.check(&cs("ing")));
    assert!(f.check(&cs("doings")));
}

#[test]
fn seq_filter_empty_offset_means_zero() {
    let f = SeqFilter::from_str(&cs(":cat")).unwrap();
    assert!(f.check(&cs("catalog")));
    assert!(!f.check(&cs("bat")));
}

#[test]
fn seq_filter_empty_pattern_is_length_floor() {
    let f = SeqFilter::from_str(&cs("5:")).unwrap();
    assert!(f.check(&cs("united")));
    assert!(f.check(&cs("fives")));
    assert!(!f.check(&cs("cat")));
}

#[test]
fn seq_filter_huge_offset_matches_nothing() {
    let f = SeqFilter::from_str(&cs("18446744073709551615:x")).unwrap();
    assert!(!f.check(&cs("xxxx")));
    assert!(!f.check(&cs("")));
}

#[test]
fn seq_filter_parse_errors() {
    assert_eq!(
        SeqFilter::from_str(&cs("abc")).unwrap_err().kind,
        FilterErrorKind::BadStart
    );
    assert_eq!(
        SeqFilter::from_str(&cs("123")).unwrap_err().kind,
        FilterErrorKind::MissingPattern
    );
}

#[test]
fn filter_enum_dispatches() {
    let f = Filter::Length(LenFilter::new(ComparisonType::Eq, 3));
    assert!(f.check(&cs("cat")));
    assert!(!f.check(&cs("cats")));
}

#[test]
fn filter_error_descriptions() {
    assert_eq!(
        LenFilter::from_str(&cs("")).unwrap_err().description(),
        "empty string"
    );
    assert_eq!(
        LenFilter::from_str(&cs("q")).unwrap_err().description(),
        "invalid comparison operator"
    );
    assert_eq!(
        LenFilter::from_str(&cs("<z")).unwrap_err().description(),
        "invalid length"
    );
    assert_eq!(
        SeqFilter::from_str(&cs("x:y")).unwrap_err().description(),
        "invalid start index"
    );
    assert_eq!(
        SeqFilter::from_str(&cs("77")).unwrap_err().description(),
        "missing sequence"
    );
}
