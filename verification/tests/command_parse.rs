use std::rc::Rc;
use wordfind::commands::{Command, CommandErrorKind};
use wordfind::filters::Filter;

fn cs(s: &str) -> Vec<char> {
    s.chars().collect()
}

#[test]
fn parse_splits_on_whitespace() {
    let c = Command::parse("ab   =3\t0:c", None).unwrap();
    assert_eq!(c.filters.len(), 3);
}

#[test]
fn parse_empty_line_gives_empty_command() {
    let c = Command::parse("", None).unwrap();
    assert_eq!(c.filters.len(), 0);
}

#[test]
fn parse_priority_sequence_then_length_then_match() {
    let c = Command::parse("2:ing <5 cat", None).unwrap();
    assert!(matches!(*c.filters[0], Filter::Sequence(_)));
    assert!(matches!(*c.filters[1], Filter::Length(_)));
    assert!(matches!(*c.filters[2], Filter::Match(_)));
}

#[test]
fn backref_reuses_identical_instance() {
    let a = Command::parse("ab =3", None).unwrap();
    let b = Command::parse("%0 >5", Some(&a)).unwrap();
    assert_eq!(b.filters.len(), 2);
    assert!(Rc::ptr_eq(&b.filters[0], &a.filters[0]));
    assert!(!Rc::ptr_eq(&b.filters[1], &a.filters[1]));
    assert!(matches!(*b.filters[1], Filter::Length(_)));

    let c = Command::parse("%1", Some(&a)).unwrap();
    assert_eq!(c.filters.len(), 1);
    assert!(Rc::ptr_eq(&c.filters[0], &a.filters[1]));
    assert!(!Rc::ptr_eq(&c.filters[0], &a.filters[0]));
}

#[test]
fn double_percent_refers_to_own_position() {
    let a = Command::parse("ab =3", None).unwrap();
    let b = Command::parse("xy %%", Some(&a)).unwrap();
    assert!(Rc::ptr_eq(&b.filters[1], &a.filters[1]));
}

#[test]
fn backref_chains_collapse_to_original() {
    let a = Command::parse("ab", None).unwrap();
    let b = Command::parse("%0", Some(&a)).unwrap();
    let c = Command::parse("%0", Some(&b)).unwrap();
    assert!(Rc::ptr_eq(&c.filters[0], &a.filters[0]));
}

#[test]
fn backref_out_of_range_is_an_error() {
    let a = Command::parse("ab", None).unwrap();
    let e = Command::parse("%5", Some(&a)).unwrap_err();
    assert_eq!(e.kind, CommandErrorKind::ReferenceOutOfRange);
    assert_eq!(e.token, cs("%5"));
}

#[test]
fn backref_without_history_is_an_error() {
    let e = Command::parse("%0", None).unwrap_err();
    assert_eq!(e.kind, CommandErrorKind::NoHistory);
    let e2 = Command::parse("ab %%", None).unwrap_err();
    assert_eq!(e2.kind, CommandErrorKind::NoHistory);
    assert_eq!(e2.token, cs("%%"));
}

#[test]
fn malformed_backref_is_an_error_even_without_history() {
    let e = Command::parse("%x", None).unwrap_err();
    assert_eq!(e.kind, CommandErrorKind::BadReference);
    let a = Command::parse("ab", None).unwrap();
    let e2 = Command::parse("%x", Some(&a)).unwrap_err();
    assert_eq!(e2.kind, CommandErrorKind::BadReference);
    let e3 = Command::parse("%", Some(&a)).unwrap_err();
    assert_eq!(e3.kind, CommandErrorKind::BadReference);
}

#[test]
fn backref_accepts_plus_prefixed_index() {
    let a = Command::parse("ab =3", None).unwrap();
    let b = Command::parse("%+1", Some(&a)).unwrap();
    assert!(Rc::ptr_eq(&b.filters[0], &a.filters[1]));
}

#[test]
fn backref_with_overflowing_index_is_malformed() {
    let a = Command::parse("ab", None).unwrap();
    let e = Command::parse("%99999999999999999999999999", Some(&a)).unwrap_err();
    assert_eq!(e.kind, CommandErrorKind::BadReference);
}

#[test]
fn error_aborts_whole_command() {
    let a = Command::parse("ab =3", None).unwrap();
    let e = Command::parse("cd %9 ef", Some(&a)).unwrap_err();
    assert_eq!(e.kind, CommandErrorKind::ReferenceOutOfRange);
    assert_eq!(e.token, cs("%9"));
}

#[test]
fn command_error_descriptions() {
    let e = Command::parse("%x", None).unwrap_err();
    assert_eq!(e.description(), "unable to parse history reference");
    let e2 = Command::parse("%1", None).unwrap_err();
    assert_eq!(e2.description(), "history reference without prior command");
    let a = Command::parse("ab", None).unwrap();
    let e3 = Command::parse("%7", Some(&a)).unwrap_err();
    assert_eq!(
        e3.description(),
        "invalid history reference (index out of bounds)"
    );
}
