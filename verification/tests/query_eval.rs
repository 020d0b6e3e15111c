use wordfind::commands::Command;

fn corpus(words: &[&str]) -> Vec<Vec<char>> {
    words.iter().map(|w| w.chars().collect()).collect()
}

fn run(cmd: &Command, words: &[Vec<char>]) -> Vec<String> {
    let mut out = Vec::new();
    let mut res = cmd.result(words);
    while let Some(w) = res.next() {
        out.push(w.iter().collect::<String>());
    }
    out
}

#[test]
fn end_to_end_prefix_and_length() {
    let words = corpus(&["cat", "cot", "dog", "catalog"]);
    let cmd = Command::parse("0:ca =3", None).unwrap();
    assert_eq!(run(&cmd, &words), vec!["cat".to_string()]);
}

#[test]
fn empty_corpus_yields_nothing() {
    let words = corpus(&[]);
    let cmd = Command::parse("ab", None).unwrap();
    assert_eq!(run(&cmd, &words), Vec::<String>::new());
    let empty_cmd = Command::parse("", None).unwrap();
    assert_eq!(run(&empty_cmd, &words), Vec::<String>::new());
}

#[test]
fn zero_filters_match_every_word() {
    let words = corpus(&["cat", "dog"]);
    let cmd = Command::parse("", None).unwrap();
    assert_eq!(run(&cmd, &words), vec!["cat".to_string(), "dog".to_string()]);
}

#[test]
fn results_preserve_corpus_order() {
    let words = corpus(&["cat", "cot", "dog", "catalog"]);
    let cmd = Command::parse("0:c", None).unwrap();
    assert_eq!(
        run(&cmd, &words),
        vec!["cat".to_string(), "cot".to_string(), "catalog".to_string()]
    );
}

#[test]
fn next_streams_one_match_at_a_time() {
    let words = corpus(&["cat", "cot", "dog", "catalog"]);
    let cmd = Command::parse("0:c", None).unwrap();
    let mut res = cmd.result(&words);
    let first = res.next().unwrap();
    assert_eq!(first.iter().collect::<String>(), "cat");
    let second = res.next().unwrap();
    assert_eq!(second.iter().collect::<String>(), "cot");
    let third = res.next().unwrap();
    assert_eq!(third.iter().collect::<String>(), "catalog");
    assert!(res.next().is_none());
    assert!(res.next().is_none());
}

#[test]
fn evaluation_can_be_abandoned_early() {
    let words = corpus(&["cat", "cot", "dog", "catalog"]);
    let cmd = Command::parse("0:c", None).unwrap();
    let mut res = cmd.result(&words);
    let first = res.next().unwrap();
    assert_eq!(first.iter().collect::<String>(), "cat");
}

#[test]
fn conjunction_requires_every_filter() {
    let words = corpus(&["cat", "cot", "coat", "catalog"]);
    let cmd = Command::parse("0:c =3 *at", None).unwrap();
    assert_eq!(run(&cmd, &words), vec!["cat".to_string()]);
}

#[test]
fn reused_filters_evaluate_in_new_command() {
    let words = corpus(&["cat", "cot", "dog", "catalog"]);
    let a = Command::parse("=3", None).unwrap();
    let b = Command::parse("%0 0:c", Some(&a)).unwrap();
    assert_eq!(run(&b, &words), vec!["cat".to_string(), "cot".to_string()]);
}
