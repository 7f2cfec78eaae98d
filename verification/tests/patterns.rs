use cepler::pattern::{any_matches, compile_all, match_each};

fn pt_list(items: &[&str]) -> Vec<String> {
    items.iter().map(|s| s.to_string()).collect()
}

#[test]
fn star_matches_within_a_name() {
    assert_eq!(any_matches(&pt_list(&["*.yml"]), "a.yml"), Some(true));
    assert_eq!(any_matches(&pt_list(&["*.yml"]), "a.txt"), Some(false));
    assert_eq!(any_matches(&pt_list(&["*.yml"]), "*.yml"), Some(true));
}

#[test]
fn one_matching_pattern_is_enough() {
    assert_eq!(any_matches(&pt_list(&["*.txt", "conf/*", "b.yml"]), "conf/app.yml"), Some(true));
    assert_eq!(any_matches(&pt_list(&["*.txt", "conf/*", "b.yml"]), "b.yml"), Some(true));
    assert_eq!(any_matches(&pt_list(&["*.txt", "conf/*", "b.yml"]), "c.yml"), Some(false));
}

#[test]
fn no_pattern_matches_nothing() {
    assert_eq!(any_matches(&pt_list(&[]), "a.yml"), Some(false));
}

#[test]
fn question_mark_and_brackets_match_one_character() {
    assert_eq!(any_matches(&pt_list(&["c?t"]), "cat"), Some(true));
    assert_eq!(any_matches(&pt_list(&["c?t"]), "cart"), Some(false));
    assert_eq!(any_matches(&pt_list(&["k[!e]tteh"]), "kitteh"), Some(true));
    assert_eq!(any_matches(&pt_list(&["k[!e]tteh"]), "ketteh"), Some(false));
}

#[test]
fn a_pattern_that_does_not_compile_gives_no_answer() {
    assert_eq!(any_matches(&pt_list(&["a**b"]), "ab"), None);
    assert_eq!(any_matches(&pt_list(&["*.yml", "abc[def"]), "a.yml"), None);
    assert_eq!(any_matches(&pt_list(&["abc[def", "*.yml"]), "a.yml"), None);
}

#[test]
fn compile_all_tells_whether_every_pattern_compiles() {
    assert!(compile_all(&pt_list(&[])));
    assert!(compile_all(&pt_list(&["*.yml", "conf/**/*.json", ".git/*"])));
    assert!(!compile_all(&pt_list(&["*.yml", "a/***"])));
    assert!(!compile_all(&pt_list(&["abc["])));
}

#[test]
fn match_each_answers_for_every_path() {
    let flags = match_each(&pt_list(&["*.yml", "keep.txt"]), &pt_list(&["a.yml", "b.txt", "keep.txt", "c.yml"]));
    assert_eq!(flags, Some(vec![true, false, true, true]));
    assert_eq!(match_each(&pt_list(&["*.yml"]), &pt_list(&[])), Some(vec![]));
}

#[test]
fn match_each_gives_no_answer_for_a_bad_pattern_even_without_paths() {
    assert_eq!(match_each(&pt_list(&["a**b"]), &pt_list(&[])), None);
    assert_eq!(match_each(&pt_list(&["a**b"]), &pt_list(&["ab"])), None);
}
