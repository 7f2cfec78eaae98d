use cepler::state::{clone_commit, clone_hash, same_hash, CommitHash, DeployState, FileDiff, FileHash, FileState};

fn commit(hex: &str) -> CommitHash {
    CommitHash::new(hex.to_string())
}

fn file(hash: Option<&str>, dirty: bool, from: &str, message: &str) -> FileState {
    FileState {
        file_hash: hash.map(|h| FileHash::new(h.to_string())),
        dirty,
        from_commit: commit(from),
        message: message.to_string(),
        propagated: false,
    }
}

fn snapshot(head: &str, files: Vec<(&str, FileState)>) -> DeployState {
    let mut state = DeployState::new(commit(head));
    for (path, f) in files {
        state.files.insert(path.to_string(), f);
    }
    state
}

fn entry(path: &str, current_state: Option<FileState>, added: bool) -> FileDiff {
    FileDiff { path: path.to_string(), current_state, added }
}

#[test]
fn short_ref_keeps_the_first_seven_characters() {
    let c = commit("0123456789abcdef0123456789abcdef01234567");
    assert_eq!(c.to_short_ref(), "0123456");
    assert_eq!(c.as_str(), "0123456789abcdef0123456789abcdef01234567");
}

#[test]
fn short_ref_of_a_short_hash_is_the_hash() {
    assert_eq!(commit("abc").to_short_ref(), "abc");
    assert_eq!(commit("abcdefg").to_short_ref(), "abcdefg");
    assert_eq!(commit("").to_short_ref(), "");
}

#[test]
fn commits_are_the_same_when_their_text_is() {
    assert!(commit("abc").same(&commit("abc")));
    assert!(!commit("abc").same(&commit("abd")));
    assert_eq!(commit("abc").clone(), commit("abc"));
    assert_eq!(clone_commit(&Some(commit("abc"))), Some(commit("abc")));
    assert_eq!(clone_commit(&None), None);
}

#[test]
fn hashes_compare_by_text_and_presence() {
    let h1 = Some(FileHash::new("H1".to_string()));
    let h2 = Some(FileHash::new("H2".to_string()));
    assert!(same_hash(&h1, &h1));
    assert!(!same_hash(&h1, &h2));
    assert!(!same_hash(&h1, &None));
    assert!(!same_hash(&None, &h1));
    assert!(same_hash(&None, &None));
    assert_eq!(clone_hash(&h1), h1);
    assert_eq!(clone_hash(&None), None);
    assert_eq!(FileHash::new("H1".to_string()).as_str(), "H1");
    assert!(FileHash::new("H1".to_string()).same(&FileHash::new("H1".to_string())));
}

#[test]
fn file_is_described_by_short_commit_and_subject() {
    let f = file(Some("H1"), false, "0123456789abcdef", "Add a.yml");
    assert_eq!(f.describe(), "[0123456] - Add a.yml");
}

#[test]
fn file_clone_keeps_every_field() {
    let mut f = file(Some("H1"), true, "c1", "msg");
    f.propagated = true;
    assert_eq!(f.clone(), f);
}

#[test]
fn new_snapshot_holds_nothing() {
    let s = DeployState::new(commit("c1"));
    assert_eq!(s.head_commit, commit("c1"));
    assert_eq!(s.propagated_head, None);
    assert!(!s.any_dirty());
    assert_eq!(s.files.len(), 0);
    assert!(!s.has_dirty_file());
}

#[test]
fn any_dirty_is_refreshed_from_the_files() {
    let mut s = snapshot("c1", vec![("a.yml", file(Some("H1"), false, "c1", "m")), ("b.yml", file(Some("H2"), true, "c1", "m"))]);
    assert!(!s.any_dirty());
    assert!(s.has_dirty_file());
    s.refresh_any_dirty();
    assert!(s.any_dirty());
    let mut clean = snapshot("c1", vec![("a.yml", file(Some("H1"), false, "c1", "m"))]);
    clean.any_dirty = true;
    clean.refresh_any_dirty();
    assert!(!clean.any_dirty());
}

#[test]
fn diff_of_a_clean_snapshot_with_itself_is_empty() {
    let s = snapshot("c1", vec![("a.yml", file(Some("H1"), false, "c1", "m")), ("b.yml", file(None, false, "c1", "m"))]);
    assert_eq!(s.diff(&s), Vec::<FileDiff>::new());
}

#[test]
fn diff_of_a_dirty_snapshot_with_itself_reports_the_dirty_file() {
    let s = snapshot("c1", vec![("a.yml", file(Some("H1"), true, "c1", "m")), ("b.yml", file(Some("H2"), false, "c1", "m"))]);
    assert_eq!(s.diff(&s), vec![entry("a.yml", Some(file(Some("H1"), true, "c1", "m")), false)]);
}

#[test]
fn diff_reports_a_path_of_the_new_snapshot_only_as_added() {
    let new = snapshot("c2", vec![("a.yml", file(Some("H1"), false, "c1", "m")), ("b.yml", file(Some("H2"), false, "c2", "n"))]);
    let old = snapshot("c1", vec![("a.yml", file(Some("H1"), false, "c1", "m"))]);
    assert_eq!(new.diff(&old), vec![entry("b.yml", Some(file(Some("H2"), false, "c2", "n")), true)]);
}

#[test]
fn diff_reports_a_changed_fingerprint() {
    let new = snapshot("c2", vec![("a.yml", file(Some("H1b"), false, "c2", "n"))]);
    let old = snapshot("c1", vec![("a.yml", file(Some("H1"), false, "c1", "m"))]);
    assert_eq!(new.diff(&old), vec![entry("a.yml", Some(file(Some("H1b"), false, "c2", "n")), false)]);
}

#[test]
fn diff_reports_a_file_that_is_dirty_on_either_side() {
    let clean = snapshot("c1", vec![("a.yml", file(Some("H1"), false, "c1", "m"))]);
    let dirty = snapshot("c1", vec![("a.yml", file(Some("H1"), true, "c1", "m"))]);
    assert_eq!(dirty.diff(&clean), vec![entry("a.yml", Some(file(Some("H1"), true, "c1", "m")), false)]);
    assert_eq!(clean.diff(&dirty), vec![entry("a.yml", Some(file(Some("H1"), false, "c1", "m")), false)]);
}

#[test]
fn diff_reports_a_path_of_the_old_snapshot_only_as_removed() {
    let new = snapshot("c2", vec![]);
    let old = snapshot("c1", vec![("a.yml", file(Some("H1"), false, "c1", "m")), ("b.yml", file(None, false, "c1", "m"))]);
    assert_eq!(new.diff(&old), vec![entry("a.yml", None, false), entry("b.yml", None, false)]);
}

#[test]
fn diff_has_no_entry_where_both_sides_are_tombstones() {
    let new = snapshot("c2", vec![("a.yml", file(None, true, "c2", "n")), ("b.yml", file(Some("H2"), false, "c1", "m"))]);
    let old = snapshot("c1", vec![("a.yml", file(None, false, "c1", "m")), ("b.yml", file(Some("H2"), false, "c1", "m"))]);
    assert_eq!(new.diff(&old), Vec::<FileDiff>::new());
}

#[test]
fn diff_counts_content_over_a_tombstone_as_added() {
    let new = snapshot("c2", vec![("a.yml", file(Some("H1"), false, "c2", "n"))]);
    let old = snapshot("c1", vec![("a.yml", file(None, false, "c1", "m"))]);
    assert_eq!(new.diff(&old), vec![entry("a.yml", Some(file(Some("H1"), false, "c2", "n")), true)]);
}

#[test]
fn diff_reports_a_tombstone_over_content_as_gone() {
    let new = snapshot("c2", vec![("a.yml", file(None, false, "c2", "n"))]);
    let old = snapshot("c1", vec![("a.yml", file(Some("H1"), false, "c1", "m"))]);
    assert_eq!(new.diff(&old), vec![entry("a.yml", None, false)]);
}

#[test]
fn diff_never_reports_a_tombstone_as_added() {
    let new = snapshot("c2", vec![("a.yml", file(None, false, "c2", "n"))]);
    let old = snapshot("c1", vec![]);
    assert_eq!(new.diff(&old), vec![entry("a.yml", None, false)]);
}

#[test]
fn diff_lists_the_new_paths_first_and_then_the_removed_ones() {
    let new = snapshot("c2", vec![("z.yml", file(Some("HZ"), false, "c2", "n")), ("m.yml", file(Some("HM"), false, "c2", "n"))]);
    let old = snapshot("c1", vec![("y.yml", file(Some("HY"), false, "c1", "m")), ("a.yml", file(Some("HA"), false, "c1", "m"))]);
    assert_eq!(
        new.diff(&old),
        vec![
            entry("m.yml", Some(file(Some("HM"), false, "c2", "n")), true),
            entry("z.yml", Some(file(Some("HZ"), false, "c2", "n")), true),
            entry("a.yml", None, false),
            entry("y.yml", None, false),
        ]
    );
}

#[test]
fn what_is_added_one_way_is_removed_the_other_way() {
    let a = snapshot("c2", vec![("new.yml", file(Some("H1"), false, "c2", "n")), ("back.yml", file(Some("H2"), false, "c2", "n"))]);
    let b = snapshot("c1", vec![("back.yml", file(None, false, "c1", "m"))]);
    let forth = a.diff(&b);
    let back = b.diff(&a);
    let added: Vec<&String> = forth.iter().filter(|d| d.added).map(|d| &d.path).collect();
    assert_eq!(added, vec!["back.yml", "new.yml"]);
    for path in added {
        assert!(back.iter().any(|d| &d.path == path && d.current_state.is_none() && !d.added));
    }
}

#[test]
fn diff_has_one_entry_for_a_path() {
    let new = snapshot("c2", vec![
        ("a.yml", file(Some("H1"), true, "c2", "n")),
        ("b.yml", file(None, false, "c2", "n")),
        ("c.yml", file(Some("H3"), false, "c2", "n")),
    ]);
    let old = snapshot("c1", vec![
        ("a.yml", file(Some("H1"), false, "c1", "m")),
        ("b.yml", file(Some("H2"), false, "c1", "m")),
        ("d.yml", file(Some("H4"), false, "c1", "m")),
    ]);
    let diffs = new.diff(&old);
    let paths: Vec<&str> = diffs.iter().map(|d| d.path.as_str()).collect();
    assert_eq!(paths, vec!["a.yml", "b.yml", "c.yml", "d.yml"]);
}
