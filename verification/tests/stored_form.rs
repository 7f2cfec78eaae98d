use cepler::database::EnvironmentState;
use cepler::ordered_map::OrderedMap;
use cepler::paths::{state_dir_for, state_dir_in, state_file};
use cepler::persisted::{move_in, PersistedDeployState, PersistedEnvironmentState, StoredFileState};
use cepler::state::{CommitHash, DeployState, FileHash, FileState};
use std::collections::VecDeque;

fn sf_file(hash: Option<&str>, dirty: bool, propagated: bool) -> FileState {
    FileState {
        file_hash: hash.map(|h| FileHash::new(h.to_string())),
        dirty,
        from_commit: CommitHash::new("c1".to_string()),
        message: "subject".to_string(),
        propagated,
    }
}

fn sf_stored(hash: Option<&str>, dirty: bool) -> StoredFileState {
    StoredFileState {
        file_hash: hash.map(|h| FileHash::new(h.to_string())),
        dirty,
        from_commit: CommitHash::new("c1".to_string()),
        message: "subject".to_string(),
    }
}

fn sf_state(head: &str) -> DeployState {
    let mut state = DeployState::new(CommitHash::new(head.to_string()));
    state.propagated_head = Some(CommitHash::new("up".to_string()));
    state.any_dirty = true;
    state.files.insert("a.yml".to_string(), sf_file(Some("H1"), false, false));
    state.files.insert("b.yml".to_string(), sf_file(Some("H2"), true, true));
    state.files.insert("c.yml".to_string(), sf_file(None, false, true));
    state.files.insert("d.yml".to_string(), sf_file(None, false, false));
    state
}

#[test]
fn stored_file_drops_the_flag_and_nothing_else() {
    assert_eq!(StoredFileState::from(sf_file(Some("H1"), true, true)), sf_stored(Some("H1"), true));
    assert_eq!(StoredFileState::from(sf_file(None, false, false)), sf_stored(None, false));
}

#[test]
fn stored_file_gets_the_flag_of_its_bucket() {
    assert_eq!(sf_stored(Some("H1"), true).into_file(true), sf_file(Some("H1"), true, true));
    assert_eq!(sf_stored(None, false).into_file(false), sf_file(None, false, false));
}

#[test]
fn stored_form_splits_the_files_by_their_flag() {
    let p = PersistedDeployState::from(sf_state("c9"));
    assert_eq!(p.head_commit, CommitHash::new("c9".to_string()));
    assert_eq!(p.propagated_head, Some(CommitHash::new("up".to_string())));
    assert!(p.any_dirty);
    assert_eq!(p.propagated.keys(), &vec!["b.yml".to_string(), "c.yml".to_string()]);
    assert_eq!(p.latest.keys(), &vec!["a.yml".to_string(), "d.yml".to_string()]);
    assert_eq!(p.propagated.get("b.yml"), Some(&sf_stored(Some("H2"), true)));
    assert_eq!(p.propagated.get("c.yml"), Some(&sf_stored(None, false)));
    assert_eq!(p.latest.get("a.yml"), Some(&sf_stored(Some("H1"), false)));
    assert_eq!(p.latest.get("d.yml"), Some(&sf_stored(None, false)));
}

#[test]
fn storing_and_loading_gives_the_snapshot_back() {
    let back = DeployState::from(PersistedDeployState::from(sf_state("c9")));
    assert_eq!(back, sf_state("c9"));
}

#[test]
fn loading_keeps_a_missing_fingerprint() {
    let back = DeployState::from(PersistedDeployState::from(sf_state("c9")));
    assert_eq!(back.files.get("c.yml").unwrap().file_hash, None);
    assert!(back.files.get("c.yml").unwrap().propagated);
    assert!(!back.files.get("d.yml").unwrap().propagated);
}

#[test]
fn loading_lets_the_propagated_bucket_win() {
    let mut propagated: OrderedMap<StoredFileState> = OrderedMap::new();
    propagated.insert("a.yml".to_string(), sf_stored(Some("UP"), false));
    let mut latest: OrderedMap<StoredFileState> = OrderedMap::new();
    latest.insert("a.yml".to_string(), sf_stored(Some("HEAD"), true));
    latest.insert("b.yml".to_string(), sf_stored(Some("H2"), false));
    let state = DeployState::from(PersistedDeployState {
        head_commit: CommitHash::new("c1".to_string()),
        propagated_head: None,
        any_dirty: false,
        propagated,
        latest,
    });
    assert_eq!(state.files.len(), 2);
    assert_eq!(state.files.get("a.yml"), Some(&sf_file(Some("UP"), false, true)));
    assert_eq!(state.files.get("b.yml"), Some(&sf_file(Some("H2"), false, false)));
}

#[test]
fn move_in_puts_a_bucket_over_what_is_there() {
    let mut files: OrderedMap<FileState> = OrderedMap::new();
    files.insert("a.yml".to_string(), sf_file(Some("OLD"), true, false));
    files.insert("z.yml".to_string(), sf_file(Some("HZ"), false, false));
    let mut bucket: OrderedMap<StoredFileState> = OrderedMap::new();
    bucket.insert("a.yml".to_string(), sf_stored(Some("NEW"), false));
    bucket.insert("m.yml".to_string(), sf_stored(None, false));
    move_in(&mut files, bucket, true);
    assert_eq!(files.keys(), &vec!["a.yml".to_string(), "m.yml".to_string(), "z.yml".to_string()]);
    assert_eq!(files.get("a.yml"), Some(&sf_file(Some("NEW"), false, true)));
    assert_eq!(files.get("m.yml"), Some(&sf_file(None, false, true)));
    assert_eq!(files.get("z.yml"), Some(&sf_file(Some("HZ"), false, false)));
}

#[test]
fn storing_and_loading_gives_the_record_of_an_environment_back() {
    let make = || EnvironmentState {
        current: sf_state("c3"),
        propagated_from: Some("dev".to_string()),
        propagation_queue: VecDeque::from(vec![sf_state("c2"), sf_state("c1")]),
    };
    let stored = PersistedEnvironmentState::from(make());
    assert_eq!(stored.propagated_from, Some("dev".to_string()));
    assert_eq!(stored.propagation_queue.len(), 2);
    assert_eq!(stored.propagation_queue[0].head_commit, CommitHash::new("c2".to_string()));
    assert_eq!(stored.propagation_queue[1].head_commit, CommitHash::new("c1".to_string()));
    assert_eq!(stored.current, PersistedDeployState::from(sf_state("c3")));
    assert_eq!(stored.into_env(), make());
}

#[test]
fn state_directory_lies_beside_the_configuration_file() {
    assert_eq!(state_dir_for("cepler.yml"), ".cepler");
    assert_eq!(state_dir_for("conf/cepler.yml"), "conf/.cepler");
    assert_eq!(state_dir_for("/etc/deploy/cepler.yml"), "/etc/deploy/.cepler");
    assert_eq!(state_dir_for("/cepler.yml"), "//.cepler");
}

#[test]
fn state_directory_without_a_directory_part_is_in_the_working_directory() {
    assert_eq!(state_dir_for(""), ".cepler");
    assert_eq!(state_dir_for("/"), ".cepler");
    assert_eq!(state_dir_in(None), ".cepler");
    assert_eq!(state_dir_in(Some("")), ".cepler");
    assert_eq!(state_dir_in(Some("conf")), "conf/.cepler");
}

#[test]
fn state_file_is_named_after_the_environment() {
    assert_eq!(state_file(".cepler", "dev"), ".cepler/dev.state");
    assert_eq!(state_file("conf/.cepler", "staging"), "conf/.cepler/staging.state");
}

#[test]
fn duplicate_of_a_snapshot_is_equal_to_it() {
    assert_eq!(sf_state("c9").duplicate(), sf_state("c9"));
    let empty = DeployState::new(CommitHash::new("c0".to_string()));
    assert_eq!(empty.duplicate(), DeployState::new(CommitHash::new("c0".to_string())));
}

#[test]
fn duplicate_of_a_record_keeps_the_history_in_order() {
    let env = EnvironmentState {
        current: sf_state("c3"),
        propagated_from: Some("dev".to_string()),
        propagation_queue: VecDeque::from(vec![sf_state("c2"), sf_state("c1")]),
    };
    let copy = env.duplicate();
    assert_eq!(copy, env);
    assert_eq!(copy.propagation_queue[0].head_commit, CommitHash::new("c2".to_string()));
}

#[test]
fn persist_names_one_file_for_each_environment() {
    let db = cepler::database::Database::open(
        "conf/cepler.yml",
        vec![
            ("staging".to_string(), EnvironmentState::new(sf_state("s1"), Some("dev".to_string()))),
            ("dev".to_string(), EnvironmentState {
                current: sf_state("d2"),
                propagated_from: None,
                propagation_queue: VecDeque::from(vec![sf_state("d1")]),
            }),
        ],
    );
    let files = db.persist();
    assert_eq!(files.len(), 2);
    assert_eq!(files[0].0, "conf/.cepler/dev.state");
    assert_eq!(files[1].0, "conf/.cepler/staging.state");
    assert_eq!(files[0].1.current, PersistedDeployState::from(sf_state("d2")));
    assert_eq!(files[0].1.propagation_queue, vec![PersistedDeployState::from(sf_state("d1"))]);
    assert_eq!(files[0].1.propagated_from, None);
    assert_eq!(files[1].1.propagated_from, Some("dev".to_string()));
    assert_eq!(db.get_current_state("dev"), Some(&sf_state("d2")));
}

#[test]
fn persist_of_an_empty_database_names_no_file() {
    let db = cepler::database::Database::open("cepler.yml", vec![]);
    assert_eq!(db.persist().len(), 0);
}
