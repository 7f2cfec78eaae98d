use cepler::database::{find_head, Database, DbState, EnvironmentState};
use cepler::state::{CommitHash, DeployState, FileHash, FileState};
use std::collections::VecDeque;

fn rc_commit(hex: &str) -> CommitHash {
    CommitHash::new(hex.to_string())
}

fn rc_file(hash: &str, dirty: bool) -> FileState {
    FileState {
        file_hash: Some(FileHash::new(hash.to_string())),
        dirty,
        from_commit: rc_commit("c0"),
        message: "subject".to_string(),
        propagated: false,
    }
}

fn rc_state(head: &str, propagated_head: Option<&str>) -> DeployState {
    let mut state = DeployState::new(rc_commit(head));
    state.propagated_head = propagated_head.map(rc_commit);
    state
}

fn rc_env(current: DeployState, upstream: Option<&str>, queue: Vec<DeployState>) -> EnvironmentState {
    EnvironmentState {
        current,
        propagated_from: upstream.map(|u| u.to_string()),
        propagation_queue: VecDeque::from(queue),
    }
}

fn rc_db(records: Vec<(&str, EnvironmentState)>) -> Database {
    Database::open(
        "cepler.yml",
        records.into_iter().map(|(name, env)| (name.to_string(), env)).collect(),
    )
}

fn rc_heads(db: &Database, name: &str) -> Vec<String> {
    db.state
        .get(name)
        .unwrap()
        .propagation_queue
        .iter()
        .map(|s| s.head_commit.as_str().to_string())
        .collect()
}

#[test]
fn open_keeps_every_record_under_its_name() {
    let db = rc_db(vec![
        ("staging", rc_env(rc_state("s1", Some("d1")), Some("dev"), vec![])),
        ("dev", rc_env(rc_state("d1", None), None, vec![])),
    ]);
    assert_eq!(db.state_dir, ".cepler");
    assert_eq!(db.state.environments.keys(), &vec!["dev".to_string(), "staging".to_string()]);
    assert_eq!(db.get_current_state("dev"), Some(&rc_state("d1", None)));
    assert_eq!(db.get_current_state("staging"), Some(&rc_state("s1", Some("d1"))));
    assert_eq!(db.get_current_state("prod"), None);
}

#[test]
fn open_lets_a_later_record_win() {
    let db = rc_db(vec![
        ("dev", rc_env(rc_state("d1", None), None, vec![])),
        ("dev", rc_env(rc_state("d2", None), None, vec![])),
    ]);
    assert_eq!(db.state.environments.len(), 1);
    assert_eq!(db.get_current_state("dev"), Some(&rc_state("d2", None)));
}

#[test]
fn open_env_holds_the_environment_and_its_upstream() {
    let upstream_name = "dev".to_string();
    let db = Database::open_env(
        "conf/cepler.yml",
        "staging",
        Some(rc_env(rc_state("s1", Some("d1")), Some("dev"), vec![])),
        Some(&upstream_name),
        Some(rc_env(rc_state("d1", None), None, vec![])),
    );
    assert_eq!(db.state_dir, "conf/.cepler");
    assert_eq!(db.get_current_state("staging"), Some(&rc_state("s1", Some("d1"))));
    assert_eq!(db.get_current_state("dev"), Some(&rc_state("d1", None)));
}

#[test]
fn open_env_skips_what_was_not_stored() {
    let upstream_name = "dev".to_string();
    let db = Database::open_env("cepler.yml", "staging", None, Some(&upstream_name), None);
    assert_eq!(db.state.environments.len(), 0);
    let db = Database::open_env(
        "cepler.yml",
        "staging",
        None,
        None,
        Some(rc_env(rc_state("d1", None), None, vec![])),
    );
    assert_eq!(db.state.environments.len(), 0);
}

#[test]
fn find_head_gives_the_first_position_from_the_start() {
    let queue = VecDeque::from(vec![rc_state("c3", None), rc_state("c2", None), rc_state("c3", None)]);
    assert_eq!(find_head(&queue, &rc_commit("c3"), 0), 0);
    assert_eq!(find_head(&queue, &rc_commit("c3"), 1), 2);
    assert_eq!(find_head(&queue, &rc_commit("c2"), 0), 1);
    assert_eq!(find_head(&queue, &rc_commit("c2"), 2), 3);
    assert_eq!(find_head(&queue, &rc_commit("c9"), 0), 3);
    assert_eq!(find_head(&queue, &rc_commit("c3"), 3), 3);
}

#[test]
fn target_is_none_without_the_upstream() {
    let db = rc_db(vec![("staging", rc_env(rc_state("s1", Some("d1")), Some("dev"), vec![]))]);
    assert_eq!(db.get_target_propagated_state("staging", "dev"), None);
    assert_eq!(db.get_target_propagated_state("prod", "dev"), None);
}

#[test]
fn target_is_the_current_snapshot_for_an_unrecorded_environment() {
    let db = rc_db(vec![("dev", rc_env(rc_state("d2", None), None, vec![rc_state("d1", None)]))]);
    assert_eq!(db.get_target_propagated_state("staging", "dev"), Some(&rc_state("d2", None)));
}

#[test]
fn target_is_the_current_snapshot_where_nothing_was_consumed() {
    let db = rc_db(vec![
        ("dev", rc_env(rc_state("d2", None), None, vec![rc_state("d1", None)])),
        ("staging", rc_env(rc_state("s1", None), Some("dev"), vec![])),
    ]);
    assert_eq!(db.get_target_propagated_state("staging", "dev"), Some(&rc_state("d2", None)));
}

#[test]
fn target_is_the_current_snapshot_where_it_was_consumed() {
    let db = rc_db(vec![
        ("dev", rc_env(rc_state("d2", None), None, vec![rc_state("d1", None)])),
        ("staging", rc_env(rc_state("s1", Some("d2")), Some("dev"), vec![])),
    ]);
    assert_eq!(db.get_target_propagated_state("staging", "dev"), Some(&rc_state("d2", None)));
}

#[test]
fn target_is_the_current_snapshot_where_there_is_no_history() {
    let db = rc_db(vec![
        ("dev", rc_env(rc_state("d2", None), None, vec![])),
        ("staging", rc_env(rc_state("s1", Some("d0")), Some("dev"), vec![])),
    ]);
    assert_eq!(db.get_target_propagated_state("staging", "dev"), Some(&rc_state("d2", None)));
}

#[test]
fn target_is_the_current_snapshot_after_the_newest_of_the_history() {
    let db = rc_db(vec![
        ("dev", rc_env(rc_state("d3", None), None, vec![rc_state("d2", None), rc_state("d1", None)])),
        ("staging", rc_env(rc_state("s1", Some("d2")), Some("dev"), vec![])),
    ]);
    assert_eq!(db.get_target_propagated_state("staging", "dev"), Some(&rc_state("d3", None)));
}

#[test]
fn target_is_the_snapshot_that_superseded_the_consumed_one() {
    let db = rc_db(vec![
        ("dev", rc_env(rc_state("d3", None), None, vec![rc_state("d2", None), rc_state("d1", None)])),
        ("staging", rc_env(rc_state("s1", Some("d1")), Some("dev"), vec![])),
    ]);
    assert_eq!(db.get_target_propagated_state("staging", "dev"), Some(&rc_state("d2", None)));
}

#[test]
fn target_is_the_oldest_snapshot_where_the_consumed_one_is_gone() {
    let db = rc_db(vec![
        ("dev", rc_env(rc_state("d4", None), None, vec![rc_state("d3", None), rc_state("d2", None)])),
        ("staging", rc_env(rc_state("s1", Some("d0")), Some("dev"), vec![])),
    ]);
    assert_eq!(db.get_target_propagated_state("staging", "dev"), Some(&rc_state("d2", None)));
}

#[test]
fn first_record_creates_the_environment() {
    let mut db = rc_db(vec![]);
    let path = db.set_current_environment_state("dev".to_string(), Some("none".to_string()), rc_state("d1", None));
    assert_eq!(path, ".cepler/dev.state");
    let env = db.state.get("dev").unwrap();
    assert_eq!(env.current, rc_state("d1", None));
    assert_eq!(env.propagated_from, Some("none".to_string()));
    assert_eq!(env.propagation_queue.len(), 0);
}

#[test]
fn record_refreshes_any_dirty() {
    let mut db = rc_db(vec![]);
    let mut dirty = rc_state("d1", None);
    dirty.files.insert("a.yml".to_string(), rc_file("H1", true));
    db.set_current_environment_state("dev".to_string(), None, dirty);
    assert!(db.get_current_state("dev").unwrap().any_dirty());
    let mut clean = rc_state("d2", None);
    clean.files.insert("a.yml".to_string(), rc_file("H1", false));
    clean.any_dirty = true;
    db.set_current_environment_state("dev".to_string(), None, clean);
    assert!(!db.get_current_state("dev").unwrap().any_dirty());
}

#[test]
fn later_record_keeps_the_upstream_that_was_recorded_first() {
    let mut db = rc_db(vec![("dev", rc_env(rc_state("d1", None), None, vec![]))]);
    db.set_current_environment_state("staging".to_string(), Some("dev".to_string()), rc_state("s1", Some("d1")));
    db.set_current_environment_state("staging".to_string(), None, rc_state("s2", Some("d1")));
    let env = db.state.get("staging").unwrap();
    assert_eq!(env.propagated_from, Some("dev".to_string()));
    assert_eq!(env.current, rc_state("s2", Some("d1")));
}

#[test]
fn history_is_dropped_where_no_one_propagates() {
    let mut db = rc_db(vec![]);
    db.set_current_environment_state("dev".to_string(), None, rc_state("d1", None));
    db.set_current_environment_state("dev".to_string(), None, rc_state("d2", None));
    assert_eq!(rc_heads(&db, "dev"), Vec::<String>::new());
    assert_eq!(db.get_current_state("dev"), Some(&rc_state("d2", None)));
}

#[test]
fn history_keeps_what_is_newer_than_what_a_downstream_consumed() {
    let mut db = rc_db(vec![
        ("dev", rc_env(rc_state("d1", None), None, vec![])),
        ("staging", rc_env(rc_state("s1", Some("d1")), Some("dev"), vec![])),
    ]);
    db.set_current_environment_state("dev".to_string(), None, rc_state("d2", None));
    assert_eq!(rc_heads(&db, "dev"), Vec::<String>::new());
    assert_eq!(db.get_target_propagated_state("staging", "dev"), Some(&rc_state("d2", None)));
    db.set_current_environment_state("dev".to_string(), None, rc_state("d3", None));
    assert_eq!(rc_heads(&db, "dev"), vec!["d2".to_string()]);
    assert_eq!(db.get_target_propagated_state("staging", "dev"), Some(&rc_state("d2", None)));
    db.set_current_environment_state("dev".to_string(), None, rc_state("d4", None));
    assert_eq!(rc_heads(&db, "dev"), vec!["d3".to_string(), "d2".to_string()]);
    assert_eq!(db.get_target_propagated_state("staging", "dev"), Some(&rc_state("d2", None)));
}

#[test]
fn recording_the_downstream_does_not_touch_the_upstream_history() {
    let mut db = rc_db(vec![
        ("dev", rc_env(rc_state("d3", None), None, vec![rc_state("d2", None)])),
        ("staging", rc_env(rc_state("s1", Some("d1")), Some("dev"), vec![])),
    ]);
    db.set_current_environment_state("staging".to_string(), None, rc_state("s2", Some("d2")));
    assert_eq!(rc_heads(&db, "dev"), vec!["d2".to_string()]);
    assert_eq!(rc_heads(&db, "staging"), Vec::<String>::new());
}

#[test]
fn prune_drops_what_every_downstream_is_past() {
    let mut state = DbState::new();
    state.put(
        "dev".to_string(),
        rc_env(rc_state("d4", None), None, vec![rc_state("d3", None), rc_state("d2", None), rc_state("d1", None)]),
    );
    state.put("staging".to_string(), rc_env(rc_state("s1", Some("d2")), Some("dev"), vec![]));
    state.prune_propagation_queue("dev");
    let heads: Vec<&str> = state.get("dev").unwrap().propagation_queue.iter().map(|s| s.head_commit.as_str()).collect();
    assert_eq!(heads, vec!["d3"]);
    assert_eq!(state.get_target_propagated_state("staging", "dev"), Some(&rc_state("d3", None)));
}

#[test]
fn prune_keeps_everything_for_a_downstream_that_is_behind_the_history() {
    let mut state = DbState::new();
    state.put("dev".to_string(), rc_env(rc_state("d4", None), None, vec![rc_state("d3", None), rc_state("d2", None)]));
    state.put("staging".to_string(), rc_env(rc_state("s1", Some("d0")), Some("dev"), vec![]));
    state.prune_propagation_queue("dev");
    assert_eq!(state.get("dev").unwrap().propagation_queue.len(), 2);
    assert_eq!(state.get_target_propagated_state("staging", "dev"), Some(&rc_state("d2", None)));
}

#[test]
fn prune_ignores_whoever_consumed_the_current_snapshot_or_nothing() {
    let mut state = DbState::new();
    state.put("dev".to_string(), rc_env(rc_state("d3", None), None, vec![rc_state("d2", None), rc_state("d1", None)]));
    state.put("prod".to_string(), rc_env(rc_state("p1", None), Some("dev"), vec![]));
    state.put("staging".to_string(), rc_env(rc_state("s1", Some("d3")), Some("dev"), vec![]));
    state.prune_propagation_queue("dev");
    assert_eq!(state.get("dev").unwrap().propagation_queue.len(), 0);
}

#[test]
fn prune_ignores_environments_with_another_upstream_and_itself() {
    let mut state = DbState::new();
    state.put("dev".to_string(), rc_env(rc_state("d3", Some("d1")), Some("dev"), vec![rc_state("d2", None), rc_state("d1", None)]));
    state.put("other".to_string(), rc_env(rc_state("o1", Some("d1")), Some("elsewhere"), vec![]));
    state.prune_propagation_queue("dev");
    assert_eq!(state.get("dev").unwrap().propagation_queue.len(), 0);
}

#[test]
fn prune_takes_the_downstreams_in_the_order_of_their_names() {
    let mut state = DbState::new();
    state.put("dev".to_string(), rc_env(rc_state("d3", None), None, vec![rc_state("d2", None), rc_state("d1", None)]));
    state.put("a".to_string(), rc_env(rc_state("a1", Some("d1")), Some("dev"), vec![]));
    state.put("b".to_string(), rc_env(rc_state("b1", Some("d2")), Some("dev"), vec![]));
    state.prune_propagation_queue("dev");
    assert_eq!(state.get("dev").unwrap().propagation_queue.len(), 2);

    let mut state = DbState::new();
    state.put("dev".to_string(), rc_env(rc_state("d3", None), None, vec![rc_state("d2", None), rc_state("d1", None)]));
    state.put("a".to_string(), rc_env(rc_state("a1", Some("d2")), Some("dev"), vec![]));
    state.put("b".to_string(), rc_env(rc_state("b1", Some("d1")), Some("dev"), vec![]));
    state.prune_propagation_queue("dev");
    assert_eq!(state.get("dev").unwrap().propagation_queue.len(), 1);
}

#[test]
fn prune_of_an_unrecorded_environment_changes_nothing() {
    let mut state = DbState::new();
    state.put("dev".to_string(), rc_env(rc_state("d2", None), None, vec![rc_state("d1", None)]));
    state.prune_propagation_queue("staging");
    assert_eq!(state.get("dev").unwrap().propagation_queue.len(), 1);
    assert!(state.get("staging").is_none());
}

#[test]
fn prune_leaves_every_downstream_its_target() {
    let history = vec![rc_state("d5", None), rc_state("d4", None), rc_state("d3", None), rc_state("d2", None), rc_state("d1", None)];
    for consumed in ["d1", "d2", "d3", "d4", "d5", "d6", "d0"] {
        for other in ["d1", "d3", "d5", "d0"] {
            let mut state = DbState::new();
            state.put("dev".to_string(), rc_env(rc_state("d6", None), None, history.iter().map(|s| rc_state(s.head_commit.as_str(), None)).collect()));
            state.put("staging".to_string(), rc_env(rc_state("s1", Some(consumed)), Some("dev"), vec![]));
            state.put("prod".to_string(), rc_env(rc_state("p1", Some(other)), Some("dev"), vec![]));
            let before_staging = state.get_target_propagated_state("staging", "dev").map(|s| s.head_commit.as_str().to_string());
            let before_prod = state.get_target_propagated_state("prod", "dev").map(|s| s.head_commit.as_str().to_string());
            state.prune_propagation_queue("dev");
            let after_staging = state.get_target_propagated_state("staging", "dev").map(|s| s.head_commit.as_str().to_string());
            let after_prod = state.get_target_propagated_state("prod", "dev").map(|s| s.head_commit.as_str().to_string());
            assert!(before_staging.is_some());
            assert_eq!(before_staging, after_staging);
            assert_eq!(before_prod, after_prod);
        }
    }
}

#[test]
fn record_puts_the_former_snapshot_first_in_the_history() {
    let mut state = DbState::new();
    state.put("dev".to_string(), rc_env(rc_state("d2", None), None, vec![rc_state("d1", None)]));
    state.record("dev", Some("ignored".to_string()), rc_state("d3", None));
    let env = state.get("dev").unwrap();
    assert_eq!(env.current, rc_state("d3", None));
    assert_eq!(env.propagated_from, None);
    let heads: Vec<&str> = env.propagation_queue.iter().map(|s| s.head_commit.as_str()).collect();
    assert_eq!(heads, vec!["d2", "d1"]);
    state.record("qa", Some("dev".to_string()), rc_state("q1", Some("d3")));
    let qa = state.get("qa").unwrap();
    assert_eq!(qa.propagated_from, Some("dev".to_string()));
    assert_eq!(qa.propagation_queue.len(), 0);
}
