//! The recorded state of every environment, and the history that each
//! environment keeps for those that propagate from it.

use std::collections::VecDeque;
use vstd::prelude::*;
use vstd::string::StringExecFns;
use crate::ordered_map::{OrderedMap, lemma_ascending_distinct, lemma_entry_at, lemma_put_at,
    sorted_keys};
use crate::paths::{path_parent, state_dir_for, state_dir_of, state_file, state_file_of};
use crate::state::{CommitHash, DeployState, DeployStateView, some_dirty};
use crate::text::{same_text, text_view};

verus! {

/// The views of a sequence of snapshots.
pub open spec fn state_views(states: Seq<DeployState>) -> Seq<DeployStateView> {
    states.map_values(|s: DeployState| s@)
}

/// What is recorded of one environment.
#[derive(Debug, PartialEq, Eq)]
pub struct EnvironmentState {
    /// The snapshot that was recorded last.
    pub current: DeployState,
    /// The environment that this one propagates from.
    pub propagated_from: Option<String>,
    /// Earlier values of `current`, the most recent first.
    pub propagation_queue: VecDeque<DeployState>,
}

pub struct EnvironmentStateView {
    pub current: DeployStateView,
    pub propagated_from: Option<Seq<char>>,
    pub propagation_queue: Seq<DeployStateView>,
}

impl View for EnvironmentState {
    type V = EnvironmentStateView;

    open spec fn view(&self) -> EnvironmentStateView {
        EnvironmentStateView {
            current: self.current@,
            propagated_from: text_view(self.propagated_from),
            propagation_queue: state_views(self.propagation_queue@),
        }
    }
}

impl EnvironmentState {
    pub open spec fn wf(&self) -> bool {
        &&& self.current.wf()
        &&& forall|i: int|
            0 <= i < self.propagation_queue@.len() ==> (#[trigger] self.propagation_queue@[i]).wf()
    }

    /// A copy of this record.
    pub fn duplicate(&self) -> (copy: Self)
        requires
            self.wf(),
        ensures
            copy.wf(),
            copy@ == self@,
    {
        let mut queue: VecDeque<DeployState> = VecDeque::new();
        let n = self.propagation_queue.len();
        let mut i: usize = 0;
        while i < n
            invariant
                self.wf(),
                n == self.propagation_queue@.len(),
                i <= n,
                queue@.len() == i,
                forall|j: int| 0 <= j < i ==> (#[trigger] queue@[j]).wf(),
                forall|j: int| 0 <= j < i ==> (#[trigger] queue@[j])@ == self.propagation_queue@[j]@,
            decreases n - i,
        {
            queue.push_back(self.propagation_queue[i].duplicate());
            i += 1;
        }
        let copy = EnvironmentState {
            current: self.current.duplicate(),
            propagated_from: match &self.propagated_from {
                Some(upstream) => Some(upstream.clone()),
                None => None,
            },
            propagation_queue: queue,
        };
        assert(copy@.propagation_queue =~= self@.propagation_queue);
        copy
    }

    /// The record of an environment whose first snapshot is `current`.
    pub fn new(current: DeployState, propagated_from: Option<String>) -> (e: Self)
        requires
            current.wf(),
        ensures
            e.wf(),
            e@ == (EnvironmentStateView {
                current: current@,
                propagated_from: text_view(propagated_from),
                propagation_queue: Seq::empty(),
            }),
    {
        let e = EnvironmentState { current, propagated_from, propagation_queue: VecDeque::new() };
        assert(e@.propagation_queue =~= Seq::empty());
        e
    }
}

/// The first position at or after `from` whose snapshot was taken at
/// `head`; the length of the queue where there is none.
pub open spec fn next_with_head(queue: Seq<DeployStateView>, head: Seq<char>, from: int) -> int
    decreases queue.len() - from,
{
    if from < 0 || from >= queue.len() {
        queue.len() as int
    } else if queue[from].head_commit == head {
        from
    } else {
        next_with_head(queue, head, from + 1)
    }
}

/// The upstream snapshot that a downstream which last consumed `head`
/// picks up next.
///
/// Where `head` is the upstream's current snapshot, or the upstream has
/// no history, that is the current snapshot. Else it is the snapshot that
/// superseded the one taken at `head`: the current one where `head` is
/// the newest of the history, the one just before it in the history
/// otherwise. Where the history does not hold `head` at all, it is the
/// oldest snapshot of the history.
pub open spec fn target_after(upstream: EnvironmentStateView, head: Seq<char>) -> DeployStateView {
    let queue = upstream.propagation_queue;
    if head == upstream.current.head_commit || queue.len() == 0 {
        upstream.current
    } else {
        let i = next_with_head(queue, head, 0);
        if i == 0 {
            upstream.current
        } else {
            queue[i - 1]
        }
    }
}

/// The upstream snapshot that `env` propagates from next: none where the
/// upstream was never recorded; its current snapshot where `env` was
/// never recorded or has consumed nothing yet.
pub open spec fn target_state(
    envs: Map<Seq<char>, EnvironmentStateView>,
    env: Seq<char>,
    upstream: Seq<char>,
) -> Option<DeployStateView> {
    if !envs.contains_key(upstream) {
        None
    } else if !envs.contains_key(env) {
        Some(envs[upstream].current)
    } else {
        match envs[env].current.propagated_head {
            None => Some(envs[upstream].current),
            Some(head) => Some(target_after(envs[upstream], head)),
        }
    }
}

/// The snapshot that the environment `env_name` has consumed of the
/// environment `name`, where it is another environment that propagates
/// from `name` and has consumed one.
pub open spec fn downstream_target(
    name: Seq<char>,
    env_name: Seq<char>,
    env: EnvironmentStateView,
) -> Option<Seq<char>> {
    if env_name == name || env.propagated_from != Some(name) {
        None
    } else {
        env.current.propagated_head
    }
}

/// How much of `queue` stays once a downstream that consumed `target` is
/// taken into account, where `keep` stays already: the history is walked
/// from `keep` on up to the first snapshot taken at `target`, and what was
/// walked over stays. A downstream that consumed the current snapshot asks
/// for nothing.
pub open spec fn keep_for(
    queue: Seq<DeployStateView>,
    current_head: Seq<char>,
    keep: int,
    target: Option<Seq<char>>,
) -> int {
    match target {
        None => keep,
        Some(t) => if t == current_head {
            keep
        } else {
            next_with_head(queue, t, keep)
        },
    }
}

/// How much of the history of `name` stays once the environments `names`
/// are taken into account, in their order.
pub open spec fn kept_len(
    envs: Map<Seq<char>, EnvironmentStateView>,
    names: Seq<Seq<char>>,
    name: Seq<char>,
) -> int
    decreases names.len(),
{
    if names.len() == 0 {
        0
    } else {
        keep_for(
            envs[name].propagation_queue,
            envs[name].current.head_commit,
            kept_len(envs, names.drop_last(), name),
            downstream_target(name, names.last(), envs[names.last()]),
        )
    }
}

/// The environments after the history of `name` was pruned: every
/// environment is taken into account in ascending order of the names, and
/// the history keeps its first `kept_len` snapshots.
pub open spec fn pruned(envs: Map<Seq<char>, EnvironmentStateView>, name: Seq<char>) -> Map<
    Seq<char>,
    EnvironmentStateView,
> {
    if !envs.contains_key(name) {
        envs
    } else {
        let e = envs[name];
        let keep = kept_len(envs, sorted_keys(envs.dom()), name);
        envs.insert(
            name,
            EnvironmentStateView { propagation_queue: e.propagation_queue.take(keep), ..e },
        )
    }
}

/// The environments after `state` was put in as the current snapshot of
/// `name`, before the history is pruned. An environment that was recorded
/// before keeps its upstream, and its former snapshot becomes the newest
/// of its history.
pub open spec fn with_current(
    envs: Map<Seq<char>, EnvironmentStateView>,
    name: Seq<char>,
    propagated_from: Option<Seq<char>>,
    state: DeployStateView,
) -> Map<Seq<char>, EnvironmentStateView> {
    let current = DeployStateView { any_dirty: some_dirty(state.files), ..state };
    if envs.contains_key(name) {
        let e = envs[name];
        envs.insert(
            name,
            EnvironmentStateView {
                current,
                propagated_from: e.propagated_from,
                propagation_queue: seq![e.current] + e.propagation_queue,
            },
        )
    } else {
        envs.insert(
            name,
            EnvironmentStateView { current, propagated_from, propagation_queue: Seq::empty() },
        )
    }
}

/// The environments after `state` was recorded for `name`.
pub open spec fn recorded(
    envs: Map<Seq<char>, EnvironmentStateView>,
    name: Seq<char>,
    propagated_from: Option<Seq<char>>,
    state: DeployStateView,
) -> Map<Seq<char>, EnvironmentStateView> {
    pruned(with_current(envs, name, propagated_from, state), name)
}

/// `kept_len` never exceeds the length of the history.
pub proof fn lemma_kept_len_bound(
    envs: Map<Seq<char>, EnvironmentStateView>,
    names: Seq<Seq<char>>,
    name: Seq<char>,
)
    ensures
        0 <= kept_len(envs, names, name) <= envs[name].propagation_queue.len(),
    decreases names.len(),
{
    if names.len() > 0 {
        lemma_kept_len_bound(envs, names.drop_last(), name);
        let k = kept_len(envs, names.drop_last(), name);
        match downstream_target(name, names.last(), envs[names.last()]) {
            Some(t) => {
                lemma_next_with_head_bound(envs[name].propagation_queue, t, k);
            },
            None => {},
        }
    }
}

/// `next_with_head` stays between its start and the length of the queue.
pub proof fn lemma_next_with_head_bound(queue: Seq<DeployStateView>, head: Seq<char>, from: int)
    requires
        0 <= from <= queue.len(),
    ensures
        from <= next_with_head(queue, head, from) <= queue.len(),
        forall|i: int|
            from <= i < next_with_head(queue, head, from) ==> (#[trigger] queue[i]).head_commit
                != head,
        next_with_head(queue, head, from) < queue.len() ==> queue[next_with_head(
            queue,
            head,
            from,
        )].head_commit == head,
    decreases queue.len() - from,
{
    if from < queue.len() && queue[from].head_commit != head {
        lemma_next_with_head_bound(queue, head, from + 1);
    }
}

/// The position in `queue`, at or after `from`, of the first snapshot
/// taken at `head`.
pub fn find_head(queue: &VecDeque<DeployState>, head: &CommitHash, from: usize) -> (at: usize)
    requires
        from <= queue@.len(),
    ensures
        at == next_with_head(state_views(queue@), head@, from as int),
        from <= at <= queue@.len(),
{
    let ghost views = state_views(queue@);
    let n = queue.len();
    let mut i: usize = from;
    while i < n
        invariant
            n == queue@.len(),
            views == state_views(queue@),
            from <= i <= n,
            next_with_head(views, head@, from as int) == next_with_head(views, head@, i as int),
        decreases n - i,
    {
        if queue[i].head_commit.same(head) {
            return i;
        }
        i += 1;
    }
    i
}

/// The views of the environments, each under its name.
pub open spec fn env_views(envs: Map<Seq<char>, EnvironmentState>) -> Map<
    Seq<char>,
    EnvironmentStateView,
> {
    envs.map_values(|e: EnvironmentState| e@)
}

/// The recorded environments, by name.
#[derive(Debug, PartialEq, Eq)]
pub struct DbState {
    pub environments: OrderedMap<EnvironmentState>,
}

impl View for DbState {
    type V = Map<Seq<char>, EnvironmentStateView>;

    open spec fn view(&self) -> Map<Seq<char>, EnvironmentStateView> {
        env_views(self.environments@)
    }
}

impl DbState {
    pub open spec fn wf(&self) -> bool {
        &&& self.environments.wf()
        &&& forall|i: int|
            0 <= i < self.environments.value_seq().len() ==> (
            #[trigger] self.environments.value_seq()[i]).wf()
    }

    /// The names of the environments, ascending.
    pub open spec fn names(&self) -> Seq<Seq<char>> {
        sorted_keys(self@.dom())
    }

    /// The environments are walked in the order of `names`.
    pub proof fn lemma_names(&self)
        requires
            self.wf(),
        ensures
            self.environments.key_seq() == self.names(),
            self.names().len() == self.environments.value_seq().len(),
            forall|i: int|
                0 <= i < self.names().len() ==> self@.contains_key(#[trigger] self.names()[i])
                    && self@[self.names()[i]] == self.environments.value_seq()[i]@,
    {
        self.environments.lemma_walk_order();
        assert(self@.dom() =~= self.environments@.dom());
        assert forall|i: int| 0 <= i < self.names().len() implies self@.contains_key(
            #[trigger] self.names()[i],
        ) && self@[self.names()[i]] == self.environments.value_seq()[i]@ by {
            lemma_entry_at(self.environments.key_seq(), self.environments.value_seq(), i);
        }
    }

    pub fn new() -> (db: Self)
        ensures
            db.wf(),
            db@ == Map::<Seq<char>, EnvironmentStateView>::empty(),
    {
        let db = DbState { environments: OrderedMap::new() };
        assert(db@ =~= Map::<Seq<char>, EnvironmentStateView>::empty());
        db
    }

    /// The record of the environment `name`.
    pub fn get(&self, name: &str) -> (found: Option<&EnvironmentState>)
        requires
            self.wf(),
        ensures
            match found {
                Some(e) => self@.contains_key(name@) && e@ == self@[name@] && e.wf(),
                None => !self@.contains_key(name@),
            },
    {
        match self.environments.position(name) {
            Some(i) => {
                proof {
                    lemma_entry_at(
                        self.environments.key_seq(),
                        self.environments.value_seq(),
                        i as int,
                    );
                }
                Some(self.environments.value_at(i))
            },
            None => None,
        }
    }

    /// Puts `env` in as the record of `name`, in place of what was there.
    pub fn put(&mut self, name: String, env: EnvironmentState)
        requires
            old(self).wf(),
            env.wf(),
        ensures
            final(self).wf(),
            final(self)@ == old(self)@.insert(name@, env@),
    {
        let ghost keys = self.environments.key_seq();
        let ghost values = self.environments.value_seq();
        self.environments.insert(name, env);
        proof {
            assert(self@ =~= old(self)@.insert(name@, env@));
            assert forall|i: int| 0 <= i < self.environments.value_seq().len() implies (
            #[trigger] self.environments.value_seq()[i]).wf() by {
                lemma_entry_at(self.environments.key_seq(), self.environments.value_seq(), i);
                let k = self.environments.key_seq()[i];
                if k != name@ {
                    assert(old(self).environments@.contains_key(k));
                    let j = keys.index_of(k);
                    assert(values[j].wf());
                }
            }
        }
    }

    /// Puts `state` in as the current snapshot of `name`. An environment
    /// that was recorded before keeps its upstream, and its former
    /// snapshot becomes the newest of its history.
    pub fn record(&mut self, name: &str, propagated_from: Option<String>, state: DeployState)
        requires
            old(self).wf(),
            state.wf(),
        ensures
            final(self).wf(),
            final(self)@ == old(self)@.insert(
                name@,
                if old(self)@.contains_key(name@) {
                    EnvironmentStateView {
                        current: state@,
                        propagated_from: old(self)@[name@].propagated_from,
                        propagation_queue: seq![old(self)@[name@].current] + old(
                            self,
                        )@[name@].propagation_queue,
                    }
                } else {
                    EnvironmentStateView {
                        current: state@,
                        propagated_from: text_view(propagated_from),
                        propagation_queue: Seq::empty(),
                    }
                },
            ),
    {
        match self.environments.position(name) {
            Some(at) => {
                let ghost keys = self.environments.key_seq();
                let ghost values = self.environments.value_seq();
                let mut state = state;
                proof {
                    lemma_entry_at(keys, values, at as int);
                }
                let env = self.environments.value_at_mut(at);
                core::mem::swap(&mut env.current, &mut state);
                env.propagation_queue.push_front(state);
                proof {
                    let put = self.environments.value_seq()[at as int];
                    lemma_put_at(keys, values, at as int, put);
                    assert(put@.propagation_queue =~= seq![values[at as int]@.current]
                        + values[at as int]@.propagation_queue);
                    assert(self@ =~= old(self)@.insert(name@, put@));
                }
            },
            None => {
                self.put(String::from_str(name), EnvironmentState::new(state, propagated_from));
            },
        }
    }

    /// Drops from the history of `name` what no other environment that
    /// propagates from it needs any more. Nothing changes where `name` was
    /// never recorded.
    pub fn prune_propagation_queue(&mut self, name: &str)
        requires
            old(self).wf(),
        ensures
            final(self).wf(),
            final(self)@ == pruned(old(self)@, name@),
    {
        let at = match self.environments.position(name) {
            Some(at) => at,
            None => {
                return ;
            },
        };
        let ghost envs = self@;
        let ghost names = self.names();
        proof {
            self.lemma_names();
            assert(names.take(0) =~= Seq::empty());
        }
        let n = self.environments.len();
        let to_prune = self.environments.value_at(at);
        let mut keep: usize = 0;
        let mut j: usize = 0;
        while j < n
            invariant
                self.wf(),
                envs == self@,
                names == self.names(),
                self.environments.key_seq() == names,
                n == names.len(),
                n == self.environments.value_seq().len(),
                at < n,
                names[at as int] == name@,
                *to_prune == self.environments.value_seq()[at as int],
                envs.contains_key(name@),
                envs[name@] == to_prune@,
                forall|i: int|
                    0 <= i < n ==> envs.contains_key(#[trigger] names[i]) && envs[names[i]]
                        == self.environments.value_seq()[i]@,
                j <= n,
                keep == kept_len(envs, names.take(j as int), name@),
                keep <= to_prune.propagation_queue@.len(),
            decreases n - j,
        {
            let state = self.environments.value_at(j);
            proof {
                assert(names.take(j + 1).drop_last() =~= names.take(j as int));
                assert(names.take(j + 1).last() == names[j as int]);
                lemma_kept_len_bound(envs, names.take(j + 1), name@);
            }
            if j != at {
                proof {
                    lemma_ascending_distinct(names);
                }
                match &state.propagated_from {
                    Some(upstream) => {
                        if same_text(upstream.as_str(), name) {
                            match &state.current.propagated_head {
                                Some(head) => {
                                    if !head.same(&to_prune.current.head_commit) {
                                        keep = find_head(&to_prune.propagation_queue, head, keep);
                                    }
                                },
                                None => {},
                            }
                        }
                    },
                    None => {},
                }
            }
            j += 1;
        }
        let ghost keys = self.environments.key_seq();
        let ghost values = self.environments.value_seq();
        let env = self.environments.value_at_mut(at);
        env.propagation_queue.truncate(keep);
        proof {
            assert(names.take(n as int) =~= names);
            let cut = self.environments.value_seq()[at as int];
            lemma_put_at(keys, values, at as int, cut);
            assert(cut@.propagation_queue =~= envs[name@].propagation_queue.take(keep as int));
            assert(self@ =~= pruned(envs, name@));
        }
    }

    /// The upstream snapshot that `env` propagates from next.
    pub fn get_target_propagated_state(&self, env: &str, propagated_from: &str) -> (target: Option<
        &DeployState,
    >)
        requires
            self.wf(),
        ensures
            match target {
                Some(s) => target_state(self@, env@, propagated_from@) == Some(s@) && s.wf(),
                None => target_state(self@, env@, propagated_from@) is None,
            },
    {
        let from = match self.get(propagated_from) {
            Some(from) => from,
            None => {
                return None;
            },
        };
        let env = match self.get(env) {
            Some(env) => env,
            None => {
                return Some(&from.current);
            },
        };
        match &env.current.propagated_head {
            None => Some(&from.current),
            Some(head) => {
                if head.same(&from.current.head_commit) || from.propagation_queue.len() == 0 {
                    Some(&from.current)
                } else {
                    let i = find_head(&from.propagation_queue, head, 0);
                    if i == 0 {
                        Some(&from.current)
                    } else {
                        Some(&from.propagation_queue[i - 1])
                    }
                }
            },
        }
    }
}

/// The environments that a list of stored records makes up: each under
/// its name, a later record in place of an earlier one of the same name.
pub open spec fn stored_envs(records: Seq<(String, EnvironmentState)>) -> Map<
    Seq<char>,
    EnvironmentStateView,
>
    decreases records.len(),
{
    if records.len() == 0 {
        Map::empty()
    } else {
        stored_envs(records.drop_last()).insert(records.last().0@, records.last().1@)
    }
}

/// `envs` with `state` under `name`, where there is a state.
pub open spec fn with_stored(
    envs: Map<Seq<char>, EnvironmentStateView>,
    name: Seq<char>,
    state: Option<EnvironmentState>,
) -> Map<Seq<char>, EnvironmentStateView> {
    match state {
        Some(e) => envs.insert(name, e@),
        None => envs,
    }
}

/// The recorded environments and the directory that holds their files.
#[derive(Debug, PartialEq, Eq)]
pub struct Database {
    pub state: DbState,
    pub state_dir: String,
}

impl View for Database {
    type V = Map<Seq<char>, EnvironmentStateView>;

    open spec fn view(&self) -> Map<Seq<char>, EnvironmentStateView> {
        self.state@
    }
}

impl Database {
    pub open spec fn wf(&self) -> bool {
        self.state.wf()
    }

    /// The database of the configuration file at `path_to_config`, made of
    /// the records `stored` that were read from its state directory.
    pub fn open(path_to_config: &str, stored: Vec<(String, EnvironmentState)>) -> (db: Self)
        requires
            forall|i: int| 0 <= i < stored@.len() ==> (#[trigger] stored@[i]).1.wf(),
        ensures
            db.wf(),
            db.state_dir@ == state_dir_of(path_parent(path_to_config@)),
            db@ == stored_envs(stored@),
    {
        let mut state = DbState::new();
        let mut stored = stored;
        let ghost all = stored@;
        let mut rest: Vec<(String, EnvironmentState)> = Vec::new();
        while stored.len() > 0
            invariant
                stored@.len() + rest@.len() == all.len(),
                forall|i: int| 0 <= i < stored@.len() ==> stored@[i] == all[i],
                forall|i: int| 0 <= i < rest@.len() ==> rest@[i] == all[all.len() - 1 - i],
            decreases stored@.len(),
        {
            match stored.pop() {
                Some(record) => rest.push(record),
                None => {},
            }
        }
        assert(all.take(0) =~= Seq::empty());
        while rest.len() > 0
            invariant
                state.wf(),
                rest@.len() <= all.len(),
                forall|i: int| 0 <= i < rest@.len() ==> rest@[i] == all[all.len() - 1 - i],
                forall|i: int| 0 <= i < all.len() ==> (#[trigger] all[i]).1.wf(),
                state@ == stored_envs(all.take(all.len() - rest@.len())),
            decreases rest@.len(),
        {
            let ghost k = all.len() - rest@.len();
            match rest.pop() {
                Some(record) => {
                    let (name, env) = record;
                    proof {
                        assert(record == all[k]);
                        assert(all.take(k + 1).drop_last() =~= all.take(k));
                        assert(all.take(k + 1).last() == all[k]);
                    }
                    state.put(name, env);
                },
                None => {},
            }
        }
        assert(all.take(all.len() as int) =~= all);
        Database { state, state_dir: state_dir_for(path_to_config) }
    }

    /// The database that holds what was stored of `env_name` and of the
    /// environment it propagates from, as far as anything was stored.
    pub fn open_env(
        path_to_config: &str,
        env_name: &str,
        env_state: Option<EnvironmentState>,
        propagated_name: Option<&String>,
        propagated_state: Option<EnvironmentState>,
    ) -> (db: Self)
        requires
            env_state matches Some(e) ==> e.wf(),
            propagated_state matches Some(e) ==> e.wf(),
        ensures
            db.wf(),
            db.state_dir@ == state_dir_of(path_parent(path_to_config@)),
            db@ == (match propagated_name {
                Some(upstream) => with_stored(
                    with_stored(Map::empty(), env_name@, env_state),
                    upstream@,
                    propagated_state,
                ),
                None => with_stored(Map::empty(), env_name@, env_state),
            }),
    {
        let mut state = DbState::new();
        match env_state {
            Some(e) => {
                state.put(String::from_str(env_name), e);
            },
            None => {},
        }
        match propagated_name {
            Some(upstream) => {
                match propagated_state {
                    Some(e) => {
                        state.put(upstream.clone(), e);
                    },
                    None => {},
                }
            },
            None => {},
        }
        Database { state, state_dir: state_dir_for(path_to_config) }
    }

    /// The snapshot that was recorded last for `env`.
    pub fn get_current_state(&self, env: &str) -> (current: Option<&DeployState>)
        requires
            self.wf(),
        ensures
            match current {
                Some(s) => self@.contains_key(env@) && s@ == self@[env@].current && s.wf(),
                None => !self@.contains_key(env@),
            },
    {
        match self.state.get(env) {
            Some(e) => Some(&e.current),
            None => None,
        }
    }

    /// The upstream snapshot that `env` propagates from next.
    pub fn get_target_propagated_state(&self, env: &str, propagated_from: &str) -> (target: Option<
        &DeployState,
    >)
        requires
            self.wf(),
        ensures
            match target {
                Some(s) => target_state(self@, env@, propagated_from@) == Some(s@) && s.wf(),
                None => target_state(self@, env@, propagated_from@) is None,
            },
    {
        self.state.get_target_propagated_state(env, propagated_from)
    }

    /// Records `env` as the current snapshot of `name` and prunes the
    /// history of `name`. Hands back the path of the file that holds the
    /// state of `name`.
    pub fn set_current_environment_state(
        &mut self,
        name: String,
        propagated_from: Option<String>,
        env: DeployState,
    ) -> (path: String)
        requires
            old(self).wf(),
            env.wf(),
        ensures
            final(self).wf(),
            final(self)@ == recorded(old(self)@, name@, text_view(propagated_from), env@),
            final(self)@.contains_key(name@),
            final(self)@[name@].current.any_dirty == some_dirty(final(self)@[name@].current.files),
            final(self).state_dir@ == old(self).state_dir@,
            path@ == state_file_of(old(self).state_dir@, name@),
    {
        let mut env = env;
        env.refresh_any_dirty();
        let path = state_file(self.state_dir.as_str(), name.as_str());
        self.state.record(name.as_str(), propagated_from, env);
        self.state.prune_propagation_queue(name.as_str());
        path
    }
}

} // verus!
