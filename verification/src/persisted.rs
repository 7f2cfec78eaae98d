//! The stored form of a snapshot. It holds the files in two buckets, the
//! propagated ones and the others, and a file says nowhere else which of
//! the two it is.

use std::collections::VecDeque;
use vstd::prelude::*;
use crate::database::{Database, EnvironmentState, EnvironmentStateView};
use crate::paths::{state_file, state_file_of};
use crate::text::text_view;
use crate::ordered_map::{OrderedMap, lemma_ascending_distinct, lemma_entry_at, sorted_keys, texts};
use crate::state::{CommitHash, DeployState, DeployStateView, FileHash, FileState, FileStateView,
    commit_view, file_views, hash_view};

verus! {

/// What is stored of one file.
#[derive(Debug, PartialEq, Eq)]
pub struct StoredFileState {
    pub file_hash: Option<FileHash>,
    pub dirty: bool,
    pub from_commit: CommitHash,
    pub message: String,
}

pub struct StoredFileStateView {
    pub file_hash: Option<Seq<char>>,
    pub dirty: bool,
    pub from_commit: Seq<char>,
    pub message: Seq<char>,
}

impl View for StoredFileState {
    type V = StoredFileStateView;

    open spec fn view(&self) -> StoredFileStateView {
        StoredFileStateView {
            file_hash: hash_view(self.file_hash),
            dirty: self.dirty,
            from_commit: self.from_commit@,
            message: self.message@,
        }
    }
}

/// What is stored of a file.
pub open spec fn stored(f: FileStateView) -> StoredFileStateView {
    StoredFileStateView {
        file_hash: f.file_hash,
        dirty: f.dirty,
        from_commit: f.from_commit,
        message: f.message,
    }
}

/// The file that a stored one stands for, in the bucket of the
/// propagated files or in the other.
pub open spec fn loaded(s: StoredFileStateView, propagated: bool) -> FileStateView {
    FileStateView {
        file_hash: s.file_hash,
        dirty: s.dirty,
        from_commit: s.from_commit,
        message: s.message,
        propagated,
    }
}

impl StoredFileState {
    /// What is stored of `file`.
    pub fn from(file: FileState) -> (s: Self)
        ensures
            s@ == stored(file@),
    {
        StoredFileState {
            file_hash: file.file_hash,
            dirty: file.dirty,
            from_commit: file.from_commit,
            message: file.message,
        }
    }

    /// The file that this stands for.
    pub fn into_file(self, propagated: bool) -> (f: FileState)
        ensures
            f@ == loaded(self@, propagated),
    {
        FileState {
            file_hash: self.file_hash,
            dirty: self.dirty,
            from_commit: self.from_commit,
            message: self.message,
            propagated,
        }
    }
}

/// The views of stored files, each under its path.
pub open spec fn stored_views(files: Map<Seq<char>, StoredFileState>) -> Map<
    Seq<char>,
    StoredFileStateView,
> {
    files.map_values(|s: StoredFileState| s@)
}

/// The stored form of a snapshot.
#[derive(Debug, PartialEq, Eq)]
pub struct PersistedDeployState {
    pub head_commit: CommitHash,
    pub propagated_head: Option<CommitHash>,
    pub any_dirty: bool,
    /// The files that were carried over from the upstream environment.
    pub propagated: OrderedMap<StoredFileState>,
    /// The other files.
    pub latest: OrderedMap<StoredFileState>,
}

pub struct PersistedDeployStateView {
    pub head_commit: Seq<char>,
    pub propagated_head: Option<Seq<char>>,
    pub any_dirty: bool,
    pub propagated: Map<Seq<char>, StoredFileStateView>,
    pub latest: Map<Seq<char>, StoredFileStateView>,
}

impl View for PersistedDeployState {
    type V = PersistedDeployStateView;

    open spec fn view(&self) -> PersistedDeployStateView {
        PersistedDeployStateView {
            head_commit: self.head_commit@,
            propagated_head: commit_view(self.propagated_head),
            any_dirty: self.any_dirty,
            propagated: stored_views(self.propagated@),
            latest: stored_views(self.latest@),
        }
    }
}

/// The files of `files` that are propagated, or those that are not, as
/// they are stored.
pub open spec fn bucket(files: Map<Seq<char>, FileStateView>, propagated: bool) -> Map<
    Seq<char>,
    StoredFileStateView,
> {
    Map::new(
        |p: Seq<char>| files.contains_key(p) && files[p].propagated == propagated,
        |p: Seq<char>| stored(files[p]),
    )
}

/// The stored form of a snapshot: each file in the bucket that its flag
/// names.
pub open spec fn persisted_of(s: DeployStateView) -> PersistedDeployStateView {
    PersistedDeployStateView {
        head_commit: s.head_commit,
        propagated_head: s.propagated_head,
        any_dirty: s.any_dirty,
        propagated: bucket(s.files, true),
        latest: bucket(s.files, false),
    }
}

/// The files that two buckets stand for. A path that both hold is a
/// propagated file.
pub open spec fn merged(
    propagated: Map<Seq<char>, StoredFileStateView>,
    latest: Map<Seq<char>, StoredFileStateView>,
) -> Map<Seq<char>, FileStateView> {
    Map::new(
        |p: Seq<char>| propagated.contains_key(p) || latest.contains_key(p),
        |p: Seq<char>|
            if propagated.contains_key(p) {
                loaded(propagated[p], true)
            } else {
                loaded(latest[p], false)
            },
    )
}

/// The snapshot that a stored form stands for.
pub open spec fn state_of(p: PersistedDeployStateView) -> DeployStateView {
    DeployStateView {
        head_commit: p.head_commit,
        propagated_head: p.propagated_head,
        any_dirty: p.any_dirty,
        files: merged(p.propagated, p.latest),
    }
}

/// Storing a snapshot and loading it again gives the snapshot back, each
/// file with its flag.
pub proof fn law_store_then_load(s: DeployStateView)
    ensures
        state_of(persisted_of(s)) == s,
{
    let back = state_of(persisted_of(s));
    assert(back.files =~= s.files);
}

/// Loading a stored form and storing it again gives the stored form
/// back, where no path is in both buckets.
pub proof fn law_load_then_store(p: PersistedDeployStateView)
    requires
        forall|k: Seq<char>| !(p.propagated.contains_key(k) && p.latest.contains_key(k)),
    ensures
        persisted_of(state_of(p)) == p,
{
    let back = persisted_of(state_of(p));
    assert(back.propagated =~= p.propagated);
    assert(back.latest =~= p.latest);
}

impl PersistedDeployState {
    pub open spec fn wf(&self) -> bool {
        &&& self.propagated.wf()
        &&& self.latest.wf()
    }

    /// The stored form of `state`.
    pub fn from(state: DeployState) -> (p: Self)
        requires
            state.wf(),
        ensures
            p.wf(),
            p@ == persisted_of(state@),
    {
        let ghost files = state@.files;
        let ghost keys0 = state.files.key_seq();
        let ghost values0 = state.files.value_seq();
        proof {
            state.lemma_paths();
            lemma_ascending_distinct(keys0);
        }
        let DeployState { head_commit, propagated_head, any_dirty, files: all } = state;
        let (mut keys, mut values) = all.into_parts();
        let mut propagated: OrderedMap<StoredFileState> = OrderedMap::new();
        let mut latest: OrderedMap<StoredFileState> = OrderedMap::new();
        while keys.len() > 0
            invariant
                propagated.wf(),
                latest.wf(),
                keys@.len() == values@.len(),
                keys@.len() <= keys0.len(),
                keys0.len() == values0.len(),
                texts(keys@) == keys0.take(keys@.len() as int),
                values@ == values0.take(values@.len() as int),
                forall|i: int, j: int|
                    0 <= i < keys0.len() && 0 <= j < keys0.len() && i != j ==> #[trigger] keys0[i]
                        != #[trigger] keys0[j],
                forall|i: int|
                    0 <= i < keys0.len() ==> files.contains_key(#[trigger] keys0[i]) && files[keys0[i]]
                        == values0[i]@,
                forall|k: Seq<char>| #[trigger] files.contains_key(k) ==> keys0.contains(k),
                forall|k: Seq<char>| #[trigger]
                    propagated@.contains_key(k) <==> files.contains_key(k) && files[k].propagated
                        && keys0.index_of(k) >= keys@.len(),
                forall|k: Seq<char>| #[trigger]
                    latest@.contains_key(k) <==> files.contains_key(k) && !files[k].propagated
                        && keys0.index_of(k) >= keys@.len(),
                forall|k: Seq<char>|
                    propagated@.contains_key(k) ==> (#[trigger] propagated@[k])@ == stored(files[k]),
                forall|k: Seq<char>|
                    latest@.contains_key(k) ==> (#[trigger] latest@[k])@ == stored(files[k]),
            decreases keys@.len(),
        {
            let ghost n = keys@.len() - 1;
            let key = keys.pop().unwrap();
            let file = values.pop().unwrap();
            proof {
                assert(texts(keys@) =~= keys0.take(n));
                assert(values@ =~= values0.take(n));
                assert(key@ == keys0.take(n + 1)[n]);
                assert(file == values0.take(n + 1)[n]);
                assert(keys0.contains(keys0[n]));
                assert forall|k: Seq<char>| files.contains_key(k) implies (keys0.index_of(k) >= n
                    <==> keys0.index_of(k) >= n + 1 || k == key@) by {
                    let j = keys0.index_of(k);
                    assert(keys0[j] == k);
                }
            }
            if file.propagated {
                propagated.insert(key, StoredFileState::from(file));
            } else {
                latest.insert(key, StoredFileState::from(file));
            }
        }
        let p = PersistedDeployState { head_commit, propagated_head, any_dirty, propagated, latest };
        proof {
            assert forall|k: Seq<char>| files.contains_key(k) implies keys0.index_of(k) >= 0 by {
                assert(keys0.contains(k));
            }
            assert(p@.propagated =~= bucket(files, true));
            assert(p@.latest =~= bucket(files, false));
        }
        p
    }
}

/// `base` with the files of `bucket` put over it, each with the flag
/// `propagated`.
pub open spec fn overlay(
    base: Map<Seq<char>, FileStateView>,
    bucket: Map<Seq<char>, StoredFileStateView>,
    propagated: bool,
) -> Map<Seq<char>, FileStateView> {
    Map::new(
        |p: Seq<char>| base.contains_key(p) || bucket.contains_key(p),
        |p: Seq<char>|
            if bucket.contains_key(p) {
                loaded(bucket[p], propagated)
            } else {
                base[p]
            },
    )
}

/// Moves the files of `bucket` into `files`, each with the flag
/// `propagated`, in place of what `files` held under the same path.
pub fn move_in(files: &mut OrderedMap<FileState>, bucket: OrderedMap<StoredFileState>, propagated: bool)
    requires
        old(files).wf(),
        bucket.wf(),
    ensures
        final(files).wf(),
        file_views(final(files)@) == overlay(
            file_views(old(files)@),
            stored_views(bucket@),
            propagated,
        ),
{
    let ghost base = file_views(files@);
    let ghost from = stored_views(bucket@);
    let ghost keys0 = bucket.key_seq();
    let ghost values0 = bucket.value_seq();
    proof {
        bucket.lemma_walk_order();
        lemma_ascending_distinct(keys0);
        assert forall|i: int| 0 <= i < keys0.len() implies from.contains_key(#[trigger] keys0[i])
            && from[keys0[i]] == values0[i]@ by {
            lemma_entry_at(keys0, values0, i);
        }
    }
    let (mut keys, mut values) = bucket.into_parts();
    while keys.len() > 0
        invariant
            files.wf(),
            keys@.len() == values@.len(),
            keys@.len() <= keys0.len(),
            keys0.len() == values0.len(),
            texts(keys@) == keys0.take(keys@.len() as int),
            values@ == values0.take(values@.len() as int),
            forall|i: int, j: int|
                0 <= i < keys0.len() && 0 <= j < keys0.len() && i != j ==> #[trigger] keys0[i]
                    != #[trigger] keys0[j],
            forall|i: int|
                0 <= i < keys0.len() ==> from.contains_key(#[trigger] keys0[i]) && from[keys0[i]]
                    == values0[i]@,
            forall|k: Seq<char>| #[trigger] from.contains_key(k) ==> keys0.contains(k),
            forall|k: Seq<char>| #[trigger]
                file_views(files@).contains_key(k) <==> base.contains_key(k) || (from.contains_key(k)
                    && keys0.index_of(k) >= keys@.len()),
            forall|k: Seq<char>|
                file_views(files@).contains_key(k) ==> #[trigger] file_views(files@)[k] == (if from.contains_key(
                    k,
                ) && keys0.index_of(k) >= keys@.len() {
                    loaded(from[k], propagated)
                } else {
                    base[k]
                }),
        decreases keys@.len(),
    {
        let ghost n = keys@.len() - 1;
        let ghost before = file_views(files@);
        let key = keys.pop().unwrap();
        let file = values.pop().unwrap();
        proof {
            assert(texts(keys@) =~= keys0.take(n));
            assert(values@ =~= values0.take(n));
            assert(key@ == keys0.take(n + 1)[n]);
            assert(file == values0.take(n + 1)[n]);
            assert(keys0.contains(keys0[n]));
            assert forall|k: Seq<char>| from.contains_key(k) implies (keys0.index_of(k) >= n
                <==> keys0.index_of(k) >= n + 1 || k == key@) by {
                let j = keys0.index_of(k);
                assert(keys0[j] == k);
            }
        }
        let loaded_file = file.into_file(propagated);
        files.insert(key, loaded_file);
        assert(file_views(files@) =~= before.insert(key@, loaded_file@));
    }
    proof {
        assert forall|k: Seq<char>| from.contains_key(k) implies keys0.index_of(k) >= 0 by {
            assert(keys0.contains(k));
        }
        assert(file_views(files@) =~= overlay(base, from, propagated));
    }
}

impl DeployState {
    /// The snapshot that the stored form `p` stands for.
    pub fn from(p: PersistedDeployState) -> (s: Self)
        requires
            p.wf(),
        ensures
            s.wf(),
            s@ == state_of(p@),
    {
        let ghost view = p@;
        let PersistedDeployState { head_commit, propagated_head, any_dirty, propagated, latest } = p;
        let mut files: OrderedMap<FileState> = OrderedMap::new();
        move_in(&mut files, latest, false);
        move_in(&mut files, propagated, true);
        assert(file_views(files@) =~= merged(view.propagated, view.latest));
        DeployState::from_parts(head_commit, propagated_head, any_dirty, files)
    }
}

/// The stored form of what is recorded of an environment.
#[derive(Debug, PartialEq, Eq)]
pub struct PersistedEnvironmentState {
    pub current: PersistedDeployState,
    pub propagated_from: Option<String>,
    /// Earlier snapshots, the most recent first.
    pub propagation_queue: Vec<PersistedDeployState>,
}

pub struct PersistedEnvironmentStateView {
    pub current: PersistedDeployStateView,
    pub propagated_from: Option<Seq<char>>,
    pub propagation_queue: Seq<PersistedDeployStateView>,
}

/// The views of a sequence of stored snapshots.
pub open spec fn persisted_views(states: Seq<PersistedDeployState>) -> Seq<
    PersistedDeployStateView,
> {
    states.map_values(|p: PersistedDeployState| p@)
}

impl View for PersistedEnvironmentState {
    type V = PersistedEnvironmentStateView;

    open spec fn view(&self) -> PersistedEnvironmentStateView {
        PersistedEnvironmentStateView {
            current: self.current@,
            propagated_from: text_view(self.propagated_from),
            propagation_queue: persisted_views(self.propagation_queue@),
        }
    }
}

/// The stored form of the record of an environment: that of each of its
/// snapshots, in their order.
pub open spec fn persisted_env_of(e: EnvironmentStateView) -> PersistedEnvironmentStateView {
    PersistedEnvironmentStateView {
        current: persisted_of(e.current),
        propagated_from: e.propagated_from,
        propagation_queue: e.propagation_queue.map_values(|s: DeployStateView| persisted_of(s)),
    }
}

/// The record of an environment that a stored form stands for.
pub open spec fn env_of(p: PersistedEnvironmentStateView) -> EnvironmentStateView {
    EnvironmentStateView {
        current: state_of(p.current),
        propagated_from: p.propagated_from,
        propagation_queue: p.propagation_queue.map_values(
            |s: PersistedDeployStateView| state_of(s),
        ),
    }
}

/// Storing the record of an environment and loading it again gives the
/// record back: the current snapshot, the upstream, and the history in
/// its order, each file with its flag.
pub proof fn law_store_then_load_env(e: EnvironmentStateView)
    ensures
        env_of(persisted_env_of(e)) == e,
{
    let back = env_of(persisted_env_of(e));
    law_store_then_load(e.current);
    assert forall|i: int| 0 <= i < e.propagation_queue.len() implies back.propagation_queue[i]
        == e.propagation_queue[i] by {
        law_store_then_load(e.propagation_queue[i]);
    }
    assert(back.propagation_queue =~= e.propagation_queue);
}

impl PersistedEnvironmentState {
    pub open spec fn wf(&self) -> bool {
        &&& self.current.wf()
        &&& forall|i: int|
            0 <= i < self.propagation_queue@.len() ==> (#[trigger] self.propagation_queue@[i]).wf()
    }

    /// The stored form of `env`.
    pub fn from(env: EnvironmentState) -> (p: Self)
        requires
            env.wf(),
        ensures
            p.wf(),
            p@ == persisted_env_of(env@),
    {
        let ghost history = env@.propagation_queue;
        let EnvironmentState { current, propagated_from, propagation_queue } = env;
        let mut queue = propagation_queue;
        let ghost all = queue@;
        let mut stored_queue: Vec<PersistedDeployState> = Vec::new();
        while queue.len() > 0
            invariant
                stored_queue@.len() + queue@.len() == all.len(),
                forall|i: int| 0 <= i < all.len() ==> (#[trigger] all[i]).wf(),
                forall|i: int|
                    0 <= i < queue@.len() ==> #[trigger] queue@[i] == all[stored_queue@.len() + i],
                forall|i: int| 0 <= i < stored_queue@.len() ==> (#[trigger] stored_queue@[i]).wf(),
                forall|i: int|
                    0 <= i < stored_queue@.len() ==> (#[trigger] stored_queue@[i])@ == persisted_of(
                        all[i]@,
                    ),
            decreases queue@.len(),
        {
            let state = queue.pop_front().unwrap();
            assert(state == all[stored_queue@.len() as int]);
            stored_queue.push(PersistedDeployState::from(state));
        }
        let p = PersistedEnvironmentState {
            current: PersistedDeployState::from(current),
            propagated_from,
            propagation_queue: stored_queue,
        };
        assert(p@.propagation_queue =~= persisted_env_of(env@).propagation_queue);
        p
    }

    /// The record that this stored form stands for.
    pub fn into_env(self) -> (env: EnvironmentState)
        requires
            self.wf(),
        ensures
            env.wf(),
            env@ == env_of(self@),
    {
        let PersistedEnvironmentState { current, propagated_from, propagation_queue } = self;
        let mut stored_queue = propagation_queue;
        let ghost all = stored_queue@;
        let mut queue: VecDeque<DeployState> = VecDeque::new();
        while stored_queue.len() > 0
            invariant
                stored_queue@.len() + queue@.len() == all.len(),
                forall|i: int| 0 <= i < all.len() ==> (#[trigger] all[i]).wf(),
                forall|i: int| 0 <= i < stored_queue@.len() ==> #[trigger] stored_queue@[i] == all[i],
                forall|i: int| 0 <= i < queue@.len() ==> (#[trigger] queue@[i]).wf(),
                forall|i: int|
                    0 <= i < queue@.len() ==> (#[trigger] queue@[i])@ == state_of(
                        all[stored_queue@.len() + i]@,
                    ),
            decreases stored_queue@.len(),
        {
            let state = stored_queue.pop().unwrap();
            queue.push_front(DeployState::from(state));
        }
        let env = EnvironmentState {
            current: DeployState::from(current),
            propagated_from,
            propagation_queue: queue,
        };
        assert(env@.propagation_queue =~= env_of(self@).propagation_queue);
        env
    }
}

/// The files that hold a database: one for each environment, named after
/// it, in ascending order of the names, with the stored form of its
/// record.
pub open spec fn state_files(state_dir: Seq<char>, envs: Map<Seq<char>, EnvironmentStateView>)
    -> Seq<(Seq<char>, PersistedEnvironmentStateView)> {
    sorted_keys(envs.dom()).map_values(
        |name: Seq<char>| (state_file_of(state_dir, name), persisted_env_of(envs[name])),
    )
}

/// The views of a list of files.
pub open spec fn state_file_views(files: Seq<(String, PersistedEnvironmentState)>) -> Seq<
    (Seq<char>, PersistedEnvironmentStateView),
> {
    files.map_values(|f: (String, PersistedEnvironmentState)| (f.0@, f.1@))
}

impl Database {
    /// The files to write so that the state directory holds this
    /// database: each with its path and what it is to hold.
    pub fn persist(&self) -> (files: Vec<(String, PersistedEnvironmentState)>)
        requires
            self.wf(),
        ensures
            state_file_views(files@) == state_files(self.state_dir@, self@),
            forall|i: int| 0 <= i < files@.len() ==> (#[trigger] files@[i]).1.wf(),
    {
        proof {
            self.state.lemma_names();
        }
        let ghost names = self.state.names();
        let mut files: Vec<(String, PersistedEnvironmentState)> = Vec::new();
        let n = self.state.environments.len();
        let mut i: usize = 0;
        while i < n
            invariant
                self.wf(),
                names == self.state.names(),
                self.state.environments.key_seq() == names,
                n == names.len(),
                n == self.state.environments.value_seq().len(),
                forall|j: int|
                    0 <= j < names.len() ==> self@.contains_key(#[trigger] names[j]) && self@[names[j]]
                        == self.state.environments.value_seq()[j]@,
                i <= n,
                files@.len() == i,
                forall|j: int| 0 <= j < i ==> (#[trigger] files@[j]).1.wf(),
                forall|j: int|
                    0 <= j < i ==> (#[trigger] files@[j]).0@ == state_file_of(
                        self.state_dir@,
                        names[j],
                    ) && files@[j].1@ == persisted_env_of(self@[names[j]]),
            decreases n - i,
        {
            let name = self.state.environments.key_at(i);
            let env = self.state.environments.value_at(i);
            let path = state_file(self.state_dir.as_str(), name.as_str());
            files.push((path, PersistedEnvironmentState::from(env.duplicate())));
            i += 1;
        }
        assert(state_file_views(files@) =~= state_files(self.state_dir@, self@));
        files
    }
}

} // verus!
