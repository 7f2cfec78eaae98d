//! The propagation engine: what an environment would deploy now, whether
//! that is new, and what has to happen to the working tree.
//!
//! The engine does no input or output. Its caller looks at the repository
//! and the working tree, hands over what it saw, and carries out what the
//! engine decides.

use vstd::prelude::*;
use vstd::string::StringExecFns;
use crate::database::{Database, EnvironmentState, EnvironmentStateView, recorded, stored_envs,
    target_state};
use crate::ordered_map::{OrderedMap, lemma_ascending_distinct, sorted_keys, texts};
use crate::paths::{path_parent, state_dir_of, state_file_of};
use crate::pattern::{all_compile, match_each, matches_any};
use crate::state::{CommitHash, DeployState, DeployStateView, FileDiff, FileDiffView, FileHash,
    FileState, FileStateView, clone_hash, diff_of, diff_views, file_views, same_hash, some_dirty};
use crate::text::text_view;

verus! {

/// Why the engine gave no answer.
#[derive(Debug, PartialEq, Eq)]
pub enum EngineError {
    /// A file pattern does not compile.
    Config,
    /// The environment propagates from one that was never recorded.
    Prerequisite { upstream: String },
}

/// The text of the message that says that `upstream` was never recorded.
pub open spec fn not_deployed_message(upstream: Seq<char>) -> Seq<char> {
    "Previous environment '"@ + upstream + "' not deployed yet"@
}

impl EngineError {
    /// The error in words.
    pub fn message(&self) -> (text: String)
        ensures
            text@ == (match *self {
                EngineError::Config => "Invalid file pattern"@,
                EngineError::Prerequisite { upstream } => not_deployed_message(upstream@),
            }),
    {
        match self {
            EngineError::Config => String::from_str("Invalid file pattern"),
            EngineError::Prerequisite { upstream } => {
                let mut text = String::from_str("Previous environment '");
                text.append(upstream.as_str());
                text.append("' not deployed yet");
                text
            },
        }
    }
}

/// What the configuration says of one environment.
#[derive(Debug, PartialEq, Eq)]
pub struct EnvironmentConfig {
    pub name: String,
    /// The patterns of the files that the environment takes from HEAD.
    pub head_filters: Vec<String>,
    /// The patterns of the files that it takes from its upstream.
    pub propagated_file_patterns: Vec<String>,
    /// The upstream environment.
    pub propagated_from: Option<String>,
}

/// What the caller saw of the repository and the working tree.
#[derive(Debug, PartialEq, Eq)]
pub struct WorkingTree {
    /// HEAD.
    pub head_commit: CommitHash,
    /// The files of the working tree that the environment takes from
    /// HEAD, each with its state.
    pub head_files: Vec<(String, FileState)>,
    /// The fingerprints of the files on disk, by path. A path that it
    /// lacks has no file.
    pub on_disk: OrderedMap<FileHash>,
}

/// The views of fingerprints, each under its path.
pub open spec fn disk_views(on_disk: Map<Seq<char>, FileHash>) -> Map<Seq<char>, Seq<char>> {
    on_disk.map_values(|h: FileHash| h@)
}

/// The fingerprint of the file at `path`, where there is a file.
pub open spec fn disk_hash(on_disk: Map<Seq<char>, Seq<char>>, path: Seq<char>) -> Option<
    Seq<char>,
> {
    if on_disk.contains_key(path) {
        Some(on_disk[path])
    } else {
        None
    }
}

/// The files that a list of observed head files makes up: each under its
/// path and not propagated, a later one in place of an earlier one at
/// the same path.
pub open spec fn head_files_of(files: Seq<(String, FileState)>) -> Map<Seq<char>, FileStateView>
    decreases files.len(),
{
    if files.len() == 0 {
        Map::empty()
    } else {
        head_files_of(files.drop_last()).insert(
            files.last().0@,
            FileStateView { propagated: false, ..files.last().1@ },
        )
    }
}

/// The state of a file that is carried over from the upstream file
/// `prev`. The commit and its subject are the upstream's. While
/// recording, the fingerprint is that of the file on disk, and the file
/// is dirty where this differs from the upstream's; else the fingerprint
/// is the upstream's and the file is clean.
pub open spec fn carried(prev: FileStateView, recording: bool, disk: Option<Seq<char>>)
    -> FileStateView {
    FileStateView {
        file_hash: if recording {
            disk
        } else {
            prev.file_hash
        },
        dirty: recording && disk != prev.file_hash,
        from_commit: prev.from_commit,
        message: prev.message,
        propagated: true,
    }
}

/// `base` with the chosen files of `upstream` carried over. A carried
/// file takes the place of a file of `base` at the same path.
pub open spec fn carried_over(
    base: Map<Seq<char>, FileStateView>,
    upstream: Map<Seq<char>, FileStateView>,
    chosen: spec_fn(Seq<char>) -> bool,
    recording: bool,
    on_disk: Map<Seq<char>, Seq<char>>,
) -> Map<Seq<char>, FileStateView> {
    Map::new(
        |p: Seq<char>| base.contains_key(p) || (upstream.contains_key(p) && chosen(p)),
        |p: Seq<char>|
            if upstream.contains_key(p) && chosen(p) {
                carried(upstream[p], recording, disk_hash(on_disk, p))
            } else {
                base[p]
            },
    )
}

/// The choice that a list of flags makes among `paths`: the path at
/// position `i` is chosen where the flag at `i` is set.
pub open spec fn flagged(paths: Seq<Seq<char>>, flags: Seq<bool>) -> spec_fn(Seq<char>) -> bool {
    |p: Seq<char>| paths.contains(p) && paths.index_of(p) < flags.len() && flags[paths.index_of(p)]
}

/// Carries the files of `upstream` whose flag is set over into `files`.
/// The flags go by the position of the files in ascending order of their
/// paths; a file without a flag is not carried over.
pub fn carry_over(
    files: &mut OrderedMap<FileState>,
    upstream: &DeployState,
    flags: &Vec<bool>,
    recording: bool,
    on_disk: &OrderedMap<FileHash>,
)
    requires
        old(files).wf(),
        upstream.wf(),
        on_disk.wf(),
    ensures
        final(files).wf(),
        file_views(final(files)@) == carried_over(
            file_views(old(files)@),
            upstream@.files,
            flagged(upstream.paths(), flags@),
            recording,
            disk_views(on_disk@),
        ),
{
    let ghost base = file_views(files@);
    let ghost up = upstream@.files;
    let ghost paths = upstream.paths();
    let ghost disk = disk_views(on_disk@);
    let ghost chosen = flagged(paths, flags@);
    proof {
        upstream.lemma_paths();
        lemma_ascending_distinct(paths);
    }
    let n = upstream.files.len();
    let mut i: usize = 0;
    while i < n
        invariant
            files.wf(),
            upstream.wf(),
            on_disk.wf(),
            up == upstream@.files,
            paths == upstream.paths(),
            upstream.files.key_seq() == paths,
            disk == disk_views(on_disk@),
            chosen == flagged(paths, flags@),
            n == paths.len(),
            i <= n,
            forall|a: int, b: int|
                0 <= a < paths.len() && 0 <= b < paths.len() && a != b ==> #[trigger] paths[a]
                    != #[trigger] paths[b],
            forall|j: int|
                0 <= j < paths.len() ==> up.contains_key(#[trigger] paths[j]) && up[paths[j]]
                    == upstream.files.value_seq()[j]@,
            forall|k: Seq<char>| #[trigger] up.contains_key(k) ==> paths.contains(k),
            forall|k: Seq<char>| #[trigger]
                file_views(files@).contains_key(k) <==> base.contains_key(k) || (up.contains_key(k)
                    && chosen(k) && paths.index_of(k) < i),
            forall|k: Seq<char>|
                file_views(files@).contains_key(k) ==> #[trigger] file_views(files@)[k] == (if up.contains_key(
                    k,
                ) && chosen(k) && paths.index_of(k) < i {
                    carried(up[k], recording, disk_hash(disk, k))
                } else {
                    base[k]
                }),
        decreases n - i,
    {
        let ghost before = file_views(files@);
        proof {
            assert(paths.contains(paths[i as int]));
            assert forall|k: Seq<char>| up.contains_key(k) implies (paths.index_of(k) < i + 1
                <==> paths.index_of(k) < i || k == paths[i as int]) by {
                let j = paths.index_of(k);
                assert(paths[j] == k);
            }
        }
        if i < flags.len() && flags[i] {
            let name = upstream.files.key_at(i);
            let prev = upstream.files.value_at(i);
            let file = if recording {
                let disk_file = match on_disk.get(name.as_str()) {
                    Some(h) => Some(h.clone()),
                    None => None,
                };
                FileState {
                    dirty: !same_hash(&disk_file, &prev.file_hash),
                    file_hash: disk_file,
                    from_commit: prev.from_commit.clone(),
                    message: prev.message.clone(),
                    propagated: true,
                }
            } else {
                FileState {
                    dirty: false,
                    file_hash: clone_hash(&prev.file_hash),
                    from_commit: prev.from_commit.clone(),
                    message: prev.message.clone(),
                    propagated: true,
                }
            };
            assert(file@ == carried(up[name@], recording, disk_hash(disk, name@)));
            files.insert(name.clone(), file);
            assert(file_views(files@) =~= before.insert(name@, file@));
        }
        i += 1;
    }
    proof {
        assert forall|k: Seq<char>| up.contains_key(k) implies paths.index_of(k) < n by {
            assert(paths.contains(k));
        }
        assert(file_views(files@) =~= carried_over(base, up, chosen, recording, disk));
    }
}

/// The upstream snapshot that the environment `name` propagates from
/// next, where it has an upstream and that was recorded.
pub open spec fn upstream_target(
    envs: Map<Seq<char>, EnvironmentStateView>,
    name: Seq<char>,
    propagated_from: Option<Seq<char>>,
) -> Option<DeployStateView> {
    match propagated_from {
        Some(upstream) => target_state(envs, name, upstream),
        None => None,
    }
}

/// The snapshot of an environment: the head files, with the files of
/// `target` that match one of `patterns` carried over them, taken at
/// `head_commit`. Its propagated head is that of `target`, and its flag
/// says whether one of its files is dirty.
pub open spec fn constructed(
    head_commit: Seq<char>,
    head: Map<Seq<char>, FileStateView>,
    target: Option<DeployStateView>,
    patterns: Seq<Seq<char>>,
    recording: bool,
    on_disk: Map<Seq<char>, Seq<char>>,
) -> DeployStateView {
    let files = match target {
        Some(upstream) => carried_over(
            head,
            upstream.files,
            |p: Seq<char>| matches_any(patterns, p),
            recording,
            on_disk,
        ),
        None => head,
    };
    DeployStateView {
        head_commit,
        propagated_head: match target {
            Some(upstream) => Some(upstream.head_commit),
            None => None,
        },
        any_dirty: some_dirty(files),
        files,
    }
}

/// Every file of a snapshot as an added one, in ascending order of the
/// paths.
pub open spec fn all_added(files: Map<Seq<char>, FileStateView>) -> Seq<FileDiffView> {
    sorted_keys(files.dom()).map_values(
        |p: Seq<char>| FileDiffView { path: p, current_state: Some(files[p]), added: true },
    )
}

/// The paths of the entries that report a state, in their order.
pub open spec fn changed_paths(diffs: Seq<FileDiffView>) -> Seq<Seq<char>> {
    diffs.filter_map(
        |d: FileDiffView|
            if d.current_state is Some {
                Some(d.path)
            } else {
                None
            },
    )
}

/// The paths of the entries that report a file as gone, in their order.
pub open spec fn deleted_paths(diffs: Seq<FileDiffView>) -> Seq<Seq<char>> {
    diffs.filter_map(
        |d: FileDiffView|
            if d.current_state is None {
                Some(d.path)
            } else {
                None
            },
    )
}

/// The files of `files`, each with its head state, in one map.
pub fn collect_head_files(files: &Vec<(String, FileState)>) -> (map: OrderedMap<FileState>)
    ensures
        map.wf(),
        file_views(map@) == head_files_of(files@),
{
    let mut map: OrderedMap<FileState> = OrderedMap::new();
    let mut i: usize = 0;
    assert(files@.take(0) =~= Seq::empty());
    assert(file_views(map@) =~= head_files_of(files@.take(0)));
    while i < files.len()
        invariant
            map.wf(),
            i <= files@.len(),
            file_views(map@) == head_files_of(files@.take(i as int)),
        decreases files@.len() - i,
    {
        let ghost before = file_views(map@);
        let mut state = files[i].1.clone();
        state.propagated = false;
        proof {
            assert(files@.take(i + 1).drop_last() =~= files@.take(i as int));
            assert(files@.take(i + 1).last() == files@[i as int]);
        }
        map.insert(files[i].0.clone(), state);
        assert(file_views(map@) =~= before.insert(files@[i as int].0@, state@));
        i += 1;
    }
    assert(files@.take(files@.len() as int) =~= files@);
    map
}

/// Every file of `state` as an added one.
pub fn list_as_added(state: &DeployState) -> (diffs: Vec<FileDiff>)
    requires
        state.wf(),
    ensures
        diff_views(diffs@) == all_added(state@.files),
{
    proof {
        state.lemma_paths();
    }
    let mut diffs: Vec<FileDiff> = Vec::new();
    let n = state.files.len();
    let mut i: usize = 0;
    while i < n
        invariant
            state.wf(),
            state.files.key_seq() == state.paths(),
            n == state.paths().len(),
            n == state.files.value_seq().len(),
            forall|j: int|
                0 <= j < state.paths().len() ==> state@.files.contains_key(
                    #[trigger] state.paths()[j],
                ) && state@.files[state.paths()[j]] == state.files.value_seq()[j]@,
            i <= n,
            diffs@.len() == i,
            forall|j: int| 0 <= j < i ==> (#[trigger] diffs@[j])@ == all_added(state@.files)[j],
        decreases n - i,
    {
        diffs.push(
            FileDiff {
                path: state.files.key_at(i).clone(),
                current_state: Some(state.files.value_at(i).clone()),
                added: true,
            },
        );
        i += 1;
    }
    assert(diff_views(diffs@) =~= all_added(state@.files));
    diffs
}

/// The paths of the entries of `diffs`: those that report a state, and
/// those that report a file as gone.
pub fn split_paths(diffs: &Vec<FileDiff>) -> (paths: (Vec<String>, Vec<String>))
    ensures
        texts(paths.0@) == changed_paths(diff_views(diffs@)),
        texts(paths.1@) == deleted_paths(diff_views(diffs@)),
{
    let ghost views = diff_views(diffs@);
    let mut changed: Vec<String> = Vec::new();
    let mut deleted: Vec<String> = Vec::new();
    let mut i: usize = 0;
    assert(views.take(0) =~= Seq::empty());
    assert(texts(changed@) =~= changed_paths(views.take(0)));
    assert(texts(deleted@) =~= deleted_paths(views.take(0)));
    while i < diffs.len()
        invariant
            views == diff_views(diffs@),
            i <= diffs@.len(),
            texts(changed@) == changed_paths(views.take(i as int)),
            texts(deleted@) == deleted_paths(views.take(i as int)),
        decreases diffs@.len() - i,
    {
        let ghost c = texts(changed@);
        let ghost d = texts(deleted@);
        proof {
            assert(views.take(i + 1).drop_last() =~= views.take(i as int));
            assert(views.take(i + 1).last() == views[i as int]);
        }
        if diffs[i].current_state.is_some() {
            changed.push(diffs[i].path.clone());
            assert(texts(changed@) =~= c.push(views[i as int].path));
        } else {
            deleted.push(diffs[i].path.clone());
            assert(texts(deleted@) =~= d.push(views[i as int].path));
        }
        i += 1;
    }
    assert(views.take(diffs@.len() as int) =~= views);
    (changed, deleted)
}

/// Whether the flag at position `i` is set. A position without a flag
/// counts as not set.
pub open spec fn flag_at(flags: Seq<bool>, i: int) -> bool {
    0 <= i < flags.len() && flags[i]
}

/// For each of `paths`, whether it matches one of `patterns`.
pub open spec fn match_flags(patterns: Seq<Seq<char>>, paths: Seq<Seq<char>>) -> Seq<bool> {
    paths.map_values(|p: Seq<char>| matches_any(patterns, p))
}

/// The paths that are flagged neither as ignored nor as head files, in
/// their order.
pub open spec fn unclaimed(paths: Seq<Seq<char>>, ignored: Seq<bool>, head: Seq<bool>) -> Seq<
    Seq<char>,
>
    decreases paths.len(),
{
    if paths.len() == 0 {
        Seq::empty()
    } else {
        let i = paths.len() - 1;
        let rest = unclaimed(paths.drop_last(), ignored, head);
        if flag_at(ignored, i) || flag_at(head, i) {
            rest
        } else {
            rest.push(paths.last())
        }
    }
}

/// The files of the working tree that are left over: those of `paths`
/// that match neither an ignore pattern nor a head pattern.
pub open spec fn stale_files(
    paths: Seq<Seq<char>>,
    ignore: Seq<Seq<char>>,
    head: Seq<Seq<char>>,
) -> Seq<Seq<char>> {
    unclaimed(paths, match_flags(ignore, paths), match_flags(head, paths))
}

/// The files among `paths` that are flagged as wanted and not as
/// shadowed, each with the commit that `files` holds for it, in their
/// order.
pub open spec fn wanted_checkouts(
    paths: Seq<Seq<char>>,
    files: Map<Seq<char>, FileStateView>,
    wanted: Seq<bool>,
    shadowed: Seq<bool>,
) -> Seq<(Seq<char>, Seq<char>)>
    decreases paths.len(),
{
    if paths.len() == 0 {
        Seq::empty()
    } else {
        let i = paths.len() - 1;
        let rest = wanted_checkouts(paths.drop_last(), files, wanted, shadowed);
        if flag_at(wanted, i) && !flag_at(shadowed, i) {
            rest.push((paths.last(), files[paths.last()].from_commit))
        } else {
            rest
        }
    }
}

/// The files to check out from the upstream snapshot `target`: those
/// that match a propagated pattern and no head pattern, each at the
/// commit that last changed it upstream, in ascending order of the
/// paths.
pub open spec fn checkouts(
    target: Option<DeployStateView>,
    patterns: Seq<Seq<char>>,
    head: Seq<Seq<char>>,
) -> Seq<(Seq<char>, Seq<char>)> {
    match target {
        Some(upstream) => {
            let paths = sorted_keys(upstream.files.dom());
            wanted_checkouts(
                paths,
                upstream.files,
                match_flags(patterns, paths),
                match_flags(head, paths),
            )
        },
        None => Seq::empty(),
    }
}

/// The views of a list of checkouts.
pub open spec fn checkout_views(list: Seq<(String, CommitHash)>) -> Seq<(Seq<char>, Seq<char>)> {
    list.map_values(|c: (String, CommitHash)| (c.0@, c.1@))
}

/// The paths of `paths` that are flagged neither as ignored nor as head
/// files.
pub fn pick_unclaimed(paths: &Vec<String>, ignored: &Vec<bool>, head: &Vec<bool>) -> (left: Vec<
    String,
>)
    ensures
        texts(left@) == unclaimed(texts(paths@), ignored@, head@),
{
    let ghost all = texts(paths@);
    let mut left: Vec<String> = Vec::new();
    let mut i: usize = 0;
    assert(all.take(0) =~= Seq::empty());
    assert(texts(left@) =~= unclaimed(all.take(0), ignored@, head@));
    while i < paths.len()
        invariant
            all == texts(paths@),
            i <= paths@.len(),
            texts(left@) == unclaimed(all.take(i as int), ignored@, head@),
        decreases paths@.len() - i,
    {
        let ghost before = texts(left@);
        proof {
            assert(all.take(i + 1).drop_last() =~= all.take(i as int));
            assert(all.take(i + 1).last() == all[i as int]);
        }
        let is_ignored = i < ignored.len() && ignored[i];
        let is_head = i < head.len() && head[i];
        if !is_ignored && !is_head {
            left.push(paths[i].clone());
            assert(texts(left@) =~= before.push(all[i as int]));
        }
        i += 1;
    }
    assert(all.take(paths@.len() as int) =~= all);
    left
}

/// The files of `upstream` that are flagged as wanted and not as
/// shadowed, each with the commit that last changed it. The flags go by
/// the position of the files in ascending order of their paths.
pub fn pick_checkouts(upstream: &DeployState, wanted: &Vec<bool>, shadowed: &Vec<bool>) -> (list:
    Vec<(String, CommitHash)>)
    requires
        upstream.wf(),
    ensures
        checkout_views(list@) == wanted_checkouts(
            upstream.paths(),
            upstream@.files,
            wanted@,
            shadowed@,
        ),
{
    let ghost paths = upstream.paths();
    let ghost files = upstream@.files;
    proof {
        upstream.lemma_paths();
    }
    let mut list: Vec<(String, CommitHash)> = Vec::new();
    let n = upstream.files.len();
    let mut i: usize = 0;
    assert(paths.take(0) =~= Seq::empty());
    assert(checkout_views(list@) =~= wanted_checkouts(paths.take(0), files, wanted@, shadowed@));
    while i < n
        invariant
            upstream.wf(),
            paths == upstream.paths(),
            files == upstream@.files,
            upstream.files.key_seq() == paths,
            n == paths.len(),
            n == upstream.files.value_seq().len(),
            forall|j: int|
                0 <= j < paths.len() ==> files.contains_key(#[trigger] paths[j]) && files[paths[j]]
                    == upstream.files.value_seq()[j]@,
            i <= n,
            checkout_views(list@) == wanted_checkouts(paths.take(i as int), files, wanted@, shadowed@),
        decreases n - i,
    {
        let ghost before = checkout_views(list@);
        proof {
            assert(paths.take(i + 1).drop_last() =~= paths.take(i as int));
            assert(paths.take(i + 1).last() == paths[i as int]);
        }
        let is_wanted = i < wanted.len() && wanted[i];
        let is_shadowed = i < shadowed.len() && shadowed[i];
        if is_wanted && !is_shadowed {
            let entry = (
                upstream.files.key_at(i).clone(),
                upstream.files.value_at(i).from_commit.clone(),
            );
            list.push(entry);
            assert(checkout_views(list@) =~= before.push(
                (paths[i as int], files[paths[i as int]].from_commit),
            ));
        }
        i += 1;
    }
    assert(paths.take(n as int) =~= paths);
    list
}

/// The patterns of the files that no environment deploys: the
/// configuration file, what is in the state directory, what belongs to
/// git.
pub open spec fn ignore_patterns(path_to_config: Seq<char>, state_dir: Seq<char>) -> Seq<
    Seq<char>,
> {
    seq![path_to_config, state_dir + "/*"@, ".git/*"@, ".gitignore"@]
}

/// What the comparison of a new snapshot with what is recorded of the
/// environment `name` reports: the difference to the current snapshot,
/// and every file as added where the environment was never recorded.
pub open spec fn report_of(
    envs: Map<Seq<char>, EnvironmentStateView>,
    name: Seq<char>,
    snapshot: DeployStateView,
) -> Seq<FileDiffView> {
    if envs.contains_key(name) {
        diff_of(snapshot.files, envs[name].current.files)
    } else {
        all_added(snapshot.files)
    }
}

/// The upstream that the environment names and that was never recorded.
pub open spec fn missing_upstream(
    envs: Map<Seq<char>, EnvironmentStateView>,
    propagated_from: Option<Seq<char>>,
) -> Option<Seq<char>> {
    match propagated_from {
        Some(upstream) => if envs.contains_key(upstream) {
            None
        } else {
            Some(upstream)
        },
        None => None,
    }
}

/// What there is to deploy.
#[derive(Debug, PartialEq, Eq)]
pub struct Pending {
    /// What changed against the last recorded snapshot.
    pub diffs: Vec<FileDiff>,
    /// The paths of the files that were added or changed.
    pub changed: Vec<String>,
    /// The paths of the files that are gone.
    pub deleted: Vec<String>,
}

/// What was recorded.
#[derive(Debug, PartialEq, Eq)]
pub struct Recorded {
    /// The file that holds the state of the environment.
    pub state_file: String,
    /// What changed against the snapshot that was recorded before.
    pub diffs: Vec<FileDiff>,
}

/// What has to happen to the working tree before a deployment.
#[derive(Debug, PartialEq, Eq)]
pub struct PreparePlan {
    /// The patterns to which the checkout of HEAD is restricted; `None`
    /// where it is not restricted.
    pub head_filters: Option<Vec<String>>,
    /// The patterns of the files that the checkout of HEAD leaves alone.
    pub ignore_list: Vec<String>,
    /// The files to remove after the checkout of HEAD.
    pub remove: Vec<String>,
    /// The files to check out after that, each with its commit.
    pub checkout: Vec<(String, CommitHash)>,
}

/// The engine of one repository: the configuration file's place and what
/// is recorded of the environments.
#[derive(Debug, PartialEq, Eq)]
pub struct Workspace {
    pub path_to_config: String,
    pub db: Database,
}

impl Workspace {
    pub open spec fn wf(&self) -> bool {
        self.db.wf()
    }

    /// The upstream snapshot that `env` propagates from next.
    pub open spec fn target(&self, env: &EnvironmentConfig) -> Option<DeployStateView> {
        upstream_target(self.db@, env.name@, text_view(env.propagated_from))
    }

    /// The snapshot that `env` would deploy, given what was seen of the
    /// working tree.
    pub open spec fn snapshot(&self, env: &EnvironmentConfig, recording: bool, tree: &WorkingTree)
        -> DeployStateView {
        constructed(
            tree.head_commit@,
            head_files_of(tree.head_files@),
            self.target(env),
            texts(env.propagated_file_patterns@),
            recording,
            disk_views(tree.on_disk@),
        )
    }

    /// There are files to carry over, and a pattern that should choose
    /// among them does not compile.
    pub open spec fn pattern_fault(&self, env: &EnvironmentConfig) -> bool {
        self.target(env) is Some && !all_compile(texts(env.propagated_file_patterns@))
    }

    /// The engine for the configuration file at `path_to_config`, with
    /// the records `stored` that were read from its state directory.
    pub fn new(path_to_config: String, stored: Vec<(String, EnvironmentState)>) -> (ws: Self)
        requires
            forall|i: int| 0 <= i < stored@.len() ==> (#[trigger] stored@[i]).1.wf(),
        ensures
            ws.wf(),
            ws.path_to_config@ == path_to_config@,
            ws.db.state_dir@ == state_dir_of(path_parent(path_to_config@)),
            ws.db@ == stored_envs(stored@),
    {
        let db = Database::open(path_to_config.as_str(), stored);
        Workspace { path_to_config, db }
    }

    /// The patterns of the files that no environment deploys.
    pub fn ignore_list(&self) -> (list: Vec<String>)
        ensures
            texts(list@) == ignore_patterns(self.path_to_config@, self.db.state_dir@),
    {
        let mut states = self.db.state_dir.clone();
        states.append("/*");
        let mut list: Vec<String> = Vec::new();
        list.push(self.path_to_config.clone());
        list.push(states);
        list.push(String::from_str(".git/*"));
        list.push(String::from_str(".gitignore"));
        assert(texts(list@) =~= ignore_patterns(self.path_to_config@, self.db.state_dir@));
        list
    }

    /// The snapshot that `env` would deploy now. It fails where files
    /// are to be carried over and a pattern does not compile.
    pub fn construct_env_state(&self, env: &EnvironmentConfig, recording: bool, tree: &WorkingTree)
        -> (built: Result<DeployState, EngineError>)
        requires
            self.wf(),
            tree.on_disk.wf(),
        ensures
            match built {
                Ok(state) => !self.pattern_fault(env) && state.wf() && state@ == self.snapshot(
                    env,
                    recording,
                    tree,
                ),
                Err(e) => self.pattern_fault(env) && e == EngineError::Config,
            },
    {
        let mut files = collect_head_files(&tree.head_files);
        let mut propagated_head: Option<CommitHash> = None;
        match &env.propagated_from {
            Some(upstream_name) => {
                match self.db.get_target_propagated_state(
                    env.name.as_str(),
                    upstream_name.as_str(),
                ) {
                    Some(upstream) => {
                        proof {
                            upstream.lemma_paths();
                        }
                        let keys = upstream.files.keys();
                        let flags = match match_each(&env.propagated_file_patterns, keys) {
                            Some(flags) => flags,
                            None => {
                                return Err(EngineError::Config);
                            },
                        };
                        let ghost base = file_views(files@);
                        let ghost patterns = texts(env.propagated_file_patterns@);
                        carry_over(&mut files, upstream, &flags, recording, &tree.on_disk);
                        proof {
                            let paths = upstream.paths();
                            assert forall|p: Seq<char>| upstream@.files.contains_key(p) implies flagged(
                                paths,
                                flags@,
                            )(p) == matches_any(patterns, p) by {
                                assert(paths.contains(p));
                                let j = paths.index_of(p);
                                assert(texts(keys@)[j] == keys@[j]@);
                            }
                            assert(file_views(files@) =~= carried_over(
                                base,
                                upstream@.files,
                                |p: Seq<char>| matches_any(patterns, p),
                                recording,
                                disk_views(tree.on_disk@),
                            ));
                        }
                        propagated_head = Some(upstream.head_commit.clone());
                    },
                    None => {},
                }
            },
            None => {},
        }
        let mut state = DeployState::from_parts(tree.head_commit.clone(), propagated_head, false, files);
        state.refresh_any_dirty();
        Ok(state)
    }

    /// The paths of the files that `env` would deploy now, ascending.
    pub fn ls(&self, env: &EnvironmentConfig, tree: &WorkingTree) -> (listed: Result<
        Vec<String>,
        EngineError,
    >)
        requires
            self.wf(),
            tree.on_disk.wf(),
        ensures
            match listed {
                Ok(paths) => !self.pattern_fault(env) && texts(paths@) == sorted_keys(
                    self.snapshot(env, false, tree).files.dom(),
                ),
                Err(e) => self.pattern_fault(env) && e == EngineError::Config,
            },
    {
        let state = match self.construct_env_state(env, false, tree) {
            Ok(state) => state,
            Err(e) => {
                return Err(e);
            },
        };
        proof {
            state.lemma_paths();
        }
        let keys = state.files.keys();
        let mut paths: Vec<String> = Vec::new();
        let mut i: usize = 0;
        while i < keys.len()
            invariant
                i <= keys@.len(),
                paths@.len() == i,
                forall|j: int| 0 <= j < i ==> (#[trigger] paths@[j])@ == keys@[j]@,
            decreases keys@.len() - i,
        {
            paths.push(keys[i].clone());
            i += 1;
        }
        assert(texts(paths@) =~= texts(keys@));
        Ok(paths)
    }

    /// The upstream of `env`, where `env` names one that was never
    /// recorded.
    pub fn find_missing_upstream(&self, env: &EnvironmentConfig) -> (missing: Option<String>)
        requires
            self.wf(),
        ensures
            text_view(missing) == missing_upstream(self.db@, text_view(env.propagated_from)),
    {
        match &env.propagated_from {
            Some(upstream) => {
                if self.db.get_current_state(upstream.as_str()).is_none() {
                    Some(upstream.clone())
                } else {
                    None
                }
            },
            None => None,
        }
    }

    /// Whether there is anything new to deploy to `env`, and what.
    ///
    /// It fails where the upstream of `env` was never recorded, and where
    /// a pattern does not compile. It finds nothing where `env` was
    /// recorded and its snapshot would be no different now.
    pub fn check(&self, env: &EnvironmentConfig, tree: &WorkingTree) -> (found: Result<
        Option<Pending>,
        EngineError,
    >)
        requires
            self.wf(),
            tree.on_disk.wf(),
        ensures
            match found {
                Err(EngineError::Prerequisite { upstream }) => missing_upstream(
                    self.db@,
                    text_view(env.propagated_from),
                ) == Some(upstream@),
                Err(EngineError::Config) => self.pattern_fault(env) && missing_upstream(
                    self.db@,
                    text_view(env.propagated_from),
                ) is None,
                Ok(None) => {
                    &&& missing_upstream(self.db@, text_view(env.propagated_from)) is None
                    &&& !self.pattern_fault(env)
                    &&& self.db@.contains_key(env.name@)
                    &&& report_of(self.db@, env.name@, self.snapshot(env, false, tree)).len() == 0
                },
                Ok(Some(pending)) => {
                    &&& missing_upstream(self.db@, text_view(env.propagated_from)) is None
                    &&& !self.pattern_fault(env)
                    &&& diff_views(pending.diffs@) == report_of(
                        self.db@,
                        env.name@,
                        self.snapshot(env, false, tree),
                    )
                    &&& self.db@.contains_key(env.name@) ==> pending.diffs@.len() > 0
                    &&& texts(pending.changed@) == changed_paths(diff_views(pending.diffs@))
                    &&& texts(pending.deleted@) == deleted_paths(diff_views(pending.diffs@))
                },
            },
    {
        match self.find_missing_upstream(env) {
            Some(upstream) => {
                return Err(EngineError::Prerequisite { upstream });
            },
            None => {},
        }
        let state = match self.construct_env_state(env, false, tree) {
            Ok(state) => state,
            Err(e) => {
                return Err(e);
            },
        };
        let diffs = match self.db.get_current_state(env.name.as_str()) {
            Some(last) => {
                let diffs = state.diff(last);
                if diffs.len() == 0 {
                    return Ok(None);
                }
                diffs
            },
            None => list_as_added(&state),
        };
        let (changed, deleted) = split_paths(&diffs);
        Ok(Some(Pending { diffs, changed, deleted }))
    }

    /// What has to happen to the working tree before `env` is deployed:
    /// HEAD is checked out, restricted to the head patterns where
    /// `force_clean` is set; of the files `on_disk`, those that neither
    /// a head pattern nor the ignore list claims are removed; the files
    /// of the upstream snapshot that match a propagated pattern and no
    /// head pattern are checked out, each at its commit.
    ///
    /// It fails where a pattern that is needed does not compile.
    pub fn prepare(&self, env: &EnvironmentConfig, force_clean: bool, on_disk: &Vec<String>) -> (plan:
        Result<PreparePlan, EngineError>)
        requires
            self.wf(),
        ensures
            match plan {
                Ok(plan) => {
                    &&& self.prepare_fault(env) == false
                    &&& (match plan.head_filters {
                        Some(filters) => force_clean && texts(filters@) == texts(env.head_filters@),
                        None => !force_clean,
                    })
                    &&& texts(plan.ignore_list@) == ignore_patterns(
                        self.path_to_config@,
                        self.db.state_dir@,
                    )
                    &&& texts(plan.remove@) == stale_files(
                        texts(on_disk@),
                        ignore_patterns(self.path_to_config@, self.db.state_dir@),
                        texts(env.head_filters@),
                    )
                    &&& checkout_views(plan.checkout@) == checkouts(
                        self.target(env),
                        texts(env.propagated_file_patterns@),
                        texts(env.head_filters@),
                    )
                },
                Err(e) => self.prepare_fault(env) && e == EngineError::Config,
            },
    {
        let ignore_list = self.ignore_list();
        let ignored = match match_each(&ignore_list, on_disk) {
            Some(flags) => flags,
            None => {
                return Err(EngineError::Config);
            },
        };
        let head = match match_each(&env.head_filters, on_disk) {
            Some(flags) => flags,
            None => {
                return Err(EngineError::Config);
            },
        };
        assert(ignored@ =~= match_flags(texts(ignore_list@), texts(on_disk@)));
        assert(head@ =~= match_flags(texts(env.head_filters@), texts(on_disk@)));
        let remove = pick_unclaimed(on_disk, &ignored, &head);
        let mut checkout: Vec<(String, CommitHash)> = Vec::new();
        assert(checkout_views(checkout@) =~= Seq::empty());
        match &env.propagated_from {
            Some(upstream_name) => {
                match self.db.get_target_propagated_state(
                    env.name.as_str(),
                    upstream_name.as_str(),
                ) {
                    Some(upstream) => {
                        proof {
                            upstream.lemma_paths();
                        }
                        let paths = upstream.files.keys();
                        let wanted = match match_each(&env.propagated_file_patterns, paths) {
                            Some(flags) => flags,
                            None => {
                                return Err(EngineError::Config);
                            },
                        };
                        let shadowed = match match_each(&env.head_filters, paths) {
                            Some(flags) => flags,
                            None => {
                                return Err(EngineError::Config);
                            },
                        };
                        assert(wanted@ =~= match_flags(
                            texts(env.propagated_file_patterns@),
                            upstream.paths(),
                        ));
                        assert(shadowed@ =~= match_flags(texts(env.head_filters@), upstream.paths()));
                        checkout = pick_checkouts(upstream, &wanted, &shadowed);
                    },
                    None => {},
                }
            },
            None => {},
        }
        let head_filters = if force_clean {
            Some(clone_texts(&env.head_filters))
        } else {
            None
        };
        Ok(PreparePlan { head_filters, ignore_list, remove, checkout })
    }

    /// A pattern that `prepare` needs does not compile: one of the
    /// ignore list, a head pattern, or, where there are upstream files to
    /// choose from, a propagated pattern.
    pub open spec fn prepare_fault(&self, env: &EnvironmentConfig) -> bool {
        ||| !all_compile(ignore_patterns(self.path_to_config@, self.db.state_dir@))
        ||| !all_compile(texts(env.head_filters@))
        ||| self.pattern_fault(env)
    }

    /// Records what `env` deploys now: its snapshot becomes the current
    /// one, and the history is pruned.
    ///
    /// It fails, and changes nothing, where the upstream of `env` was
    /// never recorded, and where a pattern does not compile.
    pub fn record_env(&mut self, env: &EnvironmentConfig, tree: &WorkingTree) -> (done: Result<
        Recorded,
        EngineError,
    >)
        requires
            old(self).wf(),
            tree.on_disk.wf(),
        ensures
            final(self).wf(),
            final(self).path_to_config == old(self).path_to_config,
            final(self).db.state_dir@ == old(self).db.state_dir@,
            match done {
                Err(EngineError::Prerequisite { upstream }) => {
                    &&& missing_upstream(old(self).db@, text_view(env.propagated_from)) == Some(
                        upstream@,
                    )
                    &&& final(self).db@ == old(self).db@
                },
                Err(EngineError::Config) => {
                    &&& old(self).pattern_fault(env)
                    &&& missing_upstream(old(self).db@, text_view(env.propagated_from)) is None
                    &&& final(self).db@ == old(self).db@
                },
                Ok(recorded_as) => {
                    &&& missing_upstream(old(self).db@, text_view(env.propagated_from)) is None
                    &&& !old(self).pattern_fault(env)
                    &&& final(self).db@ == recorded(
                        old(self).db@,
                        env.name@,
                        text_view(env.propagated_from),
                        old(self).snapshot(env, true, tree),
                    )
                    &&& diff_views(recorded_as.diffs@) == report_of(
                        old(self).db@,
                        env.name@,
                        old(self).snapshot(env, true, tree),
                    )
                    &&& recorded_as.state_file@ == state_file_of(old(self).db.state_dir@, env.name@)
                },
            },
    {
        match self.find_missing_upstream(env) {
            Some(upstream) => {
                return Err(EngineError::Prerequisite { upstream });
            },
            None => {},
        }
        let state = match self.construct_env_state(env, true, tree) {
            Ok(state) => state,
            Err(e) => {
                return Err(e);
            },
        };
        let diffs = match self.db.get_current_state(env.name.as_str()) {
            Some(last) => state.diff(last),
            None => list_as_added(&state),
        };
        let upstream = match &env.propagated_from {
            Some(upstream) => Some(upstream.clone()),
            None => None,
        };
        let state_file = self.db.set_current_environment_state(env.name.clone(), upstream, state);
        Ok(Recorded { state_file, diffs })
    }
}

/// A copy of a list of texts.
pub fn clone_texts(list: &Vec<String>) -> (copy: Vec<String>)
    ensures
        texts(copy@) == texts(list@),
{
    let mut copy: Vec<String> = Vec::new();
    let mut i: usize = 0;
    while i < list.len()
        invariant
            i <= list@.len(),
            copy@.len() == i,
            forall|j: int| 0 <= j < i ==> (#[trigger] copy@[j])@ == list@[j]@,
        decreases list@.len() - i,
    {
        copy.push(list[i].clone());
        i += 1;
    }
    assert(texts(copy@) =~= texts(list@));
    copy
}

} // verus!
