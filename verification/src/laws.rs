//! What holds of the comparison of snapshots and of the pruning of
//! histories, whatever the snapshots and the database.

use vstd::prelude::*;
use crate::database::{DbState, EnvironmentStateView, downstream_target, kept_len,
    lemma_kept_len_bound, lemma_next_with_head_bound, next_with_head, pruned, recorded,
    target_after, target_state};
use crate::ordered_map::{lemma_ascending_distinct, sorted_keys};
use crate::state::{DeployState, DeployStateView, FileDiffView, FileStateView, change_at, changes,
    diff_of, removal_at, removals};
use crate::text::text_view;
use crate::workspace::{EnvironmentConfig, WorkingTree, Workspace, missing_upstream};

verus! {

/// The position that `next_with_head` gives is the only one with nothing
/// taken at `head` between `from` and it, and a snapshot taken at `head`
/// at it unless it is the end.
pub proof fn lemma_next_is_first(queue: Seq<DeployStateView>, head: Seq<char>, from: int, r: int)
    requires
        0 <= from <= r <= queue.len(),
        forall|i: int| from <= i < r ==> (#[trigger] queue[i]).head_commit != head,
        r < queue.len() ==> queue[r].head_commit == head,
    ensures
        next_with_head(queue, head, from) == r,
    decreases r - from,
{
    if from < r {
        lemma_next_is_first(queue, head, from + 1, r);
    }
}

/// In a history cut to its first `keep` snapshots, the first snapshot
/// taken at `head` is where it was, or the search ends at the cut.
pub proof fn lemma_next_in_cut(queue: Seq<DeployStateView>, head: Seq<char>, keep: int)
    requires
        0 <= keep <= queue.len(),
    ensures
        next_with_head(queue.take(keep), head, 0) == if next_with_head(queue, head, 0) < keep {
            next_with_head(queue, head, 0)
        } else {
            keep
        },
{
    let first = next_with_head(queue, head, 0);
    lemma_next_with_head_bound(queue, head, 0);
    let r = if first < keep {
        first
    } else {
        keep
    };
    lemma_next_is_first(queue.take(keep), head, 0, r);
}

/// Searching from further on never ends earlier.
pub proof fn lemma_next_from_later(queue: Seq<DeployStateView>, head: Seq<char>, from: int)
    requires
        0 <= from <= queue.len(),
    ensures
        next_with_head(queue, head, 0) <= next_with_head(queue, head, from),
{
    lemma_next_with_head_bound(queue, head, 0);
    lemma_next_with_head_bound(queue, head, from);
}

/// Taking more environments into account never shortens what is kept.
pub proof fn lemma_kept_len_grows(
    envs: Map<Seq<char>, EnvironmentStateView>,
    names: Seq<Seq<char>>,
    name: Seq<char>,
    j: int,
)
    requires
        0 <= j <= names.len(),
    ensures
        kept_len(envs, names.take(j), name) <= kept_len(envs, names, name),
    decreases names.len() - j,
{
    if j < names.len() {
        let step = names.take(j + 1);
        assert(step.drop_last() =~= names.take(j));
        lemma_kept_len_bound(envs, names.take(j), name);
        match downstream_target(name, step.last(), envs[step.last()]) {
            Some(t) => {
                lemma_next_with_head_bound(
                    envs[name].propagation_queue,
                    t,
                    kept_len(envs, names.take(j), name),
                );
            },
            None => {},
        }
        lemma_kept_len_grows(envs, names, name, j + 1);
    } else {
        assert(names.take(j) =~= names);
    }
}

/// The history of `name` keeps at least what the environment at position
/// `j` of `names` asks for: the first snapshot taken at what that
/// environment consumed lies within what is kept, or at its end.
pub proof fn lemma_kept_len_covers(
    envs: Map<Seq<char>, EnvironmentStateView>,
    names: Seq<Seq<char>>,
    name: Seq<char>,
    j: int,
)
    requires
        0 <= j < names.len(),
    ensures
        match downstream_target(name, names[j], envs[names[j]]) {
            Some(t) => t == envs[name].current.head_commit || next_with_head(
                envs[name].propagation_queue,
                t,
                0,
            ) <= kept_len(envs, names, name),
            None => true,
        },
{
    let queue = envs[name].propagation_queue;
    let step = names.take(j + 1);
    assert(step.drop_last() =~= names.take(j));
    assert(step.last() == names[j]);
    let before = kept_len(envs, names.take(j), name);
    lemma_kept_len_bound(envs, names.take(j), name);
    lemma_kept_len_grows(envs, names, name, j + 1);
    match downstream_target(name, names[j], envs[names[j]]) {
        Some(t) => {
            if t != envs[name].current.head_commit {
                lemma_next_from_later(queue, t, before);
                assert(kept_len(envs, step, name) == next_with_head(queue, t, before));
            }
        },
        None => {},
    }
}

/// What a downstream picks up next from an upstream is the same after the
/// upstream's history was cut to `keep` snapshots, where the first
/// snapshot taken at what the downstream consumed lies within the cut or
/// at its end.
pub proof fn lemma_target_after_cut(upstream: EnvironmentStateView, head: Seq<char>, keep: int)
    requires
        0 <= keep <= upstream.propagation_queue.len(),
        head == upstream.current.head_commit || next_with_head(upstream.propagation_queue, head, 0)
            <= keep,
    ensures
        target_after(
            EnvironmentStateView {
                propagation_queue: upstream.propagation_queue.take(keep),
                ..upstream
            },
            head,
        ) == target_after(upstream, head),
{
    lemma_next_in_cut(upstream.propagation_queue, head, keep);
    lemma_next_with_head_bound(upstream.propagation_queue, head, 0);
}

/// Pruning the history of an environment takes no lookup away: whoever
/// could find a snapshot to propagate from that environment before the
/// pruning finds one after it.
pub proof fn law_pruning_keeps_lookups(db: DbState, name: Seq<char>, downstream: Seq<char>)
    requires
        db.wf(),
        target_state(db@, downstream, name) is Some,
    ensures
        target_state(pruned(db@, name), downstream, name) is Some,
{
}

/// Pruning the history of an environment keeps what every other
/// environment that propagates from it needs: the snapshot that such an
/// environment picks up next is the same before and after the pruning.
pub proof fn law_pruning_keeps_targets(db: DbState, name: Seq<char>, downstream: Seq<char>)
    requires
        db.wf(),
        db@.contains_key(downstream),
        downstream != name,
        db@[downstream].propagated_from == Some(name),
    ensures
        target_state(pruned(db@, name), downstream, name) == target_state(db@, downstream, name),
{
    let envs = db@;
    if envs.contains_key(name) {
        db.lemma_names();
        let names = sorted_keys(envs.dom());
        let j = names.index_of(downstream);
        assert(names.contains(downstream));
        assert(names[j] == downstream);
        lemma_kept_len_covers(envs, names, name, j);
        lemma_kept_len_bound(envs, names, name);
        match envs[downstream].current.propagated_head {
            Some(head) => {
                lemma_target_after_cut(envs[name], head, kept_len(envs, names, name));
            },
            None => {},
        }
    }
}

/// What the comparison of `new` with `old` says of `path`: what it says
/// of a path of the new snapshot, a removal for a path that only the old
/// snapshot holds, nothing for a path that neither holds.
pub open spec fn verdict(
    new: Map<Seq<char>, FileStateView>,
    old: Map<Seq<char>, FileStateView>,
    path: Seq<char>,
) -> Option<FileDiffView> {
    if new.contains_key(path) {
        change_at(new, old, path)
    } else if old.contains_key(path) {
        Some(FileDiffView { path, current_state: None, added: false })
    } else {
        None
    }
}

/// What `f` makes of a member of `s` is a member of `s.filter_map(f)`.
pub proof fn lemma_filter_map_has<A, B>(s: Seq<A>, f: spec_fn(A) -> Option<B>, k: int)
    requires
        0 <= k < s.len(),
        f(s[k]) is Some,
    ensures
        s.filter_map(f).contains(f(s[k])->0),
    decreases s.len(),
{
    let rest = s.drop_last();
    let out = s.filter_map(f);
    if k == s.len() - 1 {
        assert(out[out.len() - 1] == f(s[k])->0);
    } else {
        lemma_filter_map_has(rest, f, k);
        let i = rest.filter_map(f).index_of(f(s[k])->0);
        assert(out[i] == f(s[k])->0);
    }
}

/// The comparison holds an entry exactly where it is the verdict on the
/// entry's path.
pub proof fn law_diff_reports_verdicts(new: DeployState, old: DeployState, d: FileDiffView)
    requires
        new.wf(),
        old.wf(),
    ensures
        diff_of(new@.files, old@.files).contains(d) <==> verdict(new@.files, old@.files, d.path)
            == Some(d),
{
    let n = new@.files;
    let o = old@.files;
    let np = sorted_keys(n.dom());
    let op = sorted_keys(o.dom());
    new.lemma_paths();
    old.lemma_paths();
    let head = changes(np, n, o);
    let tail = removals(op, n);
    let all = diff_of(n, o);
    if all.contains(d) {
        let i = all.index_of(d);
        if i < head.len() {
            assert(head[i] == d);
            assert(head.contains(d));
            np.lemma_filter_map_contains(|p: Seq<char>| change_at(n, o, p), d);
        } else {
            assert(tail[i - head.len()] == d);
            assert(tail.contains(d));
            op.lemma_filter_map_contains(|p: Seq<char>| removal_at(n, p), d);
        }
    }
    if verdict(n, o, d.path) == Some(d) {
        if n.contains_key(d.path) {
            assert(np.contains(d.path));
            let k = np.index_of(d.path);
            lemma_filter_map_has(np, |p: Seq<char>| change_at(n, o, p), k);
            let i = head.index_of(d);
            assert(all[i] == d);
        } else {
            assert(op.contains(d.path));
            let k = op.index_of(d.path);
            lemma_filter_map_has(op, |p: Seq<char>| removal_at(n, p), k);
            let i = tail.index_of(d);
            assert(all[head.len() + i] == d);
        }
    }
}

/// A snapshot compared with itself gives no entry, unless it holds a
/// dirty file with content: such a file is reported whatever it is
/// compared with.
pub proof fn law_diff_identity(s: DeployState)
    requires
        s.wf(),
    ensures
        (diff_of(s@.files, s@.files) == Seq::<FileDiffView>::empty()) <==> (forall|p: Seq<char>|
            s@.files.contains_key(p) ==> !((#[trigger] s@.files[p]).dirty && s@.files[p].file_hash
                is Some)),
{
    let f = s@.files;
    let all = diff_of(f, f);
    if all.len() > 0 {
        let d = all[0];
        assert(all.contains(d));
        law_diff_reports_verdicts(s, s, d);
        assert(f.contains_key(d.path));
        assert(f[d.path].dirty && f[d.path].file_hash is Some);
    } else {
        assert(all =~= Seq::<FileDiffView>::empty());
        assert forall|p: Seq<char>| f.contains_key(p) implies !((#[trigger] f[p]).dirty
            && f[p].file_hash is Some) by {
            if f[p].dirty && f[p].file_hash is Some {
                let d = change_at(f, f, p)->0;
                law_diff_reports_verdicts(s, s, d);
                assert(all.contains(d));
            }
        }
    }
}

/// A path that the comparison of `a` with `b` reports as added is
/// reported as gone by the comparison of `b` with `a`.
pub proof fn law_added_is_removed_in_reverse(a: DeployState, b: DeployState, i: int)
    requires
        a.wf(),
        b.wf(),
        0 <= i < diff_of(a@.files, b@.files).len(),
        diff_of(a@.files, b@.files)[i].added,
    ensures
        exists|j: int|
            0 <= j < diff_of(b@.files, a@.files).len() && (#[trigger] diff_of(
                b@.files,
                a@.files,
            )[j]).path == diff_of(a@.files, b@.files)[i].path && diff_of(
                b@.files,
                a@.files,
            )[j].current_state is None,
{
    let forth = diff_of(a@.files, b@.files);
    let back = diff_of(b@.files, a@.files);
    let d = forth[i];
    assert(forth.contains(d));
    law_diff_reports_verdicts(a, b, d);
    let r = verdict(b@.files, a@.files, d.path)->0;
    law_diff_reports_verdicts(b, a, r);
    let j = back.index_of(r);
    assert(back[j].path == d.path && back[j].current_state is None);
}

/// Where both snapshots hold a path as a tombstone, the comparison has
/// no entry for it.
pub proof fn law_tombstones_collapse(a: DeployState, b: DeployState, path: Seq<char>)
    requires
        a.wf(),
        b.wf(),
        a@.files.contains_key(path),
        b@.files.contains_key(path),
        a@.files[path].file_hash is None,
        b@.files[path].file_hash is None,
    ensures
        forall|i: int|
            0 <= i < diff_of(a@.files, b@.files).len() ==> (#[trigger] diff_of(
                a@.files,
                b@.files,
            )[i]).path != path,
{
    let all = diff_of(a@.files, b@.files);
    assert forall|i: int| 0 <= i < all.len() implies (#[trigger] all[i]).path != path by {
        assert(all.contains(all[i]));
        law_diff_reports_verdicts(a, b, all[i]);
    }
}

/// An environment that was recorded has consumed what it propagated
/// from: its propagated head is the head of the upstream snapshot that
/// the lookup gave, and none where the lookup gave none.
pub proof fn law_recorded_head_is_target(ws: Workspace, env: EnvironmentConfig, tree: WorkingTree)
    requires
        ws.wf(),
    ensures
        ({
            let after = recorded(
                ws.db@,
                env.name@,
                text_view(env.propagated_from),
                ws.snapshot(&env, true, &tree),
            );
            &&& after.contains_key(env.name@)
            &&& after[env.name@].current.propagated_head == (match ws.target(&env) {
                Some(upstream) => Some(upstream.head_commit),
                None => None,
            })
        }),
{
}

/// After an environment was recorded that took its files from the
/// current snapshot of another environment, its propagated head is the
/// head of that snapshot.
pub proof fn law_recorded_head_is_upstream_head(
    ws: Workspace,
    env: EnvironmentConfig,
    tree: WorkingTree,
    upstream: Seq<char>,
)
    requires
        ws.wf(),
        text_view(env.propagated_from) == Some(upstream),
        upstream != env.name@,
        ws.db@.contains_key(upstream),
        ws.target(&env) == Some(ws.db@[upstream].current),
    ensures
        ({
            let after = recorded(
                ws.db@,
                env.name@,
                text_view(env.propagated_from),
                ws.snapshot(&env, true, &tree),
            );
            &&& after.contains_key(env.name@)
            &&& after.contains_key(upstream)
            &&& after[env.name@].current.propagated_head == Some(
                after[upstream].current.head_commit,
            )
        }),
{
}

/// What `f` makes of paths that differ are entries for paths that
/// differ, where `f` makes of a path an entry for that path.
pub proof fn lemma_entries_by_path(
    paths: Seq<Seq<char>>,
    f: spec_fn(Seq<char>) -> Option<FileDiffView>,
)
    requires
        forall|i: int, j: int|
            0 <= i < paths.len() && 0 <= j < paths.len() && i != j ==> #[trigger] paths[i]
                != #[trigger] paths[j],
        forall|p: Seq<char>| (#[trigger] f(p)) is Some ==> f(p)->0.path == p,
    ensures
        forall|i: int|
            0 <= i < paths.filter_map(f).len() ==> paths.contains(
                (#[trigger] paths.filter_map(f)[i]).path,
            ),
        forall|i: int, j: int|
            0 <= i < paths.filter_map(f).len() && 0 <= j < paths.filter_map(f).len() && i != j ==> (
            #[trigger] paths.filter_map(f)[i]).path != (#[trigger] paths.filter_map(f)[j]).path,
    decreases paths.len(),
{
    let out = paths.filter_map(f);
    if paths.len() > 0 {
        let rest = paths.drop_last();
        let before = rest.filter_map(f);
        lemma_entries_by_path(rest, f);
        assert forall|i: int| 0 <= i < before.len() implies paths.contains(
            (#[trigger] before[i]).path,
        ) && before[i].path != paths.last() by {
            let k = rest.index_of(before[i].path);
            assert(paths[k] == before[i].path);
        }
        assert forall|i: int| 0 <= i < out.len() implies paths.contains((#[trigger] out[i]).path) by {
            if i < before.len() {
                assert(out[i] == before[i]);
            } else {
                assert(paths[paths.len() - 1] == paths.last());
            }
        }
        assert forall|i: int, j: int|
            0 <= i < out.len() && 0 <= j < out.len() && i != j implies (#[trigger] out[i]).path != (
        #[trigger] out[j]).path by {
            if i < before.len() {
                assert(out[i] == before[i]);
            }
            if j < before.len() {
                assert(out[j] == before[j]);
            }
        }
    }
}

/// The comparison has at most one entry for a path.
pub proof fn law_diff_has_one_entry_per_path(new: DeployState, old: DeployState, i: int, j: int)
    requires
        new.wf(),
        old.wf(),
        0 <= i < diff_of(new@.files, old@.files).len(),
        0 <= j < diff_of(new@.files, old@.files).len(),
        i != j,
    ensures
        diff_of(new@.files, old@.files)[i].path != diff_of(new@.files, old@.files)[j].path,
{
    let n = new@.files;
    let o = old@.files;
    let np = sorted_keys(n.dom());
    let op = sorted_keys(o.dom());
    new.lemma_paths();
    old.lemma_paths();
    lemma_ascending_distinct(np);
    lemma_ascending_distinct(op);
    let head = changes(np, n, o);
    let tail = removals(op, n);
    lemma_entries_by_path(np, |p: Seq<char>| change_at(n, o, p));
    lemma_entries_by_path(op, |p: Seq<char>| removal_at(n, p));
    let all = diff_of(n, o);
    if i < head.len() && j >= head.len() {
        let d = tail[j - head.len()];
        assert(tail.contains(d));
        op.lemma_filter_map_contains(|p: Seq<char>| removal_at(n, p), d);
        assert(np.contains(head[i].path));
    } else if j < head.len() && i >= head.len() {
        let d = tail[i - head.len()];
        assert(tail.contains(d));
        op.lemma_filter_map_contains(|p: Seq<char>| removal_at(n, p), d);
        assert(np.contains(head[j].path));
    } else if i < head.len() {
        assert(all[i] == head[i] && all[j] == head[j]);
    } else {
        assert(all[i] == tail[i - head.len()] && all[j] == tail[j - head.len()]);
    }
}

/// Every environment that names an upstream has one that was recorded.
pub open spec fn upstreams_recorded(envs: Map<Seq<char>, EnvironmentStateView>) -> bool {
    forall|name: Seq<char>|
        envs.contains_key(name) ==> (match (#[trigger] envs[name]).propagated_from {
            Some(upstream) => envs.contains_key(upstream),
            None => true,
        })
}

/// Recording keeps every upstream in place: where every recorded
/// environment had its upstream recorded, and the environment that is
/// recorded now has, the same holds afterwards.
pub proof fn law_recording_keeps_upstreams(
    envs: Map<Seq<char>, EnvironmentStateView>,
    name: Seq<char>,
    propagated_from: Option<Seq<char>>,
    state: DeployStateView,
)
    requires
        upstreams_recorded(envs),
        missing_upstream(envs, propagated_from) is None,
    ensures
        upstreams_recorded(recorded(envs, name, propagated_from, state)),
{
    let after = recorded(envs, name, propagated_from, state);
    assert forall|n: Seq<char>| after.contains_key(n) implies (match (
    #[trigger] after[n]).propagated_from {
        Some(upstream) => after.contains_key(upstream),
        None => true,
    }) by {
        if n != name {
            assert(envs.contains_key(n));
            assert(after[n] == envs[n]);
        }
    }
}

} // verus!
