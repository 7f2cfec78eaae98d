//! The snapshot that an environment deploys: which version of which file.

use vstd::prelude::*;
use vstd::string::{StrSliceExecFns, StringExecFns};
use crate::ordered_map::{OrderedMap, lemma_entry_at, lists, sorted_keys};

verus! {

/// How many characters of a commit hash its short form keeps.
pub const SHORT_REF_LEN: usize = 7;

/// The identifier of a commit. Two of them are the same commit exactly
/// when their texts are the same.
#[derive(Debug, PartialEq, Eq)]
pub struct CommitHash {
    hex: String,
}

impl View for CommitHash {
    type V = Seq<char>;

    closed spec fn view(&self) -> Seq<char> {
        self.hex@
    }
}

impl Clone for CommitHash {
    fn clone(&self) -> (c: Self)
        ensures
            c@ == self@,
    {
        CommitHash { hex: self.hex.clone() }
    }
}

/// The leading characters of `full` that make up its short form.
pub open spec fn short_ref(full: Seq<char>) -> Seq<char> {
    if full.len() <= SHORT_REF_LEN {
        full
    } else {
        full.take(SHORT_REF_LEN as int)
    }
}

impl CommitHash {
    pub fn new(hex: String) -> (c: Self)
        ensures
            c@ == hex@,
    {
        CommitHash { hex }
    }

    /// The full form.
    pub fn as_str(&self) -> (s: &str)
        ensures
            s@ == self@,
    {
        self.hex.as_str()
    }

    /// The short form: the first characters of the full one.
    pub fn to_short_ref(&self) -> (s: String)
        ensures
            s@ == short_ref(self@),
    {
        let full = self.hex.as_str();
        let n = full.unicode_len();
        if n <= SHORT_REF_LEN {
            assert(full@.subrange(0, n as int) =~= full@);
            String::from_str(full)
        } else {
            String::from_str(full.substring_char(0, SHORT_REF_LEN))
        }
    }

    pub fn same(&self, other: &CommitHash) -> (b: bool)
        ensures
            b == (self@ == other@),
    {
        self.hex == other.hex
    }
}

/// The fingerprint of a file's content.
#[derive(Debug, PartialEq, Eq)]
pub struct FileHash {
    hex: String,
}

impl View for FileHash {
    type V = Seq<char>;

    closed spec fn view(&self) -> Seq<char> {
        self.hex@
    }
}

impl Clone for FileHash {
    fn clone(&self) -> (c: Self)
        ensures
            c@ == self@,
    {
        FileHash { hex: self.hex.clone() }
    }
}

impl FileHash {
    pub fn new(hex: String) -> (h: Self)
        ensures
            h@ == hex@,
    {
        FileHash { hex }
    }

    pub fn as_str(&self) -> (s: &str)
        ensures
            s@ == self@,
    {
        self.hex.as_str()
    }

    pub fn same(&self, other: &FileHash) -> (b: bool)
        ensures
            b == (self@ == other@),
    {
        self.hex == other.hex
    }
}

/// The view of an optional fingerprint.
pub open spec fn hash_view(h: Option<FileHash>) -> Option<Seq<char>> {
    match h {
        Some(h) => Some(h@),
        None => None,
    }
}

/// The view of an optional commit.
pub open spec fn commit_view(c: Option<CommitHash>) -> Option<Seq<char>> {
    match c {
        Some(c) => Some(c@),
        None => None,
    }
}

/// Whether two optional fingerprints are the same.
pub fn same_hash(a: &Option<FileHash>, b: &Option<FileHash>) -> (r: bool)
    ensures
        r == (hash_view(*a) == hash_view(*b)),
{
    match (a, b) {
        (Some(x), Some(y)) => x.same(y),
        (None, None) => true,
        _ => false,
    }
}

pub fn clone_hash(h: &Option<FileHash>) -> (c: Option<FileHash>)
    ensures
        hash_view(c) == hash_view(*h),
{
    match h {
        Some(x) => Some(x.clone()),
        None => None,
    }
}

pub fn clone_commit(c: &Option<CommitHash>) -> (d: Option<CommitHash>)
    ensures
        commit_view(d) == commit_view(*c),
{
    match c {
        Some(x) => Some(x.clone()),
        None => None,
    }
}

/// What is known of one file in a snapshot.
#[derive(Debug, PartialEq, Eq)]
pub struct FileState {
    /// `None` where the file was logically removed.
    pub file_hash: Option<FileHash>,
    /// The working tree differs from what the last commit holds at this path.
    pub dirty: bool,
    /// The last commit that changed this path.
    pub from_commit: CommitHash,
    /// The subject of `from_commit`.
    pub message: String,
    /// The version was carried over from the upstream environment.
    pub propagated: bool,
}

pub struct FileStateView {
    pub file_hash: Option<Seq<char>>,
    pub dirty: bool,
    pub from_commit: Seq<char>,
    pub message: Seq<char>,
    pub propagated: bool,
}

impl View for FileState {
    type V = FileStateView;

    open spec fn view(&self) -> FileStateView {
        FileStateView {
            file_hash: hash_view(self.file_hash),
            dirty: self.dirty,
            from_commit: self.from_commit@,
            message: self.message@,
            propagated: self.propagated,
        }
    }
}

impl Clone for FileState {
    fn clone(&self) -> (c: Self)
        ensures
            c@ == self@,
    {
        FileState {
            file_hash: clone_hash(&self.file_hash),
            dirty: self.dirty,
            from_commit: self.from_commit.clone(),
            message: self.message.clone(),
            propagated: self.propagated,
        }
    }
}

/// The line that describes a file's version: the short commit in square
/// brackets, a dash, the commit's subject.
pub open spec fn description(f: FileStateView) -> Seq<char> {
    "["@ + short_ref(f.from_commit) + "] - "@ + f.message
}

impl FileState {
    pub fn describe(&self) -> (line: String)
        ensures
            line@ == description(self@),
    {
        let mut line = String::from_str("[");
        line.append(self.from_commit.to_short_ref().as_str());
        line.append("] - ");
        line.append(self.message.as_str());
        line
    }
}

/// The views of the files of a snapshot, each under its path.
pub open spec fn file_views(files: Map<Seq<char>, FileState>) -> Map<Seq<char>, FileStateView> {
    files.map_values(|f: FileState| f@)
}

/// Some file of `files` is dirty.
pub open spec fn some_dirty(files: Map<Seq<char>, FileStateView>) -> bool {
    exists|p: Seq<char>| files.contains_key(p) && (#[trigger] files[p]).dirty
}

/// What an environment deploys at one moment.
#[derive(Debug, PartialEq, Eq)]
pub struct DeployState {
    /// HEAD when the snapshot was taken.
    pub head_commit: CommitHash,
    /// HEAD of the upstream snapshot that the propagated files came from.
    pub propagated_head: Option<CommitHash>,
    /// Whether some file was dirty when the flag was last computed.
    pub any_dirty: bool,
    /// The files, by path.
    pub files: OrderedMap<FileState>,
}

pub struct DeployStateView {
    pub head_commit: Seq<char>,
    pub propagated_head: Option<Seq<char>>,
    pub any_dirty: bool,
    pub files: Map<Seq<char>, FileStateView>,
}

impl View for DeployState {
    type V = DeployStateView;

    open spec fn view(&self) -> DeployStateView {
        DeployStateView {
            head_commit: self.head_commit@,
            propagated_head: commit_view(self.propagated_head),
            any_dirty: self.any_dirty,
            files: file_views(self.files@),
        }
    }
}

/// One entry of a comparison of two snapshots.
#[derive(Debug, PartialEq, Eq)]
pub struct FileDiff {
    pub path: String,
    /// The file's new state; `None` where the file is gone.
    pub current_state: Option<FileState>,
    /// The file is new: the old snapshot had no content for it.
    pub added: bool,
}

pub struct FileDiffView {
    pub path: Seq<char>,
    pub current_state: Option<FileStateView>,
    pub added: bool,
}

impl View for FileDiff {
    type V = FileDiffView;

    open spec fn view(&self) -> FileDiffView {
        FileDiffView {
            path: self.path@,
            current_state: match self.current_state {
                Some(f) => Some(f@),
                None => None,
            },
            added: self.added,
        }
    }
}

/// The views of a list of entries.
pub open spec fn diff_views(diffs: Seq<FileDiff>) -> Seq<FileDiffView> {
    diffs.map_values(|d: FileDiff| d@)
}

/// The state that an entry reports for a file: the file's own where it has
/// content, none where it is a tombstone.
pub open spec fn reported(f: FileStateView) -> Option<FileStateView> {
    if f.file_hash is Some {
        Some(f)
    } else {
        None
    }
}

/// What the comparison says of a path of the new snapshot.
///
/// A file that the old snapshot lacks is reported: as added where it has
/// content, as gone where it is a tombstone. A file that both hold is
/// reported where either side is dirty or the fingerprints differ, unless
/// both are tombstones; it counts as added where the old side was a
/// tombstone.
pub open spec fn change_at(
    new: Map<Seq<char>, FileStateView>,
    old: Map<Seq<char>, FileStateView>,
    path: Seq<char>,
) -> Option<FileDiffView> {
    let n = new[path];
    if !old.contains_key(path) {
        Some(FileDiffView { path, current_state: reported(n), added: n.file_hash is Some })
    } else {
        let o = old[path];
        if n.file_hash is None && o.file_hash is None {
            None
        } else if n.dirty || o.dirty || n.file_hash != o.file_hash {
            Some(FileDiffView { path, current_state: reported(n), added: o.file_hash is None })
        } else {
            None
        }
    }
}

/// What the comparison says of a path of the old snapshot: removed, where
/// the new snapshot does not hold the path.
pub open spec fn removal_at(new: Map<Seq<char>, FileStateView>, path: Seq<char>) -> Option<
    FileDiffView,
> {
    if new.contains_key(path) {
        None
    } else {
        Some(FileDiffView { path, current_state: None, added: false })
    }
}

/// The comparison of a new snapshot with an old one: first what it says of
/// the new snapshot's paths, in ascending order, then the removed paths, in
/// ascending order.
pub open spec fn diff_of(
    new: Map<Seq<char>, FileStateView>,
    old: Map<Seq<char>, FileStateView>,
) -> Seq<FileDiffView> {
    changes(sorted_keys(new.dom()), new, old) + removals(sorted_keys(old.dom()), new)
}

/// What the comparison says of each of `paths`, in their order.
pub open spec fn changes(
    paths: Seq<Seq<char>>,
    new: Map<Seq<char>, FileStateView>,
    old: Map<Seq<char>, FileStateView>,
) -> Seq<FileDiffView> {
    paths.filter_map(|p: Seq<char>| change_at(new, old, p))
}

/// The removals among `paths`, in their order.
pub open spec fn removals(paths: Seq<Seq<char>>, new: Map<Seq<char>, FileStateView>) -> Seq<
    FileDiffView,
> {
    paths.filter_map(|p: Seq<char>| removal_at(new, p))
}

/// One entry, or none, as a sequence.
pub open spec fn as_seq<T>(x: Option<T>) -> Seq<T> {
    match x {
        Some(x) => seq![x],
        None => Seq::empty(),
    }
}

/// The changes of one more path are those of the paths before it, then its own.
pub proof fn lemma_changes_step(
    paths: Seq<Seq<char>>,
    new: Map<Seq<char>, FileStateView>,
    old: Map<Seq<char>, FileStateView>,
    i: int,
)
    requires
        0 <= i < paths.len(),
    ensures
        changes(paths.take(i + 1), new, old) == changes(paths.take(i), new, old) + as_seq(
            change_at(new, old, paths[i]),
        ),
{
    let t = paths.take(i + 1);
    assert(t.drop_last() =~= paths.take(i));
    assert(t.last() == paths[i]);
    assert(changes(t, new, old) =~= changes(paths.take(i), new, old) + as_seq(
        change_at(new, old, paths[i]),
    ));
}

/// The removals of one more path are those of the paths before it, then its own.
pub proof fn lemma_removals_step(
    paths: Seq<Seq<char>>,
    new: Map<Seq<char>, FileStateView>,
    i: int,
)
    requires
        0 <= i < paths.len(),
    ensures
        removals(paths.take(i + 1), new) == removals(paths.take(i), new) + as_seq(
            removal_at(new, paths[i]),
        ),
{
    let t = paths.take(i + 1);
    assert(t.drop_last() =~= paths.take(i));
    assert(t.last() == paths[i]);
    assert(removals(t, new) =~= removals(paths.take(i), new) + as_seq(removal_at(new, paths[i])));
}

/// The state that an entry reports for `state`.
fn report(state: &FileState) -> (r: Option<FileState>)
    ensures
        (match r {
            Some(f) => Some(f@),
            None => None,
        }) == reported(state@),
{
    if state.file_hash.is_some() {
        Some(state.clone())
    } else {
        None
    }
}

impl DeployState {
    /// The paths of the files, ascending.
    pub open spec fn paths(&self) -> Seq<Seq<char>> {
        sorted_keys(self@.files.dom())
    }

    /// The files are walked in the order of `paths`.
    pub proof fn lemma_paths(&self)
        requires
            self.wf(),
        ensures
            self.files.key_seq() == self.paths(),
            lists(self.paths(), self@.files.dom()),
            self.paths().len() == self.files.value_seq().len(),
            forall|i: int|
                0 <= i < self.paths().len() ==> self@.files.contains_key(#[trigger] self.paths()[i])
                    && self@.files[self.paths()[i]] == self.files.value_seq()[i]@,
    {
        self.files.lemma_walk_order();
        assert(self@.files.dom() =~= self.files@.dom());
        assert forall|i: int| 0 <= i < self.paths().len() implies self@.files.contains_key(
            #[trigger] self.paths()[i],
        ) && self@.files[self.paths()[i]] == self.files.value_seq()[i]@ by {
            lemma_entry_at(self.files.key_seq(), self.files.value_seq(), i);
        }
    }

    pub open spec fn wf(&self) -> bool {
        self.files.wf()
    }

    /// A snapshot at `head_commit` that holds no file yet.
    pub fn new(head_commit: CommitHash) -> (s: Self)
        ensures
            s.wf(),
            s@ == (DeployStateView {
                head_commit: head_commit@,
                propagated_head: None,
                any_dirty: false,
                files: Map::empty(),
            }),
    {
        let s = DeployState {
            head_commit,
            propagated_head: None,
            any_dirty: false,
            files: OrderedMap::new(),
        };
        assert(s@.files =~= Map::empty());
        s
    }

    /// Compares this snapshot, the new one, with `other`, the old one.
    pub fn diff(&self, other: &DeployState) -> (diffs: Vec<FileDiff>)
        requires
            self.wf(),
            other.wf(),
        ensures
            diff_views(diffs@) == diff_of(self@.files, other@.files),
    {
        let ghost new = self@.files;
        let ghost old = other@.files;
        proof {
            self.lemma_paths();
            other.lemma_paths();
        }
        let mut diffs: Vec<FileDiff> = Vec::new();
        let n = self.files.len();
        let mut i: usize = 0;
        assert(self.paths().take(0) =~= Seq::empty());
        assert(diff_views(diffs@) =~= changes(self.paths().take(0), new, old));
        while i < n
            invariant
                self.wf(),
                other.wf(),
                new == self@.files,
                old == other@.files,
                n == self.paths().len(),
                self.files.key_seq() == self.paths(),
                i <= n,
                diff_views(diffs@) == changes(self.paths().take(i as int), new, old),
            decreases n - i,
        {
            let name = self.files.key_at(i);
            let state = self.files.value_at(i);
            let ghost before = diff_views(diffs@);
            proof {
                lemma_entry_at(self.files.key_seq(), self.files.value_seq(), i as int);
                lemma_changes_step(self.paths(), new, old, i as int);
            }
            match other.files.get(name.as_str()) {
                Some(last) => {
                    if state.file_hash.is_none() && last.file_hash.is_none() {
                    } else if state.dirty || last.dirty || !same_hash(
                        &state.file_hash,
                        &last.file_hash,
                    ) {
                        diffs.push(
                            FileDiff {
                                path: name.clone(),
                                current_state: report(state),
                                added: last.file_hash.is_none(),
                            },
                        );
                    }
                },
                None => {
                    diffs.push(
                        FileDiff {
                            path: name.clone(),
                            current_state: report(state),
                            added: state.file_hash.is_some(),
                        },
                    );
                },
            }
            assert(diff_views(diffs@) =~= before + as_seq(change_at(new, old, self.paths()[i as int])));
            i += 1;
        }
        assert(self.paths().take(n as int) =~= self.paths());
        let ghost head = diff_views(diffs@);
        let m = other.files.len();
        let mut j: usize = 0;
        assert(other.paths().take(0) =~= Seq::empty());
        assert(diff_views(diffs@) =~= head + removals(other.paths().take(0), new));
        while j < m
            invariant
                self.wf(),
                other.wf(),
                new == self@.files,
                m == other.paths().len(),
                other.files.key_seq() == other.paths(),
                j <= m,
                diff_views(diffs@) == head + removals(other.paths().take(j as int), new),
            decreases m - j,
        {
            let name = other.files.key_at(j);
            let ghost before = diff_views(diffs@);
            proof {
                lemma_removals_step(other.paths(), new, j as int);
            }
            if !self.files.contains_key(name.as_str()) {
                diffs.push(FileDiff { path: name.clone(), current_state: None, added: false });
            }
            assert(diff_views(diffs@) =~= before + as_seq(removal_at(new, other.paths()[j as int])));
            j += 1;
        }
        assert(other.paths().take(m as int) =~= other.paths());
        diffs
    }

    /// A snapshot made of the given parts, as it was stored.
    pub fn from_parts(
        head_commit: CommitHash,
        propagated_head: Option<CommitHash>,
        any_dirty: bool,
        files: OrderedMap<FileState>,
    ) -> (s: Self)
        requires
            files.wf(),
        ensures
            s.wf(),
            s@ == (DeployStateView {
                head_commit: head_commit@,
                propagated_head: commit_view(propagated_head),
                any_dirty,
                files: file_views(files@),
            }),
            s.files == files,
    {
        DeployState { head_commit, propagated_head, any_dirty, files }
    }

    /// A copy of this snapshot.
    pub fn duplicate(&self) -> (copy: Self)
        requires
            self.wf(),
        ensures
            copy.wf(),
            copy@ == self@,
    {
        proof {
            self.lemma_paths();
        }
        let mut files: OrderedMap<FileState> = OrderedMap::new();
        let n = self.files.len();
        let mut i: usize = 0;
        while i < n
            invariant
                self.wf(),
                files.wf(),
                self.files.key_seq() == self.paths(),
                lists(self.paths(), self@.files.dom()),
                n == self.paths().len(),
                n == self.files.value_seq().len(),
                forall|j: int|
                    0 <= j < self.paths().len() ==> self@.files.contains_key(
                        #[trigger] self.paths()[j],
                    ) && self@.files[self.paths()[j]] == self.files.value_seq()[j]@,
                i <= n,
                forall|k: Seq<char>| #[trigger]
                    file_views(files@).contains_key(k) <==> self.paths().contains(k)
                        && self.paths().index_of(k) < i,
                forall|k: Seq<char>|
                    file_views(files@).contains_key(k) ==> #[trigger] file_views(files@)[k]
                        == self@.files[k],
            decreases n - i,
        {
            let ghost before = file_views(files@);
            let ghost paths = self.paths();
            proof {
                lemma_entry_at(self.files.key_seq(), self.files.value_seq(), i as int);
                assert forall|k: Seq<char>| paths.contains(k) implies (paths.index_of(k) < i + 1
                    <==> paths.index_of(k) < i || k == paths[i as int]) by {
                    let j = paths.index_of(k);
                    assert(paths[j] == k);
                }
            }
            let file = self.files.value_at(i).clone();
            files.insert(self.files.key_at(i).clone(), file);
            assert(file_views(files@) =~= before.insert(paths[i as int], file@));
            i += 1;
        }
        proof {
            assert forall|k: Seq<char>| self.paths().contains(k) implies self.paths().index_of(k)
                < n by {
                let j = self.paths().index_of(k);
            }
            assert(file_views(files@) =~= self@.files);
        }
        DeployState {
            head_commit: self.head_commit.clone(),
            propagated_head: clone_commit(&self.propagated_head),
            any_dirty: self.any_dirty,
            files,
        }
    }

    /// The flag as it was last computed.
    pub fn any_dirty(&self) -> (b: bool)
        ensures
            b == self@.any_dirty,
    {
        self.any_dirty
    }

    /// Whether some file is dirty now.
    pub fn has_dirty_file(&self) -> (b: bool)
        requires
            self.wf(),
        ensures
            b == some_dirty(self@.files),
    {
        let n = self.files.len();
        let mut i: usize = 0;
        while i < n
            invariant
                self.wf(),
                n == self.files.key_seq().len(),
                i <= n,
                forall|j: int| 0 <= j < i ==> !(#[trigger] self.files.value_seq()[j]).dirty,
            decreases n - i,
        {
            if self.files.value_at(i).dirty {
                proof {
                    lemma_entry_at(self.files.key_seq(), self.files.value_seq(), i as int);
                    let p = self.files.key_seq()[i as int];
                    assert(self@.files.contains_key(p) && self@.files[p].dirty);
                }
                return true;
            }
            i += 1;
        }
        proof {
            assert forall|p: Seq<char>| self@.files.contains_key(p) implies !(
            #[trigger] self@.files[p]).dirty by {
                let j = self.files.key_seq().index_of(p);
                assert(self.files.key_seq()[j] == p);
            }
        }
        false
    }

    /// Sets the flag to whether some file is dirty.
    pub fn refresh_any_dirty(&mut self)
        requires
            old(self).wf(),
        ensures
            final(self).wf(),
            final(self)@ == (DeployStateView { any_dirty: some_dirty(old(self)@.files), ..old(self)@ }),
            final(self).files == old(self).files,
    {
        let b = self.has_dirty_file();
        self.any_dirty = b;
    }
}

} // verus!
