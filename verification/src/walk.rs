//! The walk over a directory tree, as a machine that decides and leaves
//! the looking and the doing to its caller.
//!
//! The caller asks the walk for the path to look at, looks it up in the
//! file system, and reports what it found. The walk answers with the action
//! that the caller owes, and goes on to the next path: the entries of a
//! directory first, in the order of the listing, then what was pending
//! before.

use vstd::prelude::*;

verus! {

/// What the file system shows at a path.
#[derive(Clone, Copy, PartialEq, Eq, Debug, Structural)]
pub enum Kind {
    /// Nothing is there.
    Missing,
    /// A directory whose entries could be listed.
    Directory,
    /// Anything else that exists.
    File,
    /// A directory whose entries could not be listed.
    Unreadable,
}

/// What the caller is to do with the path that it looked at.
#[derive(Clone, Copy, PartialEq, Eq, Debug, Structural)]
pub enum Action {
    /// Say that nothing is at the path, and go on.
    Trace,
    /// Nothing: the entries of the directory come next.
    Descend,
    /// Hand the path to the file handler, and report how it went.
    Handle,
    /// Give up and pass the failure on: the walk is over.
    Abort,
    /// Nothing: no path was pending, the walk is over.
    Finished,
}

/// What the caller found at a path.
#[derive(Debug)]
pub enum Entry {
    /// Nothing is there.
    Missing,
    /// A directory, with the paths of its entries in the order of the listing.
    Directory(Vec<String>),
    /// Anything else that exists.
    File,
    /// A directory whose entries could not be listed.
    Unreadable,
}

/// The texts of some paths.
pub open spec fn texts(paths: Seq<String>) -> Seq<Seq<char>> {
    Seq::new(paths.len(), |i: int| paths[i]@)
}

impl Entry {
    /// The kind of what was found.
    pub open spec fn kind(&self) -> Kind {
        match self {
            Entry::Missing => Kind::Missing,
            Entry::Directory(_) => Kind::Directory,
            Entry::File => Kind::File,
            Entry::Unreadable => Kind::Unreadable,
        }
    }

    /// The paths of the entries, for a directory; else nothing.
    pub open spec fn listing(&self) -> Seq<Seq<char>> {
        match self {
            Entry::Directory(paths) => texts(paths@),
            _ => Seq::empty(),
        }
    }
}

/// The state of a walk.
pub struct WalkState {
    /// The paths still to be looked at, the next one first.
    pub pending: Seq<Seq<char>>,
    /// Whether the walk was given up after a failure.
    pub failed: bool,
}

/// The state of a walk that is about to start at `root`.
pub open spec fn initial_state(root: Seq<char>) -> WalkState {
    WalkState { pending: seq![root], failed: false }
}

/// The state of a walk that is about to start at each of `roots` in turn.
pub open spec fn state_over(roots: Seq<Seq<char>>) -> WalkState {
    WalkState { pending: roots, failed: false }
}

/// The state of a walk that was given up.
pub open spec fn failed_state() -> WalkState {
    WalkState { pending: Seq::empty(), failed: true }
}

/// The action that is owed for the next pending path once its kind is
/// known.
pub open spec fn action_on(state: WalkState, kind: Kind) -> Action {
    if state.pending.len() == 0 {
        Action::Finished
    } else {
        match kind {
            Kind::Missing => Action::Trace,
            Kind::Directory => Action::Descend,
            Kind::File => Action::Handle,
            Kind::Unreadable => Action::Abort,
        }
    }
}

/// The state after the next pending path was found to be of `kind`, with
/// `listing` for the paths of its entries where it is a directory.
pub open spec fn state_after(state: WalkState, kind: Kind, listing: Seq<Seq<char>>) -> WalkState {
    if state.pending.len() == 0 {
        state
    } else {
        match kind {
            Kind::Missing | Kind::File => WalkState {
                pending: state.pending.skip(1),
                failed: state.failed,
            },
            Kind::Directory => WalkState {
                pending: listing + state.pending.skip(1),
                failed: state.failed,
            },
            Kind::Unreadable => failed_state(),
        }
    }
}

/// The state after the file handler has returned.
pub open spec fn state_after_handler(state: WalkState, succeeded: bool) -> WalkState {
    if succeeded {
        state
    } else {
        failed_state()
    }
}

/// A walk in progress.
pub struct Walk {
    /// The pending paths, the next one last.
    stack: Vec<String>,
    failed: bool,
}

impl View for Walk {
    type V = WalkState;

    closed spec fn view(&self) -> WalkState {
        WalkState {
            pending: Seq::new(
                self.stack@.len(),
                |i: int| self.stack@[self.stack@.len() - 1 - i]@,
            ),
            failed: self.failed,
        }
    }
}

impl Walk {
    /// A walk that starts at `root`.
    pub fn new(root: String) -> (walk: Walk)
        ensures
            walk@ == initial_state(root@),
    {
        let mut stack: Vec<String> = Vec::new();
        stack.push(root);
        let walk = Walk { stack, failed: false };
        assert(walk@.pending =~= seq![root@]);
        walk
    }

    /// A walk that starts at each of `roots` in turn: at the first, and
    /// when all under it is done at the second, and so on. A failure under
    /// one root ends the walk, so that later roots are not looked at.
    pub fn over(roots: Vec<String>) -> (walk: Walk)
        ensures
            walk@ == state_over(texts(roots@)),
    {
        let mut walk = Walk { stack: Vec::new(), failed: false };
        assert(walk@.pending =~= Seq::empty());
        walk.put_first(roots);
        assert(walk@.pending =~= texts(roots@));
        walk
    }

    /// The path to look at next, if the walk is not over.
    pub fn current(&self) -> (path: Option<&String>)
        ensures
            match path {
                Some(path) => self@.pending.len() > 0 && path@ == self@.pending[0],
                None => self@.pending.len() == 0,
            },
    {
        let n = self.stack.len();
        if n == 0 {
            None
        } else {
            Some(&self.stack[n - 1])
        }
    }

    /// Whether the walk was given up after a failure.
    pub fn failed(&self) -> (failed: bool)
        ensures
            failed == self@.failed,
    {
        self.failed
    }

    /// Takes in what the caller found at the current path, and tells what
    /// is to be done with that path.
    pub fn advance(&mut self, entry: Entry) -> (action: Action)
        ensures
            action == action_on(old(self)@, entry.kind()),
            final(self)@ == state_after(old(self)@, entry.kind(), entry.listing()),
    {
        let ghost before = self@;
        if self.stack.len() == 0 {
            return Action::Finished;
        }
        self.stack.pop();
        assert(self@.pending =~= before.pending.skip(1));
        match entry {
            Entry::Missing => Action::Trace,
            Entry::File => Action::Handle,
            Entry::Unreadable => {
                self.give_up();
                Action::Abort
            },
            Entry::Directory(paths) => {
                self.put_first(paths);
                Action::Descend
            },
        }
    }

    /// Takes in how the file handler went: a failure ends the walk.
    pub fn handled(&mut self, succeeded: bool)
        ensures
            final(self)@ == state_after_handler(old(self)@, succeeded),
    {
        if !succeeded {
            self.give_up();
        }
    }

    /// Puts `paths` before what is pending, in their order.
    fn put_first(&mut self, paths: Vec<String>)
        ensures
            final(self)@.pending == texts(paths@) + old(self)@.pending,
            final(self)@.failed == old(self)@.failed,
    {
        let ghost before = self@;
        let ghost listing = texts(paths@);
        let mut paths = paths;
        assert(listing.skip(listing.len() as int) + before.pending =~= before.pending);
        while paths.len() > 0
            invariant
                paths@.len() <= listing.len(),
                texts(paths@) == listing.take(paths@.len() as int),
                self@.pending == listing.skip(paths@.len() as int) + before.pending,
                self@.failed == before.failed,
            decreases paths.len(),
        {
            let ghost pending = self@.pending;
            let ghost left = paths@.len() as int;
            let ghost shown = texts(paths@);
            let path = paths.pop().unwrap();
            assert(path@ == listing[left - 1]) by {
                assert(listing.take(left)[left - 1] == shown[left - 1]);
            }
            self.stack.push(path);
            assert(self@.pending =~= seq![path@] + pending);
            assert(self@.pending =~= listing.skip(left - 1) + before.pending);
            assert(texts(paths@) =~= listing.take(left - 1)) by {
                assert forall|i: int| 0 <= i < left - 1 implies texts(paths@)[i] == listing[i] by {
                    assert(listing.take(left)[i] == shown[i]);
                }
            }
        }
        assert(listing.skip(0) =~= listing);
    }

    fn give_up(&mut self)
        ensures
            final(self)@ == failed_state(),
    {
        self.stack = Vec::new();
        self.failed = true;
        assert(self@.pending =~= Seq::empty());
    }
}

/// What stands at a path of a file system that can be read throughout:
/// nothing, a file, or a directory with what stands at each of its entries.
pub enum Tree {
    /// Nothing is at the path.
    Missing { path: Seq<char> },
    /// A file, or anything else that is no directory.
    File { path: Seq<char> },
    /// A directory and its entries, in the order of its listing.
    Directory { path: Seq<char>, entries: Seq<Tree> },
}

impl Tree {
    /// The path at which the tree stands.
    pub open spec fn path(self) -> Seq<char> {
        match self {
            Tree::Missing { path } => path,
            Tree::File { path } => path,
            Tree::Directory { path, .. } => path,
        }
    }

    /// What looking at the path of the tree shows.
    pub open spec fn kind(self) -> Kind {
        match self {
            Tree::Missing { .. } => Kind::Missing,
            Tree::File { .. } => Kind::File,
            Tree::Directory { .. } => Kind::Directory,
        }
    }

    /// The entries of a directory; nothing for anything else.
    pub open spec fn entries(self) -> Seq<Tree> {
        match self {
            Tree::Directory { entries, .. } => entries,
            _ => Seq::empty(),
        }
    }

    /// The number of paths in the tree.
    pub open spec fn weight(self) -> nat
        decreases self,
    {
        match self {
            Tree::Directory { entries, .. } => 1 + weight_of(entries),
            _ => 1,
        }
    }

    /// The paths of the files in the tree, each once: those of the first
    /// entry of a directory first, and under it in the same way.
    pub open spec fn files(self) -> Seq<Seq<char>>
        decreases self,
    {
        match self {
            Tree::Missing { .. } => Seq::empty(),
            Tree::File { path } => seq![path],
            Tree::Directory { entries, .. } => files_of(entries),
        }
    }
}

/// The paths at which some trees stand.
pub open spec fn paths_of(trees: Seq<Tree>) -> Seq<Seq<char>> {
    Seq::new(trees.len(), |i: int| trees[i].path())
}

/// The number of paths in some trees.
pub open spec fn weight_of(trees: Seq<Tree>) -> nat
    decreases trees,
{
    if trees.len() == 0 {
        0
    } else {
        trees[0].weight() + weight_of(trees.subrange(1, trees.len() as int))
    }
}

/// The paths of the files in some trees, tree after tree.
pub open spec fn files_of(trees: Seq<Tree>) -> Seq<Seq<char>>
    decreases trees,
{
    if trees.len() == 0 {
        Seq::empty()
    } else {
        trees[0].files() + files_of(trees.subrange(1, trees.len() as int))
    }
}

/// The weight of trees put one behind the other is the sum of their weights.
pub proof fn lemma_weight_of_both(first: Seq<Tree>, second: Seq<Tree>)
    ensures
        weight_of(first + second) == weight_of(first) + weight_of(second),
    decreases first.len(),
{
    if first.len() == 0 {
        assert(first + second == second);
    } else {
        let rest = first.subrange(1, first.len() as int);
        lemma_weight_of_both(rest, second);
        assert((first + second).subrange(1, (first + second).len() as int) == rest + second);
    }
}

/// The files of trees put one behind the other are the files of the first,
/// then those of the second.
pub proof fn lemma_files_of_both(first: Seq<Tree>, second: Seq<Tree>)
    ensures
        files_of(first + second) == files_of(first) + files_of(second),
    decreases first.len(),
{
    if first.len() == 0 {
        assert(first + second == second);
    } else {
        let rest = first.subrange(1, first.len() as int);
        lemma_files_of_both(rest, second);
        assert((first + second).subrange(1, (first + second).len() as int) == rest + second);
    }
}

/// Putting the entries of the first tree in its place takes one path away.
pub proof fn lemma_weight_drops(trees: Seq<Tree>)
    requires
        trees.len() > 0,
    ensures
        weight_of(trees[0].entries() + trees.subrange(1, trees.len() as int)) + 1 == weight_of(
            trees,
        ),
{
    let tree = trees[0];
    lemma_weight_of_both(tree.entries(), trees.subrange(1, trees.len() as int));
    assert(weight_of(Seq::<Tree>::empty()) == 0);
    assert(tree.weight() == 1 + weight_of(tree.entries()));
}

/// The paths that are handed to the file handler when a walk in `state` is
/// run to its end and every handler succeeds, where `trees` says what
/// stands at each pending path.
pub open spec fn handled_paths(state: WalkState, trees: Seq<Tree>) -> Seq<Seq<char>>
    decreases weight_of(trees),
    via handled_paths_ends
{
    if state.pending.len() == 0 || trees.len() == 0 {
        Seq::empty()
    } else {
        let tree = trees[0];
        let next = state_after(state, tree.kind(), paths_of(tree.entries()));
        let rest = handled_paths(next, tree.entries() + trees.subrange(1, trees.len() as int));
        if action_on(state, tree.kind()) == Action::Handle {
            seq![state.pending[0]] + rest
        } else {
            rest
        }
    }
}

#[via_fn]
proof fn handled_paths_ends(state: WalkState, trees: Seq<Tree>) {
    if trees.len() > 0 {
        lemma_weight_drops(trees);
    }
}

/// A walk hands to the file handler the files under its pending paths, and
/// nothing else.
pub proof fn lemma_walk_handles_files(state: WalkState, trees: Seq<Tree>)
    requires
        state.pending == paths_of(trees),
    ensures
        handled_paths(state, trees) == files_of(trees),
    decreases weight_of(trees),
{
    if trees.len() > 0 {
        let tree = trees[0];
        let rest = trees.subrange(1, trees.len() as int);
        let next = state_after(state, tree.kind(), paths_of(tree.entries()));
        lemma_weight_drops(trees);
        assert(next.pending == paths_of(tree.entries() + rest));
        lemma_walk_handles_files(next, tree.entries() + rest);
        lemma_files_of_both(tree.entries(), rest);
        let found = handled_paths(next, tree.entries() + rest);
        assert(found == files_of(tree.entries()) + files_of(rest));
        assert(files_of(trees) == tree.files() + files_of(rest));
        assert(state.pending[0] == tree.path());
        match tree {
            Tree::Missing { .. } => {
                assert(handled_paths(state, trees) == found);
                assert(files_of(tree.entries()) == Seq::<Seq<char>>::empty());
                assert(found == files_of(rest));
            },
            Tree::File { path } => {
                assert(handled_paths(state, trees) == seq![path] + found);
                assert(files_of(tree.entries()) == Seq::<Seq<char>>::empty());
                assert(found == files_of(rest));
            },
            Tree::Directory { entries, .. } => {
                assert(handled_paths(state, trees) == found);
                assert(tree.files() == files_of(entries));
            },
        }
    }
}

/// Every file that can be reached from the root is visited exactly once: a
/// walk that starts at the path of a tree hands to the file handler the
/// paths of the files of the tree, each once and in the order of the
/// listings, provided every handler succeeds.
pub proof fn lemma_walk_visits_each_file_once(tree: Tree)
    ensures
        handled_paths(initial_state(tree.path()), seq![tree]) == tree.files(),
{
    let trees = seq![tree];
    assert(initial_state(tree.path()).pending == paths_of(trees));
    lemma_walk_handles_files(initial_state(tree.path()), trees);
    assert(trees.subrange(1, trees.len() as int) == Seq::<Tree>::empty());
    assert(files_of(Seq::<Tree>::empty()) == Seq::<Seq<char>>::empty());
    assert(trees[0].files() + Seq::<Seq<char>>::empty() == tree.files());
}

impl Tree {
    /// All the paths in the tree: its own, then those under each entry.
    pub open spec fn all_paths(self) -> Seq<Seq<char>>
        decreases self,
    {
        match self {
            Tree::Directory { path, entries } => seq![path] + all_paths_of(entries),
            _ => seq![self.path()],
        }
    }
}

/// All the paths in some trees, tree after tree.
pub open spec fn all_paths_of(trees: Seq<Tree>) -> Seq<Seq<char>>
    decreases trees,
{
    if trees.len() == 0 {
        Seq::empty()
    } else {
        trees[0].all_paths() + all_paths_of(trees.subrange(1, trees.len() as int))
    }
}

/// Whether everything in `part` is in `whole`.
pub open spec fn is_among<A>(part: Seq<A>, whole: Seq<A>) -> bool {
    forall|i: int| 0 <= i < part.len() ==> whole.contains(#[trigger] part[i])
}

/// Parts without duplicates, taken from the two halves of a sequence
/// without duplicates, make a sequence without duplicates.
proof fn lemma_parts_without_duplicates<A>(
    first: Seq<A>,
    second: Seq<A>,
    first_part: Seq<A>,
    second_part: Seq<A>,
)
    requires
        (first + second).no_duplicates(),
        is_among(first_part, first),
        is_among(second_part, second),
        first_part.no_duplicates(),
        second_part.no_duplicates(),
    ensures
        (first_part + second_part).no_duplicates(),
        is_among(first_part + second_part, first + second),
{
    let whole = first + second;
    let parts = first_part + second_part;
    assert forall|i: int| 0 <= i < parts.len() implies whole.contains(#[trigger] parts[i]) by {
        if i < first_part.len() {
            assert(first.contains(first_part[i]));
            let k = choose|k: int| 0 <= k < first.len() && first[k] == first_part[i];
            assert(whole[k] == parts[i]);
        } else {
            assert(second.contains(second_part[i - first_part.len()]));
            let k = choose|k: int|
                0 <= k < second.len() && second[k] == second_part[i - first_part.len()];
            assert(whole[first.len() + k] == parts[i]);
        }
    }
    assert forall|i: int, j: int|
        0 <= i < parts.len() && 0 <= j < parts.len() && i != j implies parts[i] != parts[j] by {
        if i < first_part.len() && j >= first_part.len() {
            assert(first.contains(first_part[i]));
            assert(second.contains(second_part[j - first_part.len()]));
            let k = choose|k: int| 0 <= k < first.len() && first[k] == first_part[i];
            let l = choose|l: int|
                0 <= l < second.len() && second[l] == second_part[j - first_part.len()];
            assert(whole[k] != whole[first.len() + l]);
        } else if j < first_part.len() && i >= first_part.len() {
            assert(first.contains(first_part[j]));
            assert(second.contains(second_part[i - first_part.len()]));
            let k = choose|k: int| 0 <= k < first.len() && first[k] == first_part[j];
            let l = choose|l: int|
                0 <= l < second.len() && second[l] == second_part[i - first_part.len()];
            assert(whole[k] != whole[first.len() + l]);
        }
    }
}

/// The two halves of a sequence without duplicates have none.
proof fn lemma_halves_without_duplicates<A>(first: Seq<A>, second: Seq<A>)
    requires
        (first + second).no_duplicates(),
    ensures
        first.no_duplicates(),
        second.no_duplicates(),
{
    let whole = first + second;
    assert forall|i: int, j: int|
        0 <= i < first.len() && 0 <= j < first.len() && i != j implies first[i] != first[j] by {
        assert(whole[i] != whole[j]);
    }
    assert forall|i: int, j: int|
        0 <= i < second.len() && 0 <= j < second.len() && i != j implies second[i]
        != second[j] by {
        assert(whole[first.len() + i] != whole[first.len() + j]);
    }
}

/// The files of a tree are among its paths, and no file comes twice where
/// no path does.
pub proof fn lemma_files_among_paths(tree: Tree)
    ensures
        is_among(tree.files(), tree.all_paths()),
        tree.all_paths().no_duplicates() ==> tree.files().no_duplicates(),
    decreases tree,
{
    match tree {
        Tree::Directory { path, entries } => {
            lemma_files_among_paths_of(entries);
            let under = all_paths_of(entries);
            assert forall|i: int| 0 <= i < tree.files().len() implies tree.all_paths().contains(
                #[trigger] tree.files()[i],
            ) by {
                assert(under.contains(tree.files()[i]));
                let k = choose|k: int| 0 <= k < under.len() && under[k] == tree.files()[i];
                assert(tree.all_paths()[k + 1] == tree.files()[i]);
            }
            if tree.all_paths().no_duplicates() {
                lemma_halves_without_duplicates(seq![path], under);
            }
        },
        Tree::File { path } => {
            assert(tree.all_paths()[0] == path);
        },
        Tree::Missing { .. } => {},
    }
}

/// The files of some trees are among their paths, and no file comes twice
/// where no path does.
pub proof fn lemma_files_among_paths_of(trees: Seq<Tree>)
    ensures
        is_among(files_of(trees), all_paths_of(trees)),
        all_paths_of(trees).no_duplicates() ==> files_of(trees).no_duplicates(),
    decreases trees,
{
    if trees.len() > 0 {
        let rest = trees.subrange(1, trees.len() as int);
        lemma_files_among_paths(trees[0]);
        lemma_files_among_paths_of(rest);
        let first = trees[0].all_paths();
        let second = all_paths_of(rest);
        if all_paths_of(trees).no_duplicates() {
            lemma_halves_without_duplicates(first, second);
            lemma_parts_without_duplicates(first, second, trees[0].files(), files_of(rest));
        } else {
            assert forall|i: int| 0 <= i < files_of(trees).len() implies all_paths_of(
                trees,
            ).contains(#[trigger] files_of(trees)[i]) by {
                let part = trees[0].files();
                if i < part.len() {
                    assert(first.contains(part[i]));
                    let k = choose|k: int| 0 <= k < first.len() && first[k] == part[i];
                    assert(all_paths_of(trees)[k] == files_of(trees)[i]);
                } else {
                    assert(second.contains(files_of(rest)[i - part.len()]));
                    let k = choose|k: int|
                        0 <= k < second.len() && second[k] == files_of(rest)[i - part.len()];
                    assert(all_paths_of(trees)[first.len() + k] == files_of(trees)[i]);
                }
            }
        }
    }
}

/// No file is visited twice: in a tree in which no path stands twice, a
/// walk from the root hands no path to the file handler twice.
pub proof fn lemma_walk_visits_no_file_twice(tree: Tree)
    requires
        tree.all_paths().no_duplicates(),
    ensures
        handled_paths(initial_state(tree.path()), seq![tree]).no_duplicates(),
{
    lemma_walk_visits_each_file_once(tree);
    lemma_files_among_paths(tree);
}

/// A root at which nothing stands is traced and ends the walk without a
/// failure; no file is handled.
pub proof fn lemma_missing_root(root: Seq<char>)
    ensures
        action_on(initial_state(root), Kind::Missing) == Action::Trace,
        state_after(initial_state(root), Kind::Missing, Seq::empty()) == (WalkState {
            pending: Seq::empty(),
            failed: false,
        }),
        handled_paths(initial_state(root), seq![Tree::Missing { path: root }]) == Seq::<
            Seq<char>,
        >::empty(),
{
    assert(initial_state(root).pending.skip(1) == Seq::<Seq<char>>::empty());
    lemma_walk_visits_each_file_once(Tree::Missing { path: root });
}

/// The first failure ends the walk: after a directory that cannot be read,
/// or a handler that failed, the walk has failed, nothing is pending, and
/// whatever is reported to it, it asks for nothing more and stays as it is.
pub proof fn lemma_failure_ends_walk(state: WalkState, kind: Kind, listing: Seq<Seq<char>>)
    ensures
        state.pending.len() > 0 ==> state_after(state, Kind::Unreadable, listing) == failed_state(),
        state_after_handler(state, false) == failed_state(),
        action_on(failed_state(), kind) == Action::Finished,
        state_after(failed_state(), kind, listing) == failed_state(),
        state_after_handler(failed_state(), false) == failed_state(),
{
}

} // verus!
