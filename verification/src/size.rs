//! The total size of a file or of a directory tree.
//!
//! The tree is walked with a queue of paths still to be looked at, not by
//! recursion. Looking at a path (reading its metadata, listing it where it
//! is a directory) is not done here: [`SizeScan`] hands out the next path
//! and takes what was found there.

use std::collections::VecDeque;
use vstd::prelude::*;

verus! {

/// What the metadata of an entry says.
#[derive(Clone, Copy, Debug, PartialEq, Eq)]
pub struct Meta {
    /// Whether the entry is a directory. A link is none, whatever it points
    /// to.
    pub is_dir: bool,
    /// The entry's own length in bytes.
    pub len: u64,
}

/// One entry of a directory listing.
#[derive(Debug, PartialEq, Eq)]
pub struct Entry<P> {
    /// The entry's path.
    pub path: P,
    /// The entry's metadata, `None` where it could not be read.
    pub meta: Option<Meta>,
}

/// What was found at a path.
#[derive(Debug, PartialEq, Eq)]
pub enum Found<P> {
    /// Nothing that could be read: the metadata of the path, or the listing
    /// of the directory, failed.
    Nothing,
    /// Something that is no directory, of this length in bytes.
    File(u64),
    /// A directory with these entries.
    Directory(Vec<Entry<P>>),
}

/// What was found at a path, as a mathematical value.
pub enum FoundView<P> {
    /// Nothing that could be read.
    Nothing,
    /// Something that is no directory, of this length in bytes.
    File(u64),
    /// A directory with these entries.
    Directory(Seq<Entry<P>>),
}

impl<P> View for Found<P> {
    type V = FoundView<P>;

    open spec fn view(&self) -> FoundView<P> {
        match self {
            Found::Nothing => FoundView::Nothing,
            Found::File(len) => FoundView::File(*len),
            Found::Directory(entries) => FoundView::Directory(entries@),
        }
    }
}

/// The state of a scan: the bytes counted so far and the paths still to be
/// looked at, the next one first.
pub struct ScanState<P> {
    /// The bytes counted so far.
    pub total: u64,
    /// The paths still to be looked at.
    pub pending: Seq<P>,
}

/// `total` and `bytes` added up, or the largest `u64` where the sum is
/// larger than that.
pub open spec fn saturating_sum(total: u64, bytes: nat) -> u64 {
    if total + bytes > u64::MAX {
        u64::MAX
    } else {
        (total + bytes) as u64
    }
}

/// The bytes that one entry of a listing counts for: its length where it is
/// readable and no directory, nothing otherwise.
pub open spec fn entry_bytes<P>(entry: Entry<P>) -> nat {
    match entry.meta {
        Some(meta) => if meta.is_dir {
            0
        } else {
            meta.len as nat
        },
        None => 0,
    }
}

/// Whether an entry of a listing is a readable directory.
pub open spec fn entry_is_dir<P>(entry: Entry<P>) -> bool {
    entry.meta matches Some(meta) && meta.is_dir
}

/// The bytes of the entries of a listing that are readable and no
/// directories.
pub open spec fn listing_bytes<P>(entries: Seq<Entry<P>>) -> nat
    decreases entries.len(),
{
    if entries.len() == 0 {
        0
    } else {
        listing_bytes(entries.drop_last()) + entry_bytes(entries.last())
    }
}

/// The paths of the entries of a listing that are readable directories, in
/// the order of the listing.
pub open spec fn listing_dirs<P>(entries: Seq<Entry<P>>) -> Seq<P>
    decreases entries.len(),
{
    if entries.len() == 0 {
        Seq::empty()
    } else if entry_is_dir(entries.last()) {
        listing_dirs(entries.drop_last()).push(entries.last().path)
    } else {
        listing_dirs(entries.drop_last())
    }
}

/// The bytes that a finding counts for.
pub open spec fn found_bytes<P>(found: FoundView<P>) -> nat {
    match found {
        FoundView::Nothing => 0,
        FoundView::File(len) => len as nat,
        FoundView::Directory(entries) => listing_bytes(entries),
    }
}

/// The directories that a finding adds to the queue.
pub open spec fn found_dirs<P>(found: FoundView<P>) -> Seq<P> {
    match found {
        FoundView::Directory(entries) => listing_dirs(entries),
        _ => Seq::empty(),
    }
}

/// The state of a scan after `found` was recorded in state `s`.
pub open spec fn recorded<P>(s: ScanState<P>, found: FoundView<P>) -> ScanState<P> {
    ScanState {
        total: saturating_sum(s.total, found_bytes(found)),
        pending: s.pending + found_dirs(found),
    }
}

/// Adding up in two steps saturates as adding up in one.
pub proof fn lemma_saturating_sum_twice(total: u64, a: nat, b: nat)
    ensures
        saturating_sum(saturating_sum(total, a), b) == saturating_sum(total, a + b),
{
}

/// A scan of the size of a tree.
pub struct SizeScan<P> {
    total: u64,
    queue: VecDeque<P>,
}

impl<P> View for SizeScan<P> {
    type V = ScanState<P>;

    closed spec fn view(&self) -> ScanState<P> {
        ScanState { total: self.total, pending: self.queue@ }
    }
}

impl<P> SizeScan<P> {
    /// A scan that has counted nothing and has `root` to look at.
    pub fn new(root: P) -> (scan: SizeScan<P>)
        ensures
            scan@ == (ScanState { total: 0, pending: seq![root] }),
    {
        let mut queue: VecDeque<P> = VecDeque::new();
        queue.push_back(root);
        let scan = SizeScan { total: 0, queue };
        assert(scan@.pending =~= seq![root]);
        scan
    }

    /// The bytes counted so far; the size of the tree once no path is left
    /// to look at.
    pub fn total(&self) -> (total: u64)
        ensures
            total == self@.total,
    {
        self.total
    }

    /// Takes the next path to look at off the queue; `None` when the scan is
    /// over.
    pub fn next(&mut self) -> (path: Option<P>)
        ensures
            final(self)@.total == old(self)@.total,
            match path {
                Some(p) => old(self)@.pending.len() > 0 && p == old(self)@.pending[0]
                    && final(self)@.pending == old(self)@.pending.skip(1),
                None => old(self)@.pending.len() == 0 && final(self)@.pending == old(
                    self,
                )@.pending,
            },
    {
        let path = self.queue.pop_front();
        proof {
            if path is Some {
                assert(self.queue@ =~= old(self).queue@.skip(1));
            }
        }
        path
    }

    /// Records what was found at a path: counts the bytes of a file, or of
    /// the entries of a directory that are readable and no directories, and
    /// queues the entries that are directories, in the order of the listing.
    /// The count stops at the largest `u64`.
    pub fn record(&mut self, found: Found<P>)
        ensures
            final(self)@ == recorded(old(self)@, found@),
    {
        match found {
            Found::Nothing => {
                assert(self.queue@ + Seq::<P>::empty() =~= self.queue@);
            },
            Found::File(len) => {
                self.total = self.total.saturating_add(len);
                assert(self.queue@ + Seq::<P>::empty() =~= self.queue@);
            },
            Found::Directory(entries) => {
                let ghost listing = entries@;
                assert(listing.take(0) =~= Seq::<Entry<P>>::empty());
                assert(self.queue@ + Seq::<P>::empty() =~= self.queue@);
                for entry in it: entries
                    invariant
                        it.seq() == listing,
                        self.total == saturating_sum(
                            old(self).total,
                            listing_bytes(listing.take(it.index() as int)),
                        ),
                        self.queue@ == old(self).queue@ + listing_dirs(
                            listing.take(it.index() as int),
                        ),
                {
                    let ghost i = it.index() as int;
                    proof {
                        assert(listing.take(i + 1).drop_last() =~= listing.take(i));
                        assert(listing.take(i + 1).last() == entry);
                        lemma_saturating_sum_twice(
                            old(self).total,
                            listing_bytes(listing.take(i)),
                            entry_bytes(entry),
                        );
                    }
                    match entry.meta {
                        Some(meta) => {
                            if meta.is_dir {
                                self.queue.push_back(entry.path);
                                assert(self.queue@ =~= old(self).queue@ + listing_dirs(
                                    listing.take(i + 1),
                                ));
                            } else {
                                self.total = self.total.saturating_add(meta.len);
                            }
                        },
                        None => {},
                    }
                }
                assert(listing.take(listing.len() as int) =~= listing);
            },
        }
    }
}

/// What cannot be read counts for nothing and queues nothing: recording it
/// leaves the scan as it was.
pub proof fn lemma_unreadable_changes_nothing<P>(s: ScanState<P>)
    ensures
        recorded(s, FoundView::Nothing) == s,
{
    assert(s.pending + Seq::<P>::empty() =~= s.pending);
}

/// A file tree as it stands at one moment.
pub enum Tree {
    /// Something whose metadata cannot be read.
    Unreadable,
    /// Something that is no directory, of this length in bytes.
    File(u64),
    /// A directory with these entries.
    Directory(Seq<Tree>),
}

/// The bytes of all the files of a tree that can be read.
pub open spec fn tree_bytes(t: Tree) -> nat
    decreases t,
{
    match t {
        Tree::Unreadable => 0,
        Tree::File(len) => len as nat,
        Tree::Directory(children) => forest_bytes(children),
    }
}

/// The bytes of all the files of several trees.
pub open spec fn forest_bytes(ts: Seq<Tree>) -> nat
    decreases ts,
{
    if ts.len() == 0 {
        0
    } else {
        forest_bytes(ts.drop_last()) + tree_bytes(ts.last())
    }
}

/// The number of files and directories of a tree, the tree itself counted.
pub open spec fn tree_nodes(t: Tree) -> nat
    decreases t,
{
    match t {
        Tree::Directory(children) => 1 + forest_nodes(children),
        _ => 1,
    }
}

/// The number of files and directories of several trees.
pub open spec fn forest_nodes(ts: Seq<Tree>) -> nat
    decreases ts,
{
    if ts.len() == 0 {
        0
    } else {
        forest_nodes(ts.drop_last()) + tree_nodes(ts.last())
    }
}

/// The metadata of a tree that is an entry of a listing.
pub open spec fn meta_of(t: Tree) -> Option<Meta> {
    match t {
        Tree::Unreadable => None,
        Tree::File(len) => Some(Meta { is_dir: false, len }),
        Tree::Directory(_) => Some(Meta { is_dir: true, len: 0 }),
    }
}

/// The listing of a directory with the entries `children`, each entry
/// standing for itself as its path.
pub open spec fn listing_of(children: Seq<Tree>) -> Seq<Entry<Tree>> {
    Seq::new(children.len(), |i: int| Entry { path: children[i], meta: meta_of(children[i]) })
}

/// What looking at the tree `t` finds.
pub open spec fn inspect(t: Tree) -> FoundView<Tree> {
    match t {
        Tree::Unreadable => FoundView::Nothing,
        Tree::File(len) => FoundView::File(len),
        Tree::Directory(children) => FoundView::Directory(listing_of(children)),
    }
}

/// One round of a scan over trees: the next tree is taken off the queue,
/// looked at, and what was found is recorded. A scan that is over stays as
/// it is.
pub open spec fn step(s: ScanState<Tree>) -> ScanState<Tree> {
    if s.pending.len() == 0 {
        s
    } else {
        recorded(ScanState { total: s.total, pending: s.pending.skip(1) }, inspect(s.pending[0]))
    }
}

/// `n` rounds of a scan over trees.
pub open spec fn steps(s: ScanState<Tree>, n: nat) -> ScanState<Tree>
    decreases n,
{
    if n == 0 {
        s
    } else {
        steps(step(s), (n - 1) as nat)
    }
}

/// The bytes and the nodes of two forests add up.
pub proof fn lemma_forest_concat(a: Seq<Tree>, b: Seq<Tree>)
    ensures
        forest_bytes(a + b) == forest_bytes(a) + forest_bytes(b),
        forest_nodes(a + b) == forest_nodes(a) + forest_nodes(b),
    decreases b.len(),
{
    if b.len() == 0 {
        assert(a + b =~= a);
    } else {
        assert((a + b).drop_last() =~= a + b.drop_last());
        lemma_forest_concat(a, b.drop_last());
    }
}

/// A forest is its first tree and the rest.
pub proof fn lemma_forest_first(ts: Seq<Tree>)
    requires
        ts.len() > 0,
    ensures
        forest_bytes(ts) == tree_bytes(ts[0]) + forest_bytes(ts.skip(1)),
        forest_nodes(ts) == tree_nodes(ts[0]) + forest_nodes(ts.skip(1)),
{
    let first = seq![ts[0]];
    assert(first.drop_last() =~= Seq::<Tree>::empty());
    assert(forest_bytes(first.drop_last()) == 0);
    assert(forest_nodes(first.drop_last()) == 0);
    assert(first.last() == ts[0]);
    assert(forest_bytes(first) == tree_bytes(ts[0]));
    assert(forest_nodes(first) == tree_nodes(ts[0]));
    assert(ts =~= first + ts.skip(1));
    lemma_forest_concat(first, ts.skip(1));
}

/// The files of a directory are counted when it is listed, its directories
/// are queued: together they are all that the directory holds.
pub proof fn lemma_listing_splits(children: Seq<Tree>)
    ensures
        listing_bytes(listing_of(children)) + forest_bytes(listing_dirs(listing_of(children)))
            == forest_bytes(children),
        forest_nodes(listing_dirs(listing_of(children))) <= forest_nodes(children),
    decreases children.len(),
{
    if children.len() > 0 {
        let listing = listing_of(children);
        assert(listing.drop_last() =~= listing_of(children.drop_last()));
        lemma_listing_splits(children.drop_last());
        let before = listing_dirs(listing.drop_last());
        let child = children.last();
        assert(listing.last() == Entry { path: child, meta: meta_of(child) });
        assert(listing_bytes(listing) == listing_bytes(listing.drop_last()) + entry_bytes(
            listing.last(),
        ));
        assert(forest_bytes(children) == forest_bytes(children.drop_last()) + tree_bytes(child));
        assert(forest_nodes(children) == forest_nodes(children.drop_last()) + tree_nodes(child));
        if entry_is_dir(listing.last()) {
            let after = before.push(child);
            assert(listing_dirs(listing) == after);
            assert(after.drop_last() =~= before);
            assert(after.last() == child);
            assert(forest_bytes(after) == forest_bytes(before) + tree_bytes(child));
            assert(forest_nodes(after) == forest_nodes(before) + tree_nodes(child));
        } else {
            assert(listing_dirs(listing) == before);
            assert(entry_bytes(listing.last()) == tree_bytes(child));
        }
    } else {
        assert(listing_of(children).len() == 0);
    }
}

/// One round of a scan neither loses nor invents bytes: what is counted and
/// what is still queued add up as before. And it leaves less to look at.
pub proof fn lemma_step_conserves(s: ScanState<Tree>)
    requires
        s.pending.len() > 0,
    ensures
        saturating_sum(step(s).total, forest_bytes(step(s).pending)) == saturating_sum(
            s.total,
            forest_bytes(s.pending),
        ),
        forest_nodes(step(s).pending) < forest_nodes(s.pending),
{
    let first = s.pending[0];
    let rest = s.pending.skip(1);
    lemma_forest_first(s.pending);
    lemma_forest_concat(rest, found_dirs(inspect(first)));
    match first {
        Tree::Directory(children) => {
            lemma_listing_splits(children);
        },
        _ => {},
    }
    lemma_saturating_sum_twice(
        s.total,
        found_bytes(inspect(first)),
        forest_bytes(step(s).pending),
    );
}

/// A scan run long enough ends, with the bytes of all that was queued added
/// to its count.
pub proof fn lemma_steps_count_forest(s: ScanState<Tree>, n: nat)
    requires
        n >= forest_nodes(s.pending),
    ensures
        steps(s, n).pending.len() == 0,
        steps(s, n).total == saturating_sum(s.total, forest_bytes(s.pending)),
    decreases n,
{
    if s.pending.len() == 0 {
        if n > 0 {
            lemma_steps_count_forest(s, (n - 1) as nat);
        }
    } else {
        lemma_forest_first(s.pending);
        lemma_step_conserves(s);
        lemma_steps_count_forest(step(s), (n - 1) as nat);
    }
}

/// The size of a tree is the sum of the lengths of its readable files,
/// whatever its shape and however deep they lie: a scan that starts at the
/// root of a tree and runs one round for each of its files and directories
/// has nothing left to look at and has counted exactly that sum, or the
/// largest `u64` where the sum is larger.
pub proof fn lemma_scan_counts_tree(root: Tree)
    ensures
        steps(ScanState { total: 0, pending: seq![root] }, tree_nodes(root)).pending.len() == 0,
        steps(ScanState { total: 0, pending: seq![root] }, tree_nodes(root)).total
            == saturating_sum(0, tree_bytes(root)),
{
    let s = ScanState { total: 0, pending: seq![root] };
    lemma_forest_first(s.pending);
    assert(s.pending.skip(1) =~= Seq::<Tree>::empty());
    lemma_steps_count_forest(s, tree_nodes(root));
}

} // verus!
