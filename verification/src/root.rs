//! The deepest directory that a set of paths shares.

use crate::path::{has_parent, FilePath, Part};
use vstd::prelude::*;

verus! {

/// The directory that holds `p`: its parent, or the empty path where it has
/// none.
pub open spec fn parent_or_empty(p: Seq<Part>) -> Seq<Part> {
    if has_parent(p) {
        p.drop_last()
    } else {
        Seq::empty()
    }
}

/// The paths of `files` as mathematical values.
pub open spec fn path_views(files: Seq<FilePath>) -> Seq<Seq<Part>> {
    Seq::new(files.len(), |i: int| files[i]@)
}

/// Whether `root` leads, component by component, to the directory of every
/// path in `files`.
pub open spec fn is_common_root(root: Seq<Part>, files: Seq<Seq<Part>>) -> bool {
    forall|i: int| 0 <= i < files.len() ==> root.is_prefix_of(parent_or_empty(#[trigger] files[i]))
}

/// Whether `root` is the longest sequence of components with which both `a`
/// and `b` begin.
pub open spec fn is_longest_common_prefix(root: Seq<Part>, a: Seq<Part>, b: Seq<Part>) -> bool {
    &&& root.is_prefix_of(a)
    &&& root.is_prefix_of(b)
    &&& root.len() == a.len() || root.len() == b.len() || a[root.len() as int] != b[root.len() as int]
}

/// Whatever both `a` and `b` begin with, their longest common prefix begins
/// with it too.
pub proof fn lemma_longest_common_prefix_is_greatest(
    root: Seq<Part>,
    a: Seq<Part>,
    b: Seq<Part>,
    other: Seq<Part>,
)
    requires
        is_longest_common_prefix(root, a, b),
        other.is_prefix_of(a),
        other.is_prefix_of(b),
    ensures
        other.is_prefix_of(root),
{
    let n = root.len() as int;
    if other.len() > n {
        assert(other[n] == a.subrange(0, other.len() as int)[n]);
        assert(other[n] == b.subrange(0, other.len() as int)[n]);
    }
    assert forall|j: int| 0 <= j < other.len() implies other[j] == root[j] by {
        assert(other[j] == a.subrange(0, other.len() as int)[j]);
        assert(root[j] == a.subrange(0, n)[j]);
    }
    assert(other =~= root.subrange(0, other.len() as int));
}

/// A prefix of a prefix is a prefix.
pub proof fn lemma_prefix_transitive(a: Seq<Part>, b: Seq<Part>, c: Seq<Part>)
    requires
        a.is_prefix_of(b),
        b.is_prefix_of(c),
    ensures
        a.is_prefix_of(c),
{
    assert forall|j: int| 0 <= j < a.len() implies a[j] == c[j] by {
        assert(a[j] == b.subrange(0, a.len() as int)[j]);
        assert(b[j] == c.subrange(0, b.len() as int)[j]);
    }
    assert(a =~= c.subrange(0, a.len() as int));
}

/// The longest run of leading components that `a` and `b` share.
pub fn common_prefix(a: &FilePath, b: &FilePath) -> (root: FilePath)
    ensures
        is_longest_common_prefix(root@, a@, b@),
{
    let mut n: usize = 0;
    while n < a.components.len() && n < b.components.len() && a.components[n].same(
        &b.components[n],
    )
        invariant
            n <= a.components.len(),
            n <= b.components.len(),
            forall|j: int| 0 <= j < n ==> a@[j] == b@[j],
        decreases a.components.len() - n,
    {
        n += 1;
    }
    let root = a.leading(n);
    assert(root@ =~= a@.subrange(0, n as int));
    assert(root@ =~= b@.subrange(0, n as int));
    root
}

/// The directory that holds `file`, or the empty path where it has none.
pub fn directory_of(file: &FilePath) -> (dir: FilePath)
    ensures
        dir@ == parent_or_empty(file@),
{
    match file.parent() {
        Some(dir) => dir,
        None => FilePath::new(),
    }
}

/// The deepest directory shared by the directories of all of `files`: the
/// longest sequence of components with which the parent of every file
/// begins. A file without a parent counts as lying in the empty path, and no
/// files at all give the empty path.
pub fn max_common_root(files: &[FilePath]) -> (root: FilePath)
    ensures
        files@.len() == 0 ==> root@.len() == 0,
        is_common_root(root@, path_views(files@)),
        forall|other: Seq<Part>|
            files@.len() > 0 && #[trigger] is_common_root(other, path_views(files@))
                ==> other.is_prefix_of(root@),
{
    if files.len() == 0 {
        return FilePath::new();
    }
    let ghost all = path_views(files@);
    let mut root = directory_of(&files[0]);
    let mut i: usize = 1;
    proof {
        let first = all.take(1);
        assert(first[0] == files@[0]@);
        assert(root@ =~= root@.subrange(0, root@.len() as int));
        assert forall|other: Seq<Part>| #[trigger]
            is_common_root(other, first) implies other.is_prefix_of(root@) by {
            assert(other.is_prefix_of(parent_or_empty(first[0])));
        }
    }
    while i < files.len()
        invariant
            1 <= i <= files.len(),
            all == path_views(files@),
            is_common_root(root@, all.take(i as int)),
            forall|other: Seq<Part>| #[trigger]
                is_common_root(other, all.take(i as int)) ==> other.is_prefix_of(root@),
        decreases files.len() - i,
    {
        let dir = directory_of(&files[i]);
        let next = common_prefix(&root, &dir);
        proof {
            let before = all.take(i as int);
            let after = all.take(i + 1);
            assert(after[i as int] == files@[i as int]@);
            assert forall|j: int| 0 <= j < after.len() implies next@.is_prefix_of(
                parent_or_empty(#[trigger] after[j]),
            ) by {
                if j < i {
                    assert(before[j] == after[j]);
                    lemma_prefix_transitive(next@, root@, parent_or_empty(before[j]));
                }
            }
            assert forall|other: Seq<Part>| #[trigger]
                is_common_root(other, after) implies other.is_prefix_of(next@) by {
                assert forall|j: int| 0 <= j < before.len() implies other.is_prefix_of(
                    parent_or_empty(#[trigger] before[j]),
                ) by {
                    assert(before[j] == after[j]);
                }
                assert(is_common_root(other, before));
                assert(other.is_prefix_of(parent_or_empty(after[i as int])));
                lemma_longest_common_prefix_is_greatest(next@, root@, dir@, other);
            }
        }
        root = next;
        i += 1;
    }
    assert(all.take(files@.len() as int) =~= all);
    root
}

/// The deepest common root is one path only: two paths that both lead to the
/// directory of every file, and with which every other such path begins, are
/// the same path.
pub proof fn lemma_common_root_is_unique(a: Seq<Part>, b: Seq<Part>, files: Seq<Seq<Part>>)
    requires
        is_common_root(a, files),
        is_common_root(b, files),
        forall|other: Seq<Part>| #[trigger] is_common_root(other, files) ==> other.is_prefix_of(a),
        forall|other: Seq<Part>| #[trigger] is_common_root(other, files) ==> other.is_prefix_of(b),
    ensures
        a == b,
{
    assert(a.is_prefix_of(b));
    assert(b.is_prefix_of(a));
    assert(a =~= b);
}

/// The deepest common root does not depend on the order of the files: a
/// path leads to the directory of every file of a list exactly when it does
/// so for the list in any other order.
pub proof fn lemma_common_root_ignores_order(
    root: Seq<Part>,
    files: Seq<Seq<Part>>,
    shuffled: Seq<Seq<Part>>,
)
    requires
        forall|i: int| 0 <= i < files.len() ==> shuffled.contains(#[trigger] files[i]),
        forall|i: int| 0 <= i < shuffled.len() ==> files.contains(#[trigger] shuffled[i]),
    ensures
        is_common_root(root, files) == is_common_root(root, shuffled),
{
    if is_common_root(root, files) {
        assert forall|i: int| 0 <= i < shuffled.len() implies root.is_prefix_of(
            parent_or_empty(#[trigger] shuffled[i]),
        ) by {
            let j = choose|j: int| 0 <= j < files.len() && files[j] == shuffled[i];
            assert(root.is_prefix_of(parent_or_empty(files[j])));
        }
    }
    if is_common_root(root, shuffled) {
        assert forall|i: int| 0 <= i < files.len() implies root.is_prefix_of(
            parent_or_empty(#[trigger] files[i]),
        ) by {
            let j = choose|j: int| 0 <= j < shuffled.len() && shuffled[j] == files[i];
            assert(root.is_prefix_of(parent_or_empty(shuffled[j])));
        }
    }
}

} // verus!
