//! The real casing of a path on a case-insensitive filesystem.
//!
//! Such a filesystem finds `/Users/me/foo` under whatever casing it is asked
//! for, while the directory holds one casing only, say `Foo`. To learn it, the
//! directory that holds the path is listed once and the result remembered in
//! a [`RealpathCache`], so that resolving its other entries lists nothing.
//!
//! A cache holds two things: a mapping from lower-case paths to real casings,
//! and the set of directories that have been listed. The mapping also holds,
//! for each listed directory, the empty path under the directory's own path,
//! as a mark. A mark can be replaced: the listing of `/` files the real casing
//! of its entry `D` under `/d`, where the mark of the directory `/d` may
//! stand already. The directory has been listed all the same, which is why
//! the set, not the mark, says what is listed.
//!
//! Listing a directory is not done here. [`symlink_realpath_with`] either
//! resolves a path from what the cache holds or names the directory whose
//! listing it needs; [`RealpathCache::record_listing`] takes the names found
//! there.

use crate::path::{
    bytes_have_ascii_uppercase, child_of, has_parent, has_upper, lemma_lower_path_fixed,
    lower_path, path_has_upper, FilePath, Part,
};
use vstd::prelude::*;

verus! {

/// The file names of `names` as mathematical values.
pub open spec fn name_views(names: Seq<Vec<u8>>) -> Seq<Seq<u8>> {
    Seq::new(names.len(), |i: int| names[i]@)
}

/// What the pairs of `entries` map, a later pair overriding an earlier one
/// with the same key.
pub open spec fn map_of(entries: Seq<(FilePath, FilePath)>) -> Map<Seq<Part>, Seq<Part>>
    decreases entries.len(),
{
    if entries.len() == 0 {
        Map::empty()
    } else {
        map_of(entries.drop_last()).insert(entries.last().0@, entries.last().1@)
    }
}

/// The paths of `dirs` as a set.
pub open spec fn set_of(dirs: Seq<FilePath>) -> Set<Seq<Part>>
    decreases dirs.len(),
{
    if dirs.len() == 0 {
        Set::empty()
    } else {
        set_of(dirs.drop_last()).insert(dirs.last()@)
    }
}

/// What a cache knows.
pub struct Known {
    /// The real casing of each entry worth remembering, under its lower-case
    /// path; and the empty path, as a mark, under the path of each listed
    /// directory, until an entry is filed there.
    pub entries: Map<Seq<Part>, Seq<Part>>,
    /// The directories that have been listed.
    pub listed: Set<Seq<Part>>,
}

/// The mapping `m` after the entry `name` of the directory `dir` was seen.
/// The entry is remembered, under its lower-case path, where the directory or
/// the name holds an upper-case letter; any other entry is its own
/// lower-case form, and nothing needs remembering.
pub open spec fn with_entry(m: Map<Seq<Part>, Seq<Part>>, dir: Seq<Part>, name: Seq<u8>) -> Map<
    Seq<Part>,
    Seq<Part>,
> {
    if path_has_upper(dir) || has_upper(name) {
        m.insert(lower_path(child_of(dir, name)), child_of(dir, name))
    } else {
        m
    }
}

/// The mapping `m` after the entries `names` of the directory `dir` were
/// seen, in that order.
pub open spec fn with_entries(
    m: Map<Seq<Part>, Seq<Part>>,
    dir: Seq<Part>,
    names: Seq<Seq<u8>>,
) -> Map<Seq<Part>, Seq<Part>>
    decreases names.len(),
{
    if names.len() == 0 {
        m
    } else {
        with_entry(with_entries(m, dir, names.drop_last()), dir, names.last())
    }
}

/// What a cache knows after the whole listing `names` of the directory `dir`
/// was recorded: its entries, then the mark of the directory, and the
/// directory as listed.
pub open spec fn with_listing(c: Known, dir: Seq<Part>, names: Seq<Seq<u8>>) -> Known {
    Known {
        entries: with_entries(c.entries, dir, names).insert(dir, Seq::empty()),
        listed: c.listed.insert(dir),
    }
}

/// A cache that knows nothing.
pub open spec fn nothing_known() -> Known {
    Known { entries: Map::empty(), listed: Set::empty() }
}

/// Whether resolving `path` needs the listing of its directory: lower-casing
/// changes the path, it has a parent, and that parent has not been listed.
pub open spec fn needs_listing(path: Seq<Part>, c: Known) -> bool {
    lower_path(path) != path && has_parent(path) && !c.listed.contains(path.drop_last())
}

/// The real casing of `path` as far as the cache knows it: what the mapping
/// holds under the lower-case form of `path`, unless that is the empty path;
/// and `path` itself where lower-casing does not change it, where it has no
/// parent, and where the mapping knows no better.
pub open spec fn resolved(path: Seq<Part>, c: Known) -> Seq<Part> {
    if lower_path(path) != path && has_parent(path) && c.entries.contains_key(lower_path(path))
        && c.entries[lower_path(path)].len() > 0 {
        c.entries[lower_path(path)]
    } else {
        path
    }
}

/// Whether the mapping and the set of a cache fit together: every real
/// casing is filed under its own lower-case form and lies in a listed
/// directory, every mark is that of a listed directory, and every listed
/// directory has its mark in the mapping or an entry that was filed in its
/// place.
pub open spec fn consistent(c: Known) -> bool {
    &&& forall|k: Seq<Part>| #[trigger]
        c.entries.contains_key(k) ==> if c.entries[k].len() > 0 {
            &&& k == lower_path(c.entries[k])
            &&& has_parent(c.entries[k])
            &&& c.listed.contains(c.entries[k].drop_last())
        } else {
            c.listed.contains(k)
        }
    &&& forall|d: Seq<Part>| #[trigger] c.listed.contains(d) ==> c.entries.contains_key(d)
}

/// As [`consistent`], while the directory `dir` is being listed: its entries
/// are in the mapping `m`, and neither its mark nor the directory itself in
/// the set `listed` yet.
pub open spec fn consistent_within(
    m: Map<Seq<Part>, Seq<Part>>,
    listed: Set<Seq<Part>>,
    dir: Seq<Part>,
) -> bool {
    &&& forall|k: Seq<Part>| #[trigger]
        m.contains_key(k) ==> if m[k].len() > 0 {
            &&& k == lower_path(m[k])
            &&& has_parent(m[k])
            &&& (listed.contains(m[k].drop_last()) || m[k].drop_last() == dir)
        } else {
            listed.contains(k)
        }
    &&& forall|d: Seq<Part>| #[trigger] listed.contains(d) ==> m.contains_key(d)
}

/// What one step of a resolution says.
#[derive(Debug, PartialEq, Eq)]
pub enum Realpath {
    /// The path in its real casing, as far as it is known.
    Resolved(FilePath),
    /// This directory has to be listed, and the listing recorded, before the
    /// path can be resolved.
    Unlisted(FilePath),
}

/// What has been learnt from the directories listed so far.
///
/// The mapping is a list of pairs and the set a list of paths, both in the
/// order in which they were recorded. Recording appends, and a look-up walks
/// a list from its end, so that the newest pair under a key is the one found.
pub struct RealpathCache {
    entries: Vec<(FilePath, FilePath)>,
    listed: Vec<FilePath>,
}

impl View for RealpathCache {
    type V = Known;

    closed spec fn view(&self) -> Known {
        Known { entries: map_of(self.entries@), listed: set_of(self.listed@) }
    }
}

/// Appending one pair to a list maps its key to its value and leaves the rest.
proof fn lemma_map_of_push(entries: Seq<(FilePath, FilePath)>, pair: (FilePath, FilePath))
    ensures
        map_of(entries.push(pair)) == map_of(entries).insert(pair.0@, pair.1@),
{
    assert(entries.push(pair).drop_last() =~= entries);
}

/// Appending one path to a list adds it to the set and leaves the rest.
proof fn lemma_set_of_push(dirs: Seq<FilePath>, dir: FilePath)
    ensures
        set_of(dirs.push(dir)) == set_of(dirs).insert(dir@),
{
    assert(dirs.push(dir).drop_last() =~= dirs);
}

impl RealpathCache {
    #[verifier::type_invariant]
    spec fn inv(self) -> bool {
        consistent(Known { entries: map_of(self.entries@), listed: set_of(self.listed@) })
    }

    /// A cache that knows nothing.
    pub fn new() -> (cache: RealpathCache)
        ensures
            cache@ == nothing_known(),
    {
        RealpathCache { entries: Vec::new(), listed: Vec::new() }
    }

    /// Does nothing; tells the caller that every cache is consistent.
    pub fn check_consistent(&self)
        ensures
            consistent(self@),
    {
        proof {
            use_type_invariant(self);
        }
    }

    /// What the mapping holds under `key`.
    pub fn get(&self, key: &FilePath) -> (value: Option<&FilePath>)
        ensures
            value is Some == self@.entries.contains_key(key@),
            value matches Some(v) ==> v@ == self@.entries[key@],
    {
        let mut i: usize = self.entries.len();
        assert(self.entries@.take(i as int) =~= self.entries@);
        while i > 0
            invariant
                i <= self.entries.len(),
                self@.entries.contains_key(key@) == map_of(
                    self.entries@.take(i as int),
                ).contains_key(key@),
                self@.entries.contains_key(key@) ==> self@.entries[key@] == map_of(
                    self.entries@.take(i as int),
                )[key@],
            decreases i,
        {
            i -= 1;
            let ghost head = self.entries@.take(i + 1);
            assert(head.drop_last() =~= self.entries@.take(i as int));
            assert(head.last() == self.entries@[i as int]);
            if self.entries[i].0.same(key) {
                return Some(&self.entries[i].1);
            }
        }
        None
    }

    /// Whether the mapping holds anything under `key`.
    pub fn contains_key(&self, key: &FilePath) -> (r: bool)
        ensures
            r == self@.entries.contains_key(key@),
    {
        self.get(key).is_some()
    }

    /// Whether the directory `dir` has been listed.
    pub fn is_listed(&self, dir: &FilePath) -> (r: bool)
        ensures
            r == self@.listed.contains(dir@),
    {
        let mut i: usize = self.listed.len();
        assert(self.listed@.take(i as int) =~= self.listed@);
        while i > 0
            invariant
                i <= self.listed.len(),
                self@.listed.contains(dir@) == set_of(self.listed@.take(i as int)).contains(dir@),
            decreases i,
        {
            i -= 1;
            let ghost head = self.listed@.take(i + 1);
            assert(head.drop_last() =~= self.listed@.take(i as int));
            assert(head.last() == self.listed@[i as int]);
            if self.listed[i].same(dir) {
                return true;
            }
        }
        false
    }

    /// Records the listing of the directory `dir`, whose entries are called
    /// `names`: each entry as [`with_entry`] says, in the order given, then
    /// the mark of the directory, and the directory as listed.
    pub fn record_listing(&mut self, dir: &FilePath, names: &Vec<Vec<u8>>)
        ensures
            final(self)@ == with_listing(old(self)@, dir@, name_views(names@)),
    {
        proof {
            use_type_invariant(&*self);
        }
        let upper = dir.has_ascii_uppercase();
        let mut taken = RealpathCache::new();
        core::mem::swap(self, &mut taken);
        let RealpathCache { mut entries, mut listed } = taken;
        let mut i: usize = 0;
        while i < names.len()
            invariant
                i <= names.len(),
                upper == path_has_upper(dir@),
                map_of(entries@) == with_entries(
                    old(self)@.entries,
                    dir@,
                    name_views(names@).take(i as int),
                ),
            decreases names.len() - i,
        {
            let ghost seen = name_views(names@).take(i as int);
            let ghost next = name_views(names@).take(i + 1);
            assert(next.drop_last() =~= seen);
            assert(next.last() == names@[i as int]@);
            if upper || bytes_have_ascii_uppercase(&names[i]) {
                let child = dir.join(&names[i]);
                let key = child.to_ascii_lowercase();
                proof {
                    lemma_map_of_push(entries@, (key, child));
                }
                entries.push((key, child));
            }
            i += 1;
        }
        assert(name_views(names@).take(names@.len() as int) =~= name_views(names@));
        let mark = (dir.clone(), FilePath::new());
        let listed_dir = dir.clone();
        proof {
            lemma_map_of_push(entries@, mark);
            lemma_set_of_push(listed@, listed_dir);
            lemma_listing_keeps_consistent(old(self)@, dir@, name_views(names@));
        }
        entries.push(mark);
        listed.push(listed_dir);
        *self = RealpathCache { entries, listed };
    }
}

/// One step of resolving `path` to its real casing, without following it
/// where it is a link. Where its directory has to be listed first, the step
/// names that directory and resolves nothing; otherwise it gives the path as
/// [`resolved`] says.
pub fn symlink_realpath_with(path: &FilePath, cached: &RealpathCache) -> (r: Realpath)
    ensures
        consistent(cached@),
        match r {
            Realpath::Unlisted(dir) => needs_listing(path@, cached@) && dir@ == path@.drop_last(),
            Realpath::Resolved(cased) => !needs_listing(path@, cached@) && cased@ == resolved(
                path@,
                cached@,
            ),
        },
{
    cached.check_consistent();
    proof {
        lemma_lower_path_fixed(path@);
    }
    if !path.has_ascii_uppercase() {
        return Realpath::Resolved(path.clone());
    }
    let parent = match path.parent() {
        Some(parent) => parent,
        None => {
            return Realpath::Resolved(path.clone());
        },
    };
    if !cached.is_listed(&parent) {
        return Realpath::Unlisted(parent);
    }
    match cached.get(&path.to_ascii_lowercase()) {
        Some(cased) => {
            if cased.is_empty() {
                Realpath::Resolved(path.clone())
            } else {
                Realpath::Resolved(cased.clone())
            }
        },
        None => Realpath::Resolved(path.clone()),
    }
}

/// Seeing the entries of a directory takes nothing out of a mapping.
pub proof fn lemma_entries_keep_keys(
    m: Map<Seq<Part>, Seq<Part>>,
    dir: Seq<Part>,
    names: Seq<Seq<u8>>,
)
    ensures
        forall|k: Seq<Part>| m.contains_key(k) ==> #[trigger] with_entries(m, dir, names).contains_key(k),
    decreases names.len(),
{
    if names.len() > 0 {
        lemma_entries_keep_keys(m, dir, names.drop_last());
        let before = with_entries(m, dir, names.drop_last());
        assert forall|k: Seq<Part>| m.contains_key(k) implies #[trigger] with_entries(
            m,
            dir,
            names,
        ).contains_key(k) by {
            assert(before.contains_key(k));
        }
    }
}

/// Seeing the entries of a directory keeps a cache consistent but for the
/// mark of that directory.
pub proof fn lemma_entries_keep_consistent(c: Known, dir: Seq<Part>, names: Seq<Seq<u8>>)
    requires
        consistent(c),
    ensures
        consistent_within(with_entries(c.entries, dir, names), c.listed, dir),
    decreases names.len(),
{
    if names.len() > 0 {
        lemma_entries_keep_consistent(c, dir, names.drop_last());
        let before = with_entries(c.entries, dir, names.drop_last());
        let child = child_of(dir, names.last());
        assert(child.last() == Part::Normal(names.last()));
        assert(child.drop_last() =~= dir);
        let after = with_entry(before, dir, names.last());
        assert forall|k: Seq<Part>| #[trigger] after.contains_key(k) implies if after[k].len()
            > 0 {
            &&& k == lower_path(after[k])
            &&& has_parent(after[k])
            &&& (c.listed.contains(after[k].drop_last()) || after[k].drop_last() == dir)
        } else {
            c.listed.contains(k)
        } by {
            if before.contains_key(k) && after[k] == before[k] {
                assert(before.contains_key(k));
            }
        }
        assert forall|d: Seq<Part>| #[trigger] c.listed.contains(d) implies after.contains_key(
            d,
        ) by {
            assert(before.contains_key(d));
        }
    }
}

/// Recording a listing keeps a cache consistent.
pub proof fn lemma_listing_keeps_consistent(c: Known, dir: Seq<Part>, names: Seq<Seq<u8>>)
    requires
        consistent(c),
    ensures
        consistent(with_listing(c, dir, names)),
{
    lemma_entries_keep_consistent(c, dir, names);
    let before = with_entries(c.entries, dir, names);
    let after = with_listing(c, dir, names);
    assert forall|k: Seq<Part>| #[trigger] after.entries.contains_key(k) implies if after.entries[k].len()
        > 0 {
        &&& k == lower_path(after.entries[k])
        &&& has_parent(after.entries[k])
        &&& after.listed.contains(after.entries[k].drop_last())
    } else {
        after.listed.contains(k)
    } by {
        if k != dir {
            assert(before.contains_key(k) && before[k] == after.entries[k]);
        }
    }
    assert forall|d: Seq<Part>| #[trigger] after.listed.contains(d) implies after.entries.contains_key(
        d,
    ) by {
        if d != dir {
            assert(c.listed.contains(d));
            assert(before.contains_key(d));
        }
    }
}

/// A path that lower-casing does not change resolves to itself, and no
/// directory is listed for it, whatever the cache knows.
pub proof fn lemma_lowercase_path_resolves_to_itself(path: Seq<Part>, c: Known)
    requires
        lower_path(path) == path,
    ensures
        !needs_listing(path, c),
        resolved(path, c) == path,
{
}

/// A path without a parent resolves to itself, and no directory is listed
/// for it, whatever the cache knows.
pub proof fn lemma_path_without_parent_resolves_to_itself(path: Seq<Part>, c: Known)
    requires
        !has_parent(path),
    ensures
        !needs_listing(path, c),
        resolved(path, c) == path,
{
}

/// The mark and the set agree as far as they can. A path whose directory
/// has its mark in the mapping asks for no listing. And where a path with a
/// parent, which lower-casing changes, asks for no listing, the mapping
/// holds something under its directory: the mark, or an entry that was filed
/// in its place.
pub proof fn lemma_mark_means_listed(path: Seq<Part>, c: Known)
    requires
        consistent(c),
    ensures
        c.entries.contains_key(path.drop_last()) && c.entries[path.drop_last()].len() == 0
            ==> !needs_listing(path, c),
        lower_path(path) != path && has_parent(path) && !needs_listing(path, c)
            ==> c.entries.contains_key(path.drop_last()),
{
}

/// A directory is listed at most once in the life of a cache. Once its
/// listing is recorded it is listed for good, so no path asks for it again;
/// and recording a listing never makes a path ask for a directory that it
/// did not ask for before.
pub proof fn lemma_listed_at_most_once(
    c: Known,
    dir: Seq<Part>,
    names: Seq<Seq<u8>>,
    path: Seq<Part>,
)
    ensures
        with_listing(c, dir, names).listed.contains(dir),
        forall|d: Seq<Part>| c.listed.contains(d) ==> #[trigger] with_listing(c, dir, names).listed.contains(d),
        needs_listing(path, with_listing(c, dir, names)) ==> needs_listing(path, c)
            && path.drop_last() != dir,
{
}

/// Resolving changes nothing but the casing: the resolved path and the path
/// asked for have the same lower-case form.
pub proof fn lemma_resolution_keeps_lowercase(path: Seq<Part>, c: Known)
    requires
        consistent(c),
    ensures
        lower_path(resolved(path, c)) == lower_path(path),
{
}

/// Resolving is idempotent: a path that has been resolved resolves to
/// itself, and no directory is listed for it.
pub proof fn lemma_resolution_is_idempotent(path: Seq<Part>, c: Known)
    requires
        consistent(c),
        !needs_listing(path, c),
    ensures
        !needs_listing(resolved(path, c), c),
        resolved(resolved(path, c), c) == resolved(path, c),
{
    let cased = resolved(path, c);
    if cased != path {
        let key = lower_path(path);
        assert(c.entries.contains_key(key) && c.entries[key].len() > 0);
        assert(key == lower_path(cased));
    }
}

/// What the listing `names` of the directory `dir` files, taken alone.
pub open spec fn filed(dir: Seq<Part>, names: Seq<Seq<u8>>) -> Map<Seq<Part>, Seq<Part>> {
    with_entries(Map::empty(), dir, names)
}

/// Whether a cache was built over the directory tree `tree`, which gives the
/// listing of each directory: every real casing that the mapping holds is
/// what the listing of its own directory files there, and whatever the
/// listing of a listed directory files has something under it in the
/// mapping.
pub open spec fn built_over(c: Known, tree: spec_fn(Seq<Part>) -> Seq<Seq<u8>>) -> bool {
    &&& consistent(c)
    &&& forall|k: Seq<Part>| #[trigger]
        c.entries.contains_key(k) && c.entries[k].len() > 0 ==> {
            let dir = c.entries[k].drop_last();
            filed(dir, tree(dir)).contains_key(k) && filed(dir, tree(dir))[k] == c.entries[k]
        }
    &&& forall|dir: Seq<Part>, k: Seq<Part>|
        c.listed.contains(dir) && #[trigger] filed(dir, tree(dir)).contains_key(k)
            ==> c.entries.contains_key(k)
}

/// The real casing of `path` as a caller finds it over the tree `tree`: the
/// directory of the path is listed and recorded where the cache asks for it,
/// and the path resolved then.
pub open spec fn realpath(path: Seq<Part>, c: Known, tree: spec_fn(Seq<Part>) -> Seq<Seq<u8>>) -> Seq<
    Part,
> {
    if needs_listing(path, c) {
        resolved(path, with_listing(c, path.drop_last(), tree(path.drop_last())))
    } else {
        resolved(path, c)
    }
}

/// Whether a mark hides the real casing of `path`: the mapping holds the
/// empty path under the lower-case form of `path`, where the listing of the
/// directory of `path` files another casing than `path` itself. This happens
/// where a directory was listed whose own path is that lower-case form.
pub open spec fn mark_hides_entry(
    path: Seq<Part>,
    c: Known,
    tree: spec_fn(Seq<Part>) -> Seq<Seq<u8>>,
) -> bool {
    let key = lower_path(path);
    let dir = path.drop_last();
    &&& key != path
    &&& has_parent(path)
    &&& c.entries.contains_key(key)
    &&& c.entries[key].len() == 0
    &&& filed(dir, tree(dir)).contains_key(key)
    &&& filed(dir, tree(dir))[key] != path
}

/// What a listing files under a key does not depend on what the mapping held
/// before: under a key that the listing files, the mapping holds what the
/// listing alone files; under any other key it holds what it held.
pub proof fn lemma_entries_over_mapping(
    m: Map<Seq<Part>, Seq<Part>>,
    dir: Seq<Part>,
    names: Seq<Seq<u8>>,
    k: Seq<Part>,
)
    ensures
        with_entries(m, dir, names).contains_key(k) == (m.contains_key(k) || filed(
            dir,
            names,
        ).contains_key(k)),
        filed(dir, names).contains_key(k) ==> with_entries(m, dir, names)[k] == filed(
            dir,
            names,
        )[k],
        !filed(dir, names).contains_key(k) ==> with_entries(m, dir, names)[k] == m[k],
    decreases names.len(),
{
    if names.len() > 0 {
        lemma_entries_over_mapping(m, dir, names.drop_last(), k);
    }
}

/// What a listing files is an entry of its directory, under the lower-case
/// form of the entry's path.
pub proof fn lemma_filed_is_entry(dir: Seq<Part>, names: Seq<Seq<u8>>, k: Seq<Part>)
    requires
        filed(dir, names).contains_key(k),
    ensures
        filed(dir, names)[k].len() > 0,
        has_parent(filed(dir, names)[k]),
        filed(dir, names)[k].drop_last() == dir,
        k == lower_path(filed(dir, names)[k]),
    decreases names.len(),
{
    if names.len() > 0 {
        let child = child_of(dir, names.last());
        assert(child.last() == Part::Normal(names.last()));
        assert(child.drop_last() =~= dir);
        if filed(dir, names.drop_last()).contains_key(k) {
            lemma_filed_is_entry(dir, names.drop_last(), k);
        }
    }
}

/// A cache that knows nothing is built over every tree.
pub proof fn lemma_nothing_known_is_built_over(tree: spec_fn(Seq<Part>) -> Seq<Seq<u8>>)
    ensures
        built_over(nothing_known(), tree),
{
}

/// Recording the listing that the tree gives for a directory keeps a cache
/// built over that tree.
pub proof fn lemma_listing_keeps_built_over(
    c: Known,
    tree: spec_fn(Seq<Part>) -> Seq<Seq<u8>>,
    dir: Seq<Part>,
)
    requires
        built_over(c, tree),
    ensures
        built_over(with_listing(c, dir, tree(dir)), tree),
{
    let names = tree(dir);
    let after = with_listing(c, dir, names);
    lemma_listing_keeps_consistent(c, dir, names);
    assert forall|k: Seq<Part>| #[trigger]
        after.entries.contains_key(k) && after.entries[k].len() > 0 implies {
        let d = after.entries[k].drop_last();
        filed(d, tree(d)).contains_key(k) && filed(d, tree(d))[k] == after.entries[k]
    } by {
        lemma_entries_over_mapping(c.entries, dir, names, k);
        if filed(dir, names).contains_key(k) {
            lemma_filed_is_entry(dir, names, k);
        } else {
            assert(c.entries.contains_key(k));
        }
    }
    assert forall|d: Seq<Part>, k: Seq<Part>|
        after.listed.contains(d) && #[trigger] filed(d, tree(d)).contains_key(
            k,
        ) implies after.entries.contains_key(k) by {
        lemma_entries_over_mapping(c.entries, dir, names, k);
        if d != dir {
            assert(c.listed.contains(d));
        }
    }
}

/// Resolving is idempotent across caches over one tree: a path that was
/// resolved in a cache built over a tree resolves to itself in a cache that
/// knows nothing yet, when its directory is listed from the same tree. Left
/// out are the paths whose real casing a mark hides in the first cache.
pub proof fn lemma_resolved_path_resolves_afresh(
    path: Seq<Part>,
    c: Known,
    tree: spec_fn(Seq<Part>) -> Seq<Seq<u8>>,
)
    requires
        built_over(c, tree),
        !needs_listing(path, c),
        !mark_hides_entry(path, c, tree),
    ensures
        realpath(resolved(path, c), nothing_known(), tree) == resolved(path, c),
{
    let cased = resolved(path, c);
    let key = lower_path(cased);
    if key != cased && has_parent(cased) {
        let dir = cased.drop_last();
        let afresh = with_listing(nothing_known(), dir, tree(dir));
        assert(needs_listing(cased, nothing_known()));
        assert(key.len() != dir.len());
        if cased != path {
            assert(c.entries.contains_key(lower_path(path)));
            assert(afresh.entries[key] == cased);
        } else if filed(dir, tree(dir)).contains_key(key) {
            assert(c.listed.contains(dir));
            assert(c.entries.contains_key(key));
            if c.entries[key].len() > 0 {
                assert(c.entries[key] == path);
            }
            lemma_filed_is_entry(dir, tree(dir), key);
            assert(afresh.entries[key] == cased);
        } else {
            assert(!afresh.entries.contains_key(key));
        }
    }
}

/// Where a mark hides the real casing of a path, the path resolves to itself
/// in the cache that holds the mark, and to the hidden casing in a cache that
/// knows nothing yet: for these paths, and for no others, resolving afresh
/// changes a resolved path.
pub proof fn lemma_hidden_path_resolves_otherwise(
    path: Seq<Part>,
    c: Known,
    tree: spec_fn(Seq<Part>) -> Seq<Seq<u8>>,
)
    requires
        built_over(c, tree),
        !needs_listing(path, c),
        mark_hides_entry(path, c, tree),
    ensures
        resolved(path, c) == path,
        realpath(path, nothing_known(), tree) == filed(path.drop_last(), tree(path.drop_last()))[lower_path(path)],
        realpath(path, nothing_known(), tree) != path,
{
    let dir = path.drop_last();
    let key = lower_path(path);
    lemma_filed_is_entry(dir, tree(dir), key);
    assert(key.len() != dir.len());
}

} // verus!
