//! Paths as sequences of components.
//!
//! A path is what its components are: two paths are the same path exactly
//! when they have the same components in the same order. Everything the rest
//! of the crate needs from a path (its parent, its lower-case form, whether it
//! holds an upper-case letter) is defined on that sequence.

use vstd::prelude::*;

verus! {

/// Whether `b` is one of the ASCII letters `A` to `Z`.
pub open spec fn is_upper(b: u8) -> bool {
    0x41 <= b <= 0x5a
}

/// The ASCII lower-case form of `b`: the letters `A` to `Z` become `a` to
/// `z`, every other byte stays as it is.
pub open spec fn lower(b: u8) -> u8 {
    if is_upper(b) {
        (b + 0x20) as u8
    } else {
        b
    }
}

/// `s` with every byte in lower case.
pub open spec fn lower_bytes(s: Seq<u8>) -> Seq<u8> {
    Seq::new(s.len(), |i: int| lower(s[i]))
}

/// Whether some byte of `s` is an ASCII upper-case letter.
pub open spec fn has_upper(s: Seq<u8>) -> bool {
    exists|i: int| 0 <= i < s.len() && is_upper(#[trigger] s[i])
}

/// One component of a path, as a mathematical value.
pub enum Part {
    /// A volume or share prefix, by its bytes.
    Prefix(Seq<u8>),
    /// The root directory.
    RootDir,
    /// A reference to the current directory, `.`.
    CurDir,
    /// A reference to the parent directory, `..`.
    ParentDir,
    /// A file or directory name, by its bytes.
    Normal(Seq<u8>),
}

/// The bytes that a component carries; none for the three fixed components.
pub open spec fn part_bytes(p: Part) -> Seq<u8> {
    match p {
        Part::Prefix(b) => b,
        Part::Normal(b) => b,
        _ => Seq::empty(),
    }
}

/// `p` with its bytes in lower case.
pub open spec fn lower_part(p: Part) -> Part {
    match p {
        Part::Prefix(b) => Part::Prefix(lower_bytes(b)),
        Part::Normal(b) => Part::Normal(lower_bytes(b)),
        Part::RootDir => Part::RootDir,
        Part::CurDir => Part::CurDir,
        Part::ParentDir => Part::ParentDir,
    }
}

/// `p` with every component in lower case.
pub open spec fn lower_path(p: Seq<Part>) -> Seq<Part> {
    Seq::new(p.len(), |i: int| lower_part(p[i]))
}

/// Whether some component of `p` holds an ASCII upper-case letter.
pub open spec fn path_has_upper(p: Seq<Part>) -> bool {
    exists|i: int| 0 <= i < p.len() && has_upper(part_bytes(#[trigger] p[i]))
}

/// Whether `p` has a parent: it has a last component, and that component is
/// neither the root directory nor a prefix.
pub open spec fn has_parent(p: Seq<Part>) -> bool {
    p.len() > 0 && !(p.last() is RootDir) && !(p.last() is Prefix)
}

/// The parent of `p`: `p` without its last component, where it has a parent.
pub open spec fn parent_of(p: Seq<Part>) -> Option<Seq<Part>> {
    if has_parent(p) {
        Some(p.drop_last())
    } else {
        None
    }
}

/// The entry called `name` in the directory `dir`.
pub open spec fn child_of(dir: Seq<Part>, name: Seq<u8>) -> Seq<Part> {
    dir.push(Part::Normal(name))
}

/// The components of `v` as mathematical values.
pub open spec fn parts(v: Seq<Component>) -> Seq<Part> {
    Seq::new(v.len(), |i: int| v[i]@)
}

/// Lower-casing changes a byte string exactly when it holds an upper-case
/// letter.
pub proof fn lemma_lower_bytes_fixed(s: Seq<u8>)
    ensures
        (lower_bytes(s) == s) <==> !has_upper(s),
{
    if !has_upper(s) {
        assert(lower_bytes(s) =~= s);
    } else {
        let i = choose|i: int| 0 <= i < s.len() && is_upper(#[trigger] s[i]);
        assert(lower_bytes(s)[i] != s[i]);
    }
}

/// Lower-casing changes a component exactly when its bytes hold an upper-case
/// letter.
pub proof fn lemma_lower_part_fixed(p: Part)
    ensures
        (lower_part(p) == p) <==> !has_upper(part_bytes(p)),
{
    lemma_lower_bytes_fixed(part_bytes(p));
    assert(!has_upper(Seq::<u8>::empty()));
}

/// A path equals its lower-case form exactly when none of its components
/// holds an upper-case letter.
pub proof fn lemma_lower_path_fixed(p: Seq<Part>)
    ensures
        (lower_path(p) == p) <==> !path_has_upper(p),
{
    if !path_has_upper(p) {
        assert forall|i: int| 0 <= i < p.len() implies lower_part(p[i]) == p[i] by {
            lemma_lower_part_fixed(p[i]);
        }
        assert(lower_path(p) =~= p);
    } else {
        let i = choose|i: int| 0 <= i < p.len() && has_upper(part_bytes(#[trigger] p[i]));
        lemma_lower_part_fixed(p[i]);
        assert(lower_path(p)[i] == lower_part(p[i]));
    }
}

/// Whether two byte strings are equal.
pub fn bytes_eq(a: &Vec<u8>, b: &Vec<u8>) -> (r: bool)
    ensures
        r == (a@ == b@),
{
    if a.len() != b.len() {
        return false;
    }
    let mut i: usize = 0;
    while i < a.len()
        invariant
            i <= a.len(),
            a.len() == b.len(),
            forall|j: int| 0 <= j < i ==> a@[j] == b@[j],
        decreases a.len() - i,
    {
        if a[i] != b[i] {
            return false;
        }
        i += 1;
    }
    assert(a@ =~= b@);
    true
}

/// A copy of `a`.
pub fn bytes_copy(a: &Vec<u8>) -> (r: Vec<u8>)
    ensures
        r@ == a@,
{
    let mut r: Vec<u8> = Vec::with_capacity(a.len());
    let mut i: usize = 0;
    while i < a.len()
        invariant
            i <= a.len(),
            r@ == a@.take(i as int),
        decreases a.len() - i,
    {
        r.push(a[i]);
        assert(a@.take(i as int).push(a@[i as int]) =~= a@.take(i + 1));
        i += 1;
    }
    assert(a@.take(a.len() as int) =~= a@);
    r
}

/// `a` with every ASCII upper-case letter replaced by its lower-case form.
pub fn bytes_to_ascii_lowercase(a: &Vec<u8>) -> (r: Vec<u8>)
    ensures
        r@ == lower_bytes(a@),
{
    let mut r: Vec<u8> = Vec::with_capacity(a.len());
    let mut i: usize = 0;
    while i < a.len()
        invariant
            i <= a.len(),
            r@ == lower_bytes(a@.take(i as int)),
        decreases a.len() - i,
    {
        let b: u8 = a[i];
        let l: u8 = if 0x41 <= b && b <= 0x5a {
            b + 0x20
        } else {
            b
        };
        r.push(l);
        assert(lower_bytes(a@.take(i as int)).push(l) =~= lower_bytes(a@.take(i + 1)));
        i += 1;
    }
    assert(a@.take(a.len() as int) =~= a@);
    r
}

/// Whether `a` holds an ASCII upper-case letter.
pub fn bytes_have_ascii_uppercase(a: &Vec<u8>) -> (r: bool)
    ensures
        r == has_upper(a@),
{
    let mut i: usize = 0;
    while i < a.len()
        invariant
            i <= a.len(),
            forall|j: int| 0 <= j < i ==> !is_upper(#[trigger] a@[j]),
        decreases a.len() - i,
    {
        let b: u8 = a[i];
        if 0x41 <= b && b <= 0x5a {
            assert(is_upper(a@[i as int]));
            return true;
        }
        i += 1;
    }
    false
}

/// One component of a path.
#[derive(Debug, PartialEq, Eq)]
pub enum Component {
    /// A volume or share prefix, by its bytes.
    Prefix(Vec<u8>),
    /// The root directory.
    RootDir,
    /// A reference to the current directory, `.`.
    CurDir,
    /// A reference to the parent directory, `..`.
    ParentDir,
    /// A file or directory name, by its bytes.
    Normal(Vec<u8>),
}

impl View for Component {
    type V = Part;

    open spec fn view(&self) -> Part {
        match self {
            Component::Prefix(b) => Part::Prefix(b@),
            Component::RootDir => Part::RootDir,
            Component::CurDir => Part::CurDir,
            Component::ParentDir => Part::ParentDir,
            Component::Normal(b) => Part::Normal(b@),
        }
    }
}

impl Clone for Component {
    fn clone(&self) -> (r: Self)
        ensures
            r@ == self@,
    {
        match self {
            Component::Prefix(b) => Component::Prefix(bytes_copy(b)),
            Component::RootDir => Component::RootDir,
            Component::CurDir => Component::CurDir,
            Component::ParentDir => Component::ParentDir,
            Component::Normal(b) => Component::Normal(bytes_copy(b)),
        }
    }
}

impl Component {
    /// Whether `self` and `other` are the same component.
    pub fn same(&self, other: &Component) -> (r: bool)
        ensures
            r == (self@ == other@),
    {
        match (self, other) {
            (Component::Prefix(a), Component::Prefix(b)) => bytes_eq(a, b),
            (Component::RootDir, Component::RootDir) => true,
            (Component::CurDir, Component::CurDir) => true,
            (Component::ParentDir, Component::ParentDir) => true,
            (Component::Normal(a), Component::Normal(b)) => bytes_eq(a, b),
            _ => false,
        }
    }

    /// The component with its bytes in ASCII lower case.
    pub fn to_ascii_lowercase(&self) -> (r: Component)
        ensures
            r@ == lower_part(self@),
    {
        match self {
            Component::Prefix(b) => Component::Prefix(bytes_to_ascii_lowercase(b)),
            Component::RootDir => Component::RootDir,
            Component::CurDir => Component::CurDir,
            Component::ParentDir => Component::ParentDir,
            Component::Normal(b) => Component::Normal(bytes_to_ascii_lowercase(b)),
        }
    }

    /// Whether the component's bytes hold an ASCII upper-case letter.
    pub fn has_ascii_uppercase(&self) -> (r: bool)
        ensures
            r == has_upper(part_bytes(self@)),
    {
        match self {
            Component::Prefix(b) => bytes_have_ascii_uppercase(b),
            Component::Normal(b) => bytes_have_ascii_uppercase(b),
            _ => {
                assert(!has_upper(Seq::<u8>::empty()));
                false
            },
        }
    }
}

/// A path: its components, first to last. The empty path has none.
#[derive(Debug, PartialEq, Eq)]
pub struct FilePath {
    pub components: Vec<Component>,
}

impl View for FilePath {
    type V = Seq<Part>;

    open spec fn view(&self) -> Seq<Part> {
        parts(self.components@)
    }
}

impl Clone for FilePath {
    fn clone(&self) -> (r: Self)
        ensures
            r@ == self@,
    {
        let r = self.leading(self.components.len());
        assert(self@.take(self@.len() as int) =~= self@);
        r
    }
}

impl FilePath {
    /// The empty path.
    pub fn new() -> (r: FilePath)
        ensures
            r@ == Seq::<Part>::empty(),
    {
        let r = FilePath { components: Vec::new() };
        assert(r@ =~= Seq::<Part>::empty());
        r
    }

    /// The number of components.
    pub fn len(&self) -> (n: usize)
        ensures
            n == self@.len(),
    {
        self.components.len()
    }

    /// Whether the path is the empty path.
    pub fn is_empty(&self) -> (r: bool)
        ensures
            r == (self@.len() == 0),
    {
        self.components.len() == 0
    }

    /// The path made of the first `n` components, or of all of them where
    /// there are fewer.
    pub fn leading(&self, n: usize) -> (r: FilePath)
        ensures
            n <= self@.len() ==> r@ == self@.take(n as int),
            n > self@.len() ==> r@ == self@,
    {
        let n: usize = if n <= self.components.len() {
            n
        } else {
            self.components.len()
        };
        assert(self@.take(self@.len() as int) =~= self@);
        let mut components: Vec<Component> = Vec::with_capacity(n);
        let mut i: usize = 0;
        while i < n
            invariant
                i <= n <= self.components.len(),
                components@.len() == i,
                parts(components@) == self@.take(i as int),
            decreases n - i,
        {
            let ghost before = components@;
            let c = self.components[i].clone();
            components.push(c);
            assert forall|j: int| 0 <= j <= i implies parts(components@)[j] == self@[j] by {
                if j < i {
                    assert(parts(before)[j] == self@.take(i as int)[j]);
                }
            }
            assert(parts(components@) =~= self@.take(i + 1));
            i += 1;
        }
        FilePath { components }
    }

    /// Whether `self` and `other` have the same components.
    pub fn same(&self, other: &FilePath) -> (r: bool)
        ensures
            r == (self@ == other@),
    {
        if self.components.len() != other.components.len() {
            assert(self@.len() != other@.len());
            return false;
        }
        let mut i: usize = 0;
        while i < self.components.len()
            invariant
                i <= self.components.len(),
                self.components.len() == other.components.len(),
                forall|j: int| 0 <= j < i ==> self@[j] == other@[j],
            decreases self.components.len() - i,
        {
            if !self.components[i].same(&other.components[i]) {
                assert(self@[i as int] != other@[i as int]);
                return false;
            }
            i += 1;
        }
        assert(self@ =~= other@);
        true
    }

    /// The path without its last component. `None` where the path is empty
    /// or ends in the root directory or a prefix.
    pub fn parent(&self) -> (r: Option<FilePath>)
        ensures
            r is Some == has_parent(self@),
            r matches Some(p) ==> parent_of(self@) == Some(p@),
    {
        let n = self.components.len();
        if n == 0 {
            return None;
        }
        assert(self@.last() == self.components@[n - 1]@);
        match &self.components[n - 1] {
            Component::RootDir => None,
            Component::Prefix(_) => None,
            _ => {
                let p = self.leading(n - 1);
                assert(self@.take(n - 1) =~= self@.drop_last());
                Some(p)
            },
        }
    }

    /// The entry called `name` in this directory.
    pub fn join(&self, name: &Vec<u8>) -> (r: FilePath)
        ensures
            r@ == child_of(self@, name@),
    {
        let mut r = self.clone();
        r.components.push(Component::Normal(bytes_copy(name)));
        assert(r@ =~= child_of(self@, name@));
        r
    }

    /// The path with every component in ASCII lower case.
    pub fn to_ascii_lowercase(&self) -> (r: FilePath)
        ensures
            r@ == lower_path(self@),
    {
        let mut components: Vec<Component> = Vec::with_capacity(self.components.len());
        let mut i: usize = 0;
        while i < self.components.len()
            invariant
                i <= self.components.len(),
                components@.len() == i,
                parts(components@) == lower_path(self@.take(i as int)),
            decreases self.components.len() - i,
        {
            let ghost before = components@;
            let c = self.components[i].to_ascii_lowercase();
            components.push(c);
            assert forall|j: int| 0 <= j <= i implies parts(components@)[j] == lower_part(
                self@[j],
            ) by {
                if j < i {
                    assert(parts(before)[j] == lower_path(self@.take(i as int))[j]);
                }
            }
            assert(parts(components@) =~= lower_path(self@.take(i + 1)));
            i += 1;
        }
        assert(self@.take(self@.len() as int) =~= self@);
        FilePath { components }
    }

    /// Whether some component holds an ASCII upper-case letter.
    pub fn has_ascii_uppercase(&self) -> (r: bool)
        ensures
            r == path_has_upper(self@),
    {
        let mut i: usize = 0;
        while i < self.components.len()
            invariant
                i <= self.components.len(),
                forall|j: int| 0 <= j < i ==> !has_upper(part_bytes(#[trigger] self@[j])),
            decreases self.components.len() - i,
        {
            if self.components[i].has_ascii_uppercase() {
                assert(has_upper(part_bytes(self@[i as int])));
                return true;
            }
            i += 1;
        }
        false
    }
}

} // verus!
