use std::path::{Path, PathBuf};

use yazi_shared::path::{
    bytes_copy, bytes_eq, bytes_have_ascii_uppercase, bytes_to_ascii_lowercase,
};
use yazi_shared::{Component, FilePath};

const SAMPLES: [&str; 16] = [
    "",
    "/",
    "a",
    "A",
    "/a",
    "/a/b",
    "/a/b/",
    "a//b",
    "./a",
    "../a",
    "a/./b",
    "a/../b",
    "/A/b/C.TXT",
    ".",
    "..",
    "/Users/Me/Documents/Read Me.md",
];

fn file_path(path: &Path) -> FilePath {
    let components = path
        .components()
        .map(|c| match c {
            std::path::Component::Prefix(p) => {
                Component::Prefix(p.as_os_str().as_encoded_bytes().to_vec())
            }
            std::path::Component::RootDir => Component::RootDir,
            std::path::Component::CurDir => Component::CurDir,
            std::path::Component::ParentDir => Component::ParentDir,
            std::path::Component::Normal(s) => Component::Normal(s.as_encoded_bytes().to_vec()),
        })
        .collect();
    FilePath { components }
}

fn fp(path: &str) -> FilePath {
    file_path(Path::new(path))
}

#[test]
fn new_path_is_empty() {
    assert!(FilePath::new().is_empty());
    assert_eq!(FilePath::new().len(), 0);
    assert_eq!(FilePath::new(), fp(""));
}

#[test]
fn length_counts_components() {
    assert_eq!(fp("/a/b").len(), 3);
    assert_eq!(fp("a").len(), 1);
    assert!(!fp("/").is_empty());
}

#[test]
fn parent_is_that_of_std() {
    for s in SAMPLES {
        let expected = Path::new(s).parent().map(file_path);
        assert_eq!(fp(s).parent(), expected, "parent of {s:?}");
    }
}

#[test]
fn parent_of_named_cases() {
    assert_eq!(fp("/a/b").parent(), Some(fp("/a")));
    assert_eq!(fp("/a").parent(), Some(fp("/")));
    assert_eq!(fp("a").parent(), Some(fp("")));
    assert_eq!(fp("/").parent(), None);
    assert_eq!(fp("").parent(), None);
    assert_eq!(FilePath { components: vec![Component::Prefix(b"C:".to_vec())] }.parent(), None);
}

#[test]
fn lowercase_is_that_of_std() {
    for s in SAMPLES {
        let lowered: PathBuf = Path::new(s).as_os_str().to_ascii_lowercase().into();
        assert_eq!(fp(s).to_ascii_lowercase(), file_path(&lowered), "lowercase of {s:?}");
    }
}

#[test]
fn lowercase_of_named_cases() {
    assert_eq!(fp("/A/b/C.TXT").to_ascii_lowercase(), fp("/a/b/c.txt"));
    assert_eq!(fp("/a/[Z]@`{").to_ascii_lowercase(), fp("/a/[z]@`{"));
    assert_eq!(
        FilePath { components: vec![Component::Normal(vec![0x40, 0x41, 0x5a, 0x5b, 0xc9])] }
            .to_ascii_lowercase(),
        FilePath { components: vec![Component::Normal(vec![0x40, 0x61, 0x7a, 0x5b, 0xc9])] }
    );
}

#[test]
fn uppercase_is_found_as_in_the_bytes() {
    for s in SAMPLES {
        let expected = s.bytes().any(|b| b.is_ascii_uppercase());
        assert_eq!(fp(s).has_ascii_uppercase(), expected, "uppercase in {s:?}");
    }
}

#[test]
fn same_is_equality_of_std() {
    for a in SAMPLES {
        for b in SAMPLES {
            assert_eq!(fp(a).same(&fp(b)), Path::new(a) == Path::new(b), "{a:?} and {b:?}");
        }
    }
}

#[test]
fn same_tells_components_apart() {
    let normal = FilePath { components: vec![Component::Normal(b"a".to_vec())] };
    let prefix = FilePath { components: vec![Component::Prefix(b"a".to_vec())] };
    assert!(!normal.same(&prefix));
    assert!(normal.same(&normal.clone()));
    assert!(!fp(".").same(&fp("..")));
    assert!(!fp("/a").same(&fp("/a/b")));
    assert!(!fp("/a/b").same(&fp("/a/c")));
}

#[test]
fn join_is_that_of_std() {
    for s in SAMPLES {
        let expected = file_path(&Path::new(s).join("Name.txt"));
        assert_eq!(fp(s).join(&b"Name.txt".to_vec()), expected, "entry of {s:?}");
    }
}

#[test]
fn leading_takes_the_first_components() {
    assert_eq!(fp("/a/b/c").leading(0), fp(""));
    assert_eq!(fp("/a/b/c").leading(1), fp("/"));
    assert_eq!(fp("/a/b/c").leading(3), fp("/a/b"));
    assert_eq!(fp("/a/b/c").leading(4), fp("/a/b/c"));
}

#[test]
fn clone_is_equal() {
    for s in SAMPLES {
        assert_eq!(fp(s).clone(), fp(s));
    }
}

#[test]
fn component_operations() {
    let name = Component::Normal(b"Foo".to_vec());
    assert_eq!(name.to_ascii_lowercase(), Component::Normal(b"foo".to_vec()));
    assert!(name.has_ascii_uppercase());
    assert!(!name.to_ascii_lowercase().has_ascii_uppercase());
    assert!(!Component::RootDir.has_ascii_uppercase());
    assert_eq!(Component::ParentDir.to_ascii_lowercase(), Component::ParentDir);
    assert!(name.same(&name.clone()));
    assert!(!name.same(&Component::Normal(b"foo".to_vec())));
    assert!(!Component::RootDir.same(&Component::CurDir));
}

#[test]
fn byte_helpers() {
    for b in 0..=255u8 {
        assert_eq!(bytes_to_ascii_lowercase(&vec![b]), vec![b.to_ascii_lowercase()]);
        assert_eq!(bytes_have_ascii_uppercase(&vec![b]), b.is_ascii_uppercase());
    }
    assert!(bytes_eq(&b"abc".to_vec(), &b"abc".to_vec()));
    assert!(!bytes_eq(&b"abc".to_vec(), &b"abd".to_vec()));
    assert!(!bytes_eq(&b"abc".to_vec(), &b"ab".to_vec()));
    assert!(bytes_eq(&vec![], &vec![]));
    assert_eq!(bytes_copy(&b"xyz".to_vec()), b"xyz".to_vec());
    assert_eq!(bytes_to_ascii_lowercase(&b"BAZ.TXT".to_vec()), b"baz.txt".to_vec());
    assert!(bytes_have_ascii_uppercase(&b"baZ".to_vec()));
    assert!(!bytes_have_ascii_uppercase(&b"baz.1".to_vec()));
}
