use std::io::{Error, ErrorKind};

use yazi_shared::{maybe_exists, ok_or_not_found};

#[test]
fn readable_metadata_means_it_exists() {
    assert!(maybe_exists(&Ok(())));
}

#[test]
fn not_found_means_it_does_not_exist() {
    assert!(!maybe_exists(&Err(Error::from(ErrorKind::NotFound))));
}

#[test]
fn any_other_failure_means_it_may_exist() {
    assert!(maybe_exists(&Err(Error::from(ErrorKind::PermissionDenied))));
    assert!(maybe_exists(&Err(Error::new(ErrorKind::Other, "broken"))));
}

#[test]
fn success_stays_success() {
    assert!(ok_or_not_found(Ok(())).is_ok());
}

#[test]
fn not_found_becomes_success() {
    assert!(ok_or_not_found(Err(Error::from(ErrorKind::NotFound))).is_ok());
}

#[test]
fn other_errors_are_handed_on() {
    let r = ok_or_not_found(Err(Error::new(ErrorKind::PermissionDenied, "no entry")));
    let e = r.unwrap_err();
    assert_eq!(e.kind(), ErrorKind::PermissionDenied);
    assert_eq!(e.to_string(), "no entry");
}
