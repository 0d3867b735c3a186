use wayne::listener::{
    cpath, lock_path, socket_name, socket_path, verify_lock, BindOutcome, ClientId, FileId,
    LockDecision, ListenerId, PathError, RangeBinder, RangeStep,
};

#[test]
fn build_cpath() {
    let valid = cpath("/valid/path".as_bytes());
    assert!(valid.is_ok());

    let invalid = cpath("/invalid\0/path".as_bytes());
    assert!(invalid.is_err());
}

#[test]
fn cpath_appends_nul() {
    assert_eq!(cpath(b"/a").unwrap(), b"/a\0".to_vec());
}

#[test]
fn socket_path_rejects_long_paths() {
    let long = vec![b'a'; 108];
    assert_eq!(socket_path(&long), Err(PathError::InvalidPath));
    let fits = vec![b'a'; 107];
    assert_eq!(socket_path(&fits).unwrap().len(), 108);
}

#[test]
fn lock_path_appends_extension() {
    assert_eq!(
        lock_path(b"/run/user/1000/wayland-0"),
        b"/run/user/1000/wayland-0.lock".to_vec()
    );
}

#[test]
fn socket_names() {
    assert_eq!(socket_name(0), b"wayland-0".to_vec());
    assert_eq!(socket_name(1), b"wayland-1".to_vec());
    assert_eq!(socket_name(42), b"wayland-42".to_vec());
}

#[test]
fn listener_range() {
    let (mut binder, first) = RangeBinder::new(0, 2);
    assert_eq!(first, RangeStep::Try(0));
    assert_eq!(binder.step(BindOutcome::AddrInUse), RangeStep::Try(1));
    assert_eq!(binder.step(BindOutcome::Bound), RangeStep::Bound(1));
    assert_eq!(socket_name(1), b"wayland-1".to_vec());
}

#[test]
fn range_exhausted() {
    let (mut binder, first) = RangeBinder::new(3, 4);
    assert_eq!(first, RangeStep::Try(3));
    assert_eq!(binder.step(BindOutcome::WouldBlock), RangeStep::Try(4));
    assert_eq!(
        binder.step(BindOutcome::AddrInUse),
        RangeStep::AlreadyInUse { start: 3, end: 4 }
    );
    let (_, first) = RangeBinder::new(5, 4);
    assert_eq!(first, RangeStep::AlreadyInUse { start: 5, end: 4 });
}

#[test]
fn range_other_error_is_fatal() {
    let (mut binder, _) = RangeBinder::new(0, 9);
    assert_eq!(binder.step(BindOutcome::Failed), RangeStep::Fail);
}

#[test]
fn lock_race_is_detected() {
    let held = FileId { dev: 1, ino: 10 };
    assert_eq!(verify_lock(Some(held), held), LockDecision::Keep);
    assert_eq!(verify_lock(Some(FileId { dev: 1, ino: 11 }), held), LockDecision::Retry);
    assert_eq!(verify_lock(Some(FileId { dev: 2, ino: 10 }), held), LockDecision::Retry);
    assert_eq!(verify_lock(None, held), LockDecision::Retry);
}

#[test]
fn ids_keep_their_numbers() {
    assert_eq!(ClientId::new(7).value(), 7);
    assert_eq!(ListenerId::new(3).value(), 3);
}
