use confmerge::relative2absolute;
use confmerge::unix_ms_to_utc;
use confmerge::PathError;

#[test]
fn test_relative2absolute_from_directory() {
    let r = relative2absolute("tmp", "/");
    assert_eq!(r, Ok("/tmp".to_string()));
}

#[test]
fn test_relative2absolute_pops_file_component() {
    let r = relative2absolute("tmp", "/no_such_entry_here");
    assert_eq!(r, Ok("/tmp".to_string()));
}

#[test]
fn test_relative2absolute_unresolvable() {
    let r = relative2absolute("no_such_entry_here_either", "/");
    assert_eq!(r, Err(PathError::Unresolvable));
}

#[test]
fn test_unix_ms_to_utc_splits() {
    let t = unix_ms_to_utc(1234567890123);
    assert_eq!(t.secs, 1234567890);
    assert_eq!(t.nanos, 123_000_000);
}

#[test]
fn test_unix_ms_to_utc_epoch() {
    let t = unix_ms_to_utc(0);
    assert_eq!(t.secs, 0);
    assert_eq!(t.nanos, 0);
}

#[test]
fn test_unix_ms_to_utc_whole_second() {
    let t = unix_ms_to_utc(5000);
    assert_eq!(t.secs, 5);
    assert_eq!(t.nanos, 0);
}
