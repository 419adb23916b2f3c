use replibyte::session::{name_dump, Command};

#[test]
fn progress_is_shown_unless_a_restore_writes_to_the_output() {
    assert!(Command::DumpList.shows_progress());
    assert!(Command::DumpCreate { name: None }.shows_progress());
    assert!(Command::DumpDelete { dump: b"x".to_vec() }.shows_progress());
    assert!(Command::TransformerList.shows_progress());
    assert!(Command::RestoreLocal { output: false }.shows_progress());
    assert!(Command::RestoreRemote { output: false }.shows_progress());
    assert!(!Command::RestoreLocal { output: true }.shows_progress());
    assert!(!Command::RestoreRemote { output: true }.shows_progress());
}

#[test]
fn a_dump_is_named_as_asked_or_after_the_time() {
    assert_eq!(name_dump(&Some(b"prod-2024".to_vec()), 5), b"prod-2024".to_vec());
    assert_eq!(name_dump(&None, 1_700_000_000_123), b"1700000000123".to_vec());
    assert_eq!(name_dump(&None, 0), b"0".to_vec());
}
