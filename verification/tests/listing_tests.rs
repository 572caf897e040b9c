use remote_mirror::listing::EntryKind;
use remote_mirror::listing::is_dot_entry;
use remote_mirror::listing::parse_listing_line;
use remote_mirror::paths::bytes_eq;
use remote_mirror::paths::join;

#[test]
fn directory_line_is_classified_by_its_first_byte() {
    let entry = parse_listing_line(&b"d  dir1".to_vec()).unwrap();
    assert_eq!(entry.name, b"dir1".to_vec());
    assert_eq!(entry.kind, EntryKind::Directory);
}

#[test]
fn plain_line_is_classified_as_file() {
    let entry = parse_listing_line(&b"-  file1.bin".to_vec()).unwrap();
    assert_eq!(entry.name, b"file1.bin".to_vec());
    assert_eq!(entry.kind, EntryKind::File);
}

#[test]
fn long_listing_line_keeps_only_the_last_token() {
    let line = b"-rw-r--r--   1 user group     1234 Jan  1 00:00 notes.txt".to_vec();
    let entry = parse_listing_line(&line).unwrap();
    assert_eq!(entry.name, b"notes.txt".to_vec());
    assert_eq!(entry.kind, EntryKind::File);

    let line = b"drwxr-xr-x   2 user group     4096 Jan  1 00:00 sub".to_vec();
    let entry = parse_listing_line(&line).unwrap();
    assert_eq!(entry.name, b"sub".to_vec());
    assert_eq!(entry.kind, EntryKind::Directory);
}

#[test]
fn trailing_whitespace_does_not_reach_the_name() {
    let entry = parse_listing_line(&b"d  dir1   \r\n".to_vec()).unwrap();
    assert_eq!(entry.name, b"dir1".to_vec());
    assert_eq!(entry.kind, EntryKind::Directory);
}

#[test]
fn line_without_any_token_is_passed_over() {
    assert!(parse_listing_line(&b"".to_vec()).is_none());
    assert!(parse_listing_line(&b"   \t  ".to_vec()).is_none());
}

#[test]
fn single_token_line_is_its_own_name() {
    let entry = parse_listing_line(&b"lonely".to_vec()).unwrap();
    assert_eq!(entry.name, b"lonely".to_vec());
    assert_eq!(entry.kind, EntryKind::File);
}

#[test]
fn dot_entries_are_recognized() {
    assert!(is_dot_entry(&b".".to_vec()));
    assert!(is_dot_entry(&b"..".to_vec()));
    assert!(!is_dot_entry(&b"...".to_vec()));
    assert!(!is_dot_entry(&b"a".to_vec()));
    assert!(!is_dot_entry(&b".hidden".to_vec()));
}

#[test]
fn join_inserts_a_single_separator() {
    assert_eq!(join(&b"/a".to_vec(), &b"b".to_vec()), b"/a/b".to_vec());
    assert_eq!(join(&b"/a/".to_vec(), &b"b".to_vec()), b"/a/b".to_vec());
    assert_eq!(join(&b"R".to_vec(), &b"file.txt".to_vec()), b"R/file.txt".to_vec());
}

#[test]
fn bytes_eq_compares_contents() {
    assert!(bytes_eq(&b"abc".to_vec(), &b"abc".to_vec()));
    assert!(!bytes_eq(&b"abc".to_vec(), &b"abd".to_vec()));
    assert!(!bytes_eq(&b"abc".to_vec(), &b"ab".to_vec()));
    assert!(bytes_eq(&b"".to_vec(), &b"".to_vec()));
}
