use soter::dir::{join_path, DirStorage, Error, ListedEntry};
use soter::storable::Storable;

fn file(name: &str, contents: &[u8]) -> ListedEntry {
    ListedEntry { name: Some(name.to_string()), is_dir: false, contents: Ok(contents.to_vec()) }
}

fn listing_of(dir: &str, writes: &[(String, Vec<u8>)]) -> Vec<ListedEntry> {
    let prefix = format!("{}/", dir);
    writes
        .iter()
        .map(|(path, bytes)| file(path.strip_prefix(&prefix).unwrap(), bytes))
        .collect()
}

#[test]
fn test() {
    let dir_str = "/tmp/soter_test";

    let mut dir_storage: DirStorage<u32> = DirStorage::default();
    dir_storage.insert("1", 1);
    dir_storage.insert("2", 2);
    dir_storage.insert("3", 3);

    let writes = dir_storage.store(dir_str).unwrap();

    let new_dir_storage: DirStorage<u32> =
        DirStorage::restore(dir_str, Some(listing_of(dir_str, &writes))).unwrap();

    assert_eq!(*new_dir_storage.get("1").unwrap(), 1);
    assert_eq!(*new_dir_storage.get("2").unwrap(), 2);
    assert_eq!(*new_dir_storage.get("3").unwrap(), 3);
}

#[test]
fn store_then_restore_gives_same_keys_and_values() {
    let mut s: DirStorage<u32> = DirStorage::default();
    s.insert("alpha", 0);
    s.insert("beta", 4294967295);
    s.insert("gamma", 1200);
    let writes = s.store("data").unwrap();
    let mut listing = listing_of("data", &writes);
    listing.reverse();
    let r: DirStorage<u32> = DirStorage::restore("data", Some(listing)).unwrap();
    assert_eq!(r.get("alpha"), Some(&0));
    assert_eq!(r.get("beta"), Some(&4294967295));
    assert_eq!(r.get("gamma"), Some(&1200));
    assert!(!r.contains_key("delta"));
}

#[test]
fn storing_twice_gives_identical_bytes() {
    let mut s: DirStorage<u32> = DirStorage::default();
    s.insert("a", 17);
    s.insert("b", 99);
    let first = s.store("d").unwrap();
    let second = s.store("d").unwrap();
    assert_eq!(first, second);
    assert_eq!(first.len(), 2);
}

#[test]
fn restore_of_missing_directory_is_empty() {
    let r: DirStorage<u32> = DirStorage::restore("/no/such/dir", None).unwrap();
    assert!(!r.contains_key("1"));
    assert!(r.get("").is_none());
}

#[test]
fn restore_skips_hidden_files() {
    let listing = vec![file(".hidden", b"5"), file("x", b"6"), file(".", b"not a number")];
    let r: DirStorage<u32> = DirStorage::restore("d", Some(listing)).unwrap();
    assert!(!r.contains_key(".hidden"));
    assert!(!r.contains_key("."));
    assert_eq!(r.get("x"), Some(&6));
}

#[test]
fn restore_skips_directories_and_unreadable_names() {
    let listing = vec![
        ListedEntry { name: Some("sub".to_string()), is_dir: true, contents: Ok(Vec::new()) },
        ListedEntry { name: None, is_dir: false, contents: Ok(b"3".to_vec()) },
        file("y", b"8"),
    ];
    let r: DirStorage<u32> = DirStorage::restore("d", Some(listing)).unwrap();
    assert!(!r.contains_key("sub"));
    assert_eq!(r.get("y"), Some(&8));
}

#[test]
fn restore_fails_on_one_corrupt_file() {
    let listing = vec![file("good", b"1"), file("bad", b"twelve"), file("other", b"2")];
    let r: Result<DirStorage<u32>, Error> = DirStorage::restore("d", Some(listing));
    match r {
        Err(Error::RestoreError(path, _)) => assert_eq!(path, "d/bad"),
        _ => panic!("expected a restore error"),
    }
}

#[test]
fn restore_reports_read_failure() {
    let listing = vec![
        file("good", b"1"),
        ListedEntry {
            name: Some("unreadable".to_string()),
            is_dir: false,
            contents: Err(std::io::Error::new(std::io::ErrorKind::PermissionDenied, "denied")),
        },
        file("bad", b"x"),
    ];
    let r: Result<DirStorage<u32>, Error> = DirStorage::restore("d", Some(listing));
    match r {
        Err(Error::IOError(e)) => assert_eq!(e.kind(), std::io::ErrorKind::PermissionDenied),
        _ => panic!("expected an I/O error"),
    }
}

#[test]
fn store_single_on_missing_key_is_not_found() {
    let mut s: DirStorage<u32> = DirStorage::default();
    s.insert("present", 1);
    match s.store_single("d", "absent") {
        Err(Error::NotFound(k)) => assert_eq!(k, "absent"),
        _ => panic!("expected not found"),
    }
}

#[test]
fn store_single_gives_path_and_bytes() {
    let mut s: DirStorage<u32> = DirStorage::default();
    s.insert("k", 305);
    let (path, bytes) = s.store_single("dir/", "k").unwrap();
    assert_eq!(path, "dir/k");
    assert_eq!(bytes, b"305".to_vec());
}

#[test]
fn insert_returns_previous_value() {
    let mut s: DirStorage<u32> = DirStorage::default();
    assert_eq!(s.insert("a", 1), None);
    assert_eq!(s.insert("a", 2), Some(1));
    assert_eq!(s.get("a"), Some(&2));
}

#[test]
fn get_mut_changes_in_place() {
    let mut s: DirStorage<u32> = DirStorage::default();
    s.insert("a", 1);
    *s.get_mut("a").unwrap() = 40;
    assert_eq!(s.get("a"), Some(&40));
    assert!(s.get_mut("b").is_none());
}

#[test]
fn new_keeps_later_of_equal_keys() {
    let s = DirStorage::new(vec![("a".to_string(), 1u32), ("b".to_string(), 2), ("a".to_string(), 3)]);
    assert_eq!(s.get("a"), Some(&3));
    assert_eq!(s.get("b"), Some(&2));
}

#[test]
fn u32_codec_is_decimal_text() {
    assert_eq!(305u32.store().unwrap(), b"305".to_vec());
    assert_eq!(0u32.store().unwrap(), b"0".to_vec());
    assert_eq!(4294967295u32.store().unwrap(), b"4294967295".to_vec());
    assert_eq!(u32::restore(b"007").unwrap(), 7);
    assert_eq!(u32::restore(b"4294967295").unwrap(), 4294967295);
    assert!(u32::restore(b"4294967296").is_err());
    assert!(u32::restore(b"12a").is_err());
    assert!(u32::restore(b"").is_err());
}

#[test]
fn paths_join_with_one_separator() {
    assert_eq!(join_path("d", "x"), "d/x");
    assert_eq!(join_path("d/", "x"), "d/x");
    assert_eq!(join_path("", "x"), "x");
}

#[test]
fn errors_describe_themselves() {
    assert_eq!(Error::NotFound("k".to_string()).describe(), "k: Not Found");
    assert_eq!(Error::OSError("no room".to_string()).describe(), "no room");
    assert_eq!(Error::RestoreError("d/f".to_string(), "bad".to_string()).describe(), "d/f: bad");
    assert_eq!(Error::StoreError("d/u".to_string(), "cannot write".to_string()).describe(), "d/u: cannot write");
}
