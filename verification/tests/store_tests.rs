use bitcask::cask::Cask;
use bitcask::cask::CaskError;
use bitcask::cask::Config;
use bitcask::fs::Fd;
use bitcask::fs::FileSystem;
use bitcask::repr::EntryError;
use bitcask::test::TestFileSystem;

fn open_with_threshold(threshold: usize) -> Cask<TestFileSystem> {
    Cask::new_with_config(".", Config { active_threshold: threshold }).unwrap()
}

#[test]
fn basic_round_trip() {
    let mut cask: Cask<TestFileSystem> = Cask::new(".").unwrap();
    cask.insert(b"hello", b"world").unwrap();
    assert_eq!(cask.get(b"hello").unwrap(), b"world".to_vec());
}

#[test]
fn get_missing_key_is_not_found() {
    let cask: Cask<TestFileSystem> = Cask::new(".").unwrap();
    assert!(matches!(cask.get(b"absent"), Err(CaskError::NotFound)));
}

#[test]
fn last_writer_wins() {
    let mut cask: Cask<TestFileSystem> = Cask::new(".").unwrap();
    cask.insert(b"k", b"v1").unwrap();
    cask.insert(b"other", b"x").unwrap();
    cask.insert(b"k", b"v2").unwrap();
    assert_eq!(cask.get(b"k").unwrap(), b"v2".to_vec());
    assert_eq!(cask.get(b"other").unwrap(), b"x".to_vec());
}

#[test]
fn delete_then_get_is_not_found() {
    let mut cask: Cask<TestFileSystem> = Cask::new(".").unwrap();
    cask.insert(b"k", b"v1").unwrap();
    cask.insert(b"k", b"v2").unwrap();
    cask.remove(b"k").unwrap();
    assert!(matches!(cask.get(b"k"), Err(CaskError::NotFound)));
}

#[test]
fn delete_of_absent_key_succeeds() {
    let mut cask: Cask<TestFileSystem> = Cask::new(".").unwrap();
    cask.remove(b"nothing").unwrap();
    assert!(matches!(cask.get(b"nothing"), Err(CaskError::NotFound)));
}

#[test]
fn empty_value_round_trips() {
    let mut cask: Cask<TestFileSystem> = Cask::new(".").unwrap();
    cask.insert(b"k", b"").unwrap();
    assert_eq!(cask.get(b"k").unwrap(), Vec::<u8>::new());
}

#[test]
fn largest_key_round_trips() {
    let mut cask: Cask<TestFileSystem> = Cask::new(".").unwrap();
    let key = vec![7u8; 65534];
    cask.insert(&key, b"big").unwrap();
    assert_eq!(cask.get(&key).unwrap(), b"big".to_vec());
}

#[test]
fn empty_key_is_rejected() {
    let mut cask: Cask<TestFileSystem> = Cask::new(".").unwrap();
    assert!(matches!(
        cask.insert(b"", b"v"),
        Err(CaskError::Entry(EntryError::KeyEmpty))
    ));
}

#[test]
fn oversized_key_is_rejected() {
    let mut cask: Cask<TestFileSystem> = Cask::new(".").unwrap();
    let key = vec![7u8; 65535];
    assert!(matches!(
        cask.insert(&key, b"v"),
        Err(CaskError::Entry(EntryError::KeyTooLong))
    ));
    assert!(matches!(cask.get(&key), Err(CaskError::NotFound)));
}

#[test]
fn reopen_reads_back() {
    let mut cask = open_with_threshold(4096);
    cask.insert(b"k", b"v").unwrap();
    let fs = cask.close();
    let cask = Cask::new_with_fs_impl(".", Config { active_threshold: 4096 }, fs).unwrap();
    assert_eq!(cask.get(b"k").unwrap(), b"v".to_vec());
}

#[test]
fn reopen_observes_deletes() {
    let mut cask = open_with_threshold(4096);
    cask.insert(b"a", b"1").unwrap();
    cask.insert(b"b", b"2").unwrap();
    cask.remove(b"a").unwrap();
    let fs = cask.close();
    let cask = Cask::new_with_fs_impl(".", Config { active_threshold: 4096 }, fs).unwrap();
    assert!(matches!(cask.get(b"a"), Err(CaskError::NotFound)));
    assert_eq!(cask.get(b"b").unwrap(), b"2".to_vec());
}

#[test]
fn recovery_is_idempotent() {
    let mut cask = open_with_threshold(4096);
    cask.insert(b"a", b"1").unwrap();
    cask.insert(b"b", b"2").unwrap();
    cask.insert(b"a", b"3").unwrap();
    cask.remove(b"b").unwrap();
    let fs = cask.close();
    let cask1 = Cask::new_with_fs_impl(".", Config { active_threshold: 4096 }, fs).unwrap();
    let first_a = cask1.get(b"a").unwrap();
    let first_b_missing = matches!(cask1.get(b"b"), Err(CaskError::NotFound));
    let files_after_first = cask1.fs_impl().num_files();
    let fs = cask1.close();
    let cask2 = Cask::new_with_fs_impl(".", Config { active_threshold: 4096 }, fs).unwrap();
    assert_eq!(cask2.get(b"a").unwrap(), first_a);
    assert!(first_b_missing);
    assert!(matches!(cask2.get(b"b"), Err(CaskError::NotFound)));
    assert_eq!(cask2.fs_impl().num_files(), files_after_first);
}

#[test]
fn compaction_keeps_latest_value() {
    // Records for one-byte keys and values are 17 bytes, so the second
    // put crosses a 25-byte threshold and rotates: both records sit in
    // the now-immutable first file.
    let mut cask = open_with_threshold(25);
    cask.insert(b"k", b"A").unwrap();
    cask.insert(b"k", b"B").unwrap();
    assert_eq!(cask.fs_impl().num_files(), 2);
    assert!(cask.references_file(Fd::new_empty()));
    cask.compact().unwrap();
    assert_eq!(cask.get(b"k").unwrap(), b"B".to_vec());
    assert!(!cask.references_file(Fd::new_empty()));
}

#[test]
fn compaction_preserves_every_live_key() {
    let mut cask = open_with_threshold(40);
    cask.insert(b"a", b"1").unwrap();
    cask.insert(b"b", b"2").unwrap();
    cask.insert(b"a", b"3").unwrap();
    cask.insert(b"c", b"4").unwrap();
    cask.remove(b"b").unwrap();
    cask.insert(b"d", b"5").unwrap();
    cask.compact().unwrap();
    assert_eq!(cask.get(b"a").unwrap(), b"3".to_vec());
    assert!(matches!(cask.get(b"b"), Err(CaskError::NotFound)));
    assert_eq!(cask.get(b"c").unwrap(), b"4".to_vec());
    assert_eq!(cask.get(b"d").unwrap(), b"5".to_vec());
}

#[test]
fn file_system_rejects_unknown_descriptors() {
    let fs = TestFileSystem::init(".").unwrap();
    assert!(matches!(
        fs.read_exact_at(Fd(9), 0, 1),
        Err(bitcask::fs::FsError::NotFound)
    ));
    assert!(matches!(
        fs.file_size(Fd(9)),
        Err(bitcask::fs::FsError::NotFound)
    ));
}

#[test]
fn file_system_rejects_reads_past_the_end() {
    let mut fs = TestFileSystem::init(".").unwrap();
    let active = fs.active();
    fs.write_at(active, b"abc", 0).unwrap();
    assert!(matches!(
        fs.read_exact_at(active, 2, 2),
        Err(bitcask::fs::FsError::Io)
    ));
    assert_eq!(fs.read_exact_at(active, 1, 2).unwrap(), b"bc".to_vec());
}
