use bitcask::cask::Cask;
use bitcask::cask::Config;
use bitcask::fs::FileSystem;
use bitcask::test::TestFileSystem;

#[test]
fn test_active_file_swap() {
    let mut cask: Cask<TestFileSystem> =
        Cask::new_with_config("./", Config { active_threshold: 264 }).unwrap();

    for _ in 0..512 {
        cask.insert(b"entry", b"1").unwrap();
    }

    // Each entry requiring a header adds a lot of overhead:
    // (header (15 bytes) + key (5) + value (1)) * 512 / 264.
    assert_eq!(cask.fs_impl().num_files(), 40);

    assert_eq!(cask.get(b"entry").unwrap(), b"1".to_vec());
}

#[test]
fn active_file_swap_interleaved_writers() {
    // The linearized schedule of two writers that each insert the same
    // entry 100 times: the file count is the ceiling of the total
    // on-disk bytes (200 records of 21 bytes) divided by the threshold.
    let mut cask: Cask<TestFileSystem> =
        Cask::new_with_config("./", Config { active_threshold: 264 }).unwrap();

    for _ in 0..100 {
        cask.insert(b"entry", b"1").unwrap();
        cask.insert(b"entry", b"1").unwrap();
    }

    assert_eq!(cask.fs_impl().num_files(), 16);
    assert_eq!(cask.get(b"entry").unwrap(), b"1".to_vec());
}

#[test]
fn rotation_starts_a_fresh_active_file() {
    // 21-byte records against a threshold of 21: every insert rotates.
    let mut cask: Cask<TestFileSystem> =
        Cask::new_with_config("./", Config { active_threshold: 21 }).unwrap();
    assert_eq!(cask.fs_impl().num_files(), 1);
    cask.insert(b"entry", b"1").unwrap();
    assert_eq!(cask.fs_impl().num_files(), 2);
    cask.insert(b"entry", b"1").unwrap();
    assert_eq!(cask.fs_impl().num_files(), 3);
    assert_eq!(cask.get(b"entry").unwrap(), b"1".to_vec());
}

#[test]
fn interleaved_distinct_writers_accumulate() {
    // The linearized schedule of two writers inserting disjoint key
    // sets: every key stays readable and the bytes on disk are exactly
    // the sum of the record lengths, spread over the rotated files.
    let mut cask: Cask<TestFileSystem> =
        Cask::new_with_config("./", Config { active_threshold: 264 }).unwrap();

    for i in 0..50u32 {
        let first = format!("alpha{i:03}");
        let second = format!("omega{i:03}");
        cask.insert(first.as_bytes(), b"1").unwrap();
        cask.insert(second.as_bytes(), b"2").unwrap();
    }

    for i in 0..50u32 {
        let first = format!("alpha{i:03}");
        let second = format!("omega{i:03}");
        assert_eq!(cask.get(first.as_bytes()).unwrap(), b"1".to_vec());
        assert_eq!(cask.get(second.as_bytes()).unwrap(), b"2".to_vec());
    }

    // 100 records of 15 + 8 + 1 bytes each.
    let total: u64 = 100 * 24;
    let fs = cask.fs_impl();
    let mut on_disk: u64 = 0;
    for fd in 0..fs.num_files() {
        on_disk += fs.file_size(bitcask::fs::Fd(fd)).unwrap();
    }
    assert_eq!(on_disk, total);
    // Rotation at 264 bytes happens after every 11th record.
    assert_eq!(fs.num_files(), 10);
}
