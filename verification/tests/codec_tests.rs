use bitcask::compactor::Compactor;
use bitcask::compactor::Input;
use bitcask::compactor::Operation;
use bitcask::fs::Fd;
use bitcask::fs::Offset;
use bitcask::keydir::CacheEntry;
use bitcask::keydir::KeyDir;
use bitcask::repr::Entry;
use bitcask::repr::EntryError;
use bitcask::repr::Header;

#[test]
fn header_serializes_little_endian() {
    let h = Header { tombstone: 0, timestamp: 1, key_size: 2, value_size: 3 };
    let bytes = h.serialize();
    assert_eq!(
        bytes,
        vec![0u8, 1, 0, 0, 0, 0, 0, 0, 0, 2, 0, 3, 0, 0, 0]
    );
    assert_eq!(Header::deserialize(&bytes), h);
}

#[test]
fn header_round_trips_large_fields() {
    let h = Header {
        tombstone: 1,
        timestamp: 0x0102_0304_0506_0708,
        key_size: 0xabcd,
        value_size: 0xdead_beef,
    };
    let bytes = h.serialize();
    assert_eq!(bytes.len(), 15);
    assert_eq!(bytes[0], 1);
    assert_eq!(&bytes[1..9], &[8, 7, 6, 5, 4, 3, 2, 1]);
    assert_eq!(&bytes[9..11], &[0xcd, 0xab]);
    assert_eq!(&bytes[11..15], &[0xef, 0xbe, 0xad, 0xde]);
    assert_eq!(Header::deserialize(&bytes), h);
}

#[test]
fn header_sizes() {
    let h = Header { tombstone: 0, timestamp: 0, key_size: 2, value_size: 3 };
    assert_eq!(h.data_size(), 5);
    assert_eq!(h.entry_size(), 20);
}

#[test]
fn entry_serializes_header_key_value() {
    let e = Entry::new_encoded(b"hello", b"world", 42).unwrap();
    assert!(!e.is_tombstone());
    assert_eq!(e.key(), b"hello");
    assert_eq!(e.value(), b"world");
    assert_eq!(e.len(), 25);
    let bytes = e.serialize();
    assert_eq!(bytes.len(), 25);
    assert_eq!(
        &bytes[..15],
        &[0u8, 42, 0, 0, 0, 0, 0, 0, 0, 5, 0, 5, 0, 0, 0]
    );
    assert_eq!(&bytes[15..20], b"hello");
    assert_eq!(&bytes[20..25], b"world");
}

#[test]
fn tombstone_entry_has_no_value() {
    let e = Entry::new_empty(b"key");
    assert!(e.is_tombstone());
    assert_eq!(e.key(), b"key");
    assert_eq!(e.value(), b"");
    assert_eq!(e.len(), 18);
    let bytes = e.serialize();
    assert_eq!(
        &bytes[..15],
        &[1u8, 0, 0, 0, 0, 0, 0, 0, 0, 3, 0, 0, 0, 0, 0]
    );
    assert_eq!(&bytes[15..], b"key");
}

#[test]
fn entry_rejects_bad_sizes() {
    assert!(matches!(
        Entry::new_encoded(b"", b"v", 0),
        Err(EntryError::KeyEmpty)
    ));
    let long = vec![0u8; 65535];
    assert!(matches!(
        Entry::new_encoded(&long, b"v", 0),
        Err(EntryError::KeyTooLong)
    ));
}

#[test]
fn keydir_tracks_latest_locator() {
    let mut dir = KeyDir::new();
    assert!(dir.get(b"k").is_none());
    let first = CacheEntry { fd: Fd(0), value_size: 1, offset: Offset(0), timestamp: 0 };
    let second = CacheEntry { fd: Fd(0), value_size: 2, offset: Offset(17), timestamp: 5 };
    dir.put(b"k", first);
    assert_eq!(dir.get(b"k").unwrap(), first);
    dir.put(b"k", second);
    assert_eq!(dir.get(b"k").unwrap(), second);
    assert!(dir.references(Fd(0)));
    assert!(!dir.references(Fd(1)));
    assert!(dir.remove(b"k"));
    assert!(dir.get(b"k").is_none());
    assert!(!dir.remove(b"k"));
}

#[test]
fn compactor_classifies_records() {
    let mut c = Compactor::new();
    assert!(matches!(c.poll_transmit(), Some(Operation::CheckFile)));
    assert!(c.poll_transmit().is_none());
    assert!(c.poll_timeout().is_none());

    let tomb = Entry::new_empty(b"gone");
    c.handle_input(Input::Entry(tomb));
    assert!(matches!(c.poll_transmit(), Some(Operation::Ignore)));

    let live = Entry::new_encoded(b"live", b"v", 9).unwrap();
    c.handle_input(Input::Entry(live));
    match c.poll_transmit() {
        Some(Operation::CheckKeydir(key)) => assert_eq!(key, b"live".to_vec()),
        other => panic!("expected an index check, got {:?}", other),
    }

    c.handle_input(Input::MatchKeydir);
    assert!(matches!(c.poll_transmit(), Some(Operation::AddImmutable)));
    assert!(matches!(c.poll_transmit(), Some(Operation::AddHint)));

    c.handle_input(Input::NotMatchkeydir);
    assert!(matches!(c.poll_transmit(), Some(Operation::Ignore)));
}

#[test]
fn compactor_sleeps_an_hour_between_passes() {
    let mut c = Compactor::new();
    assert!(matches!(c.poll_transmit(), Some(Operation::CheckFile)));
    c.handle_input(Input::End(1000));
    assert_eq!(c.poll_timeout(), Some(4600));

    // Inputs while dormant are ignored.
    c.handle_input(Input::MatchKeydir);
    assert!(c.poll_transmit().is_none());

    // Too early: still dormant.
    c.handle_timeout(4599);
    assert!(c.poll_transmit().is_none());
    assert_eq!(c.poll_timeout(), Some(4600));

    // The dormancy has elapsed: the next pass starts.
    c.handle_timeout(4600);
    assert!(matches!(c.poll_transmit(), Some(Operation::CheckFile)));
    assert!(c.poll_timeout().is_none());
}

#[test]
fn descriptors_count_up_from_zero() {
    let mut fd = Fd::new_empty();
    assert_eq!(fd, Fd(0));
    fd.increment();
    fd.increment();
    assert_eq!(fd, Fd(2));
}

#[test]
fn compactor_deadline_saturates_near_the_end_of_time() {
    let mut c = Compactor::new();
    assert!(matches!(c.poll_transmit(), Some(Operation::CheckFile)));
    c.handle_input(Input::End(u64::MAX));
    assert_eq!(c.poll_timeout(), Some(u64::MAX));
    // The dormancy can never elapse: the machine stays asleep.
    c.handle_timeout(u64::MAX);
    assert!(c.poll_transmit().is_none());
    assert_eq!(c.poll_timeout(), Some(u64::MAX));
}

#[test]
fn header_deserialize_inverts_any_bytes() {
    let bytes: Vec<u8> = (1..=15u8).collect();
    let h = Header::deserialize(&bytes);
    assert_eq!(h.serialize(), bytes);
}
