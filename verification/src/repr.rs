//! The record codec: the fixed 15-byte header plus key and value bytes.
//!
//! A record on disk is `header ++ key ++ value`, all multi-byte header
//! fields little-endian. Tombstone records carry an empty value and a zero
//! timestamp. The layout is part of the external format and is pinned down
//! bit-exactly by [`spec_header_bytes`].

use vstd::prelude::*;
use vstd::string::StringSliceAdditionalSpecFns;

verus! {

/// Size in bytes of an encoded record header.
pub const HEADER_LEN: usize = 15;

/// Header tombstone field for a live record.
pub const NOT_DELETED: u8 = 0;

/// Header tombstone field for a deletion marker.
pub const IS_DELETED: u8 = 1;

/// Largest admissible key length in bytes.
pub const MAX_KEY_SIZE: usize = 65534;

/// Largest admissible value length in bytes (fits a `u32` length field,
/// leaving `u32::MAX` itself unused).
pub const MAX_VALUE_SIZE: u64 = 0xffff_fffe;

/// Database record header.
///
/// Field order matches the on-disk layout: tombstone (1 byte), timestamp
/// (8 bytes), key size (2 bytes), value size (4 bytes).
#[derive(Debug, Clone, Copy, PartialEq, Eq, Structural)]
pub struct Header {
    pub tombstone: u8,
    pub timestamp: u64,
    pub key_size: u16,
    pub value_size: u32,
}

/// The 15 bytes that encode a header, little-endian fields in layout order.
pub open spec fn spec_header_bytes(h: Header) -> Seq<u8> {
    seq![h.tombstone] + vstd::bytes::spec_u64_to_le_bytes(h.timestamp)
        + vstd::bytes::spec_u16_to_le_bytes(h.key_size) + vstd::bytes::spec_u32_to_le_bytes(
        h.value_size,
    )
}

/// The header denoted by 15 bytes of log data.
pub open spec fn spec_header_of(s: Seq<u8>) -> Header
    recommends
        s.len() == HEADER_LEN,
{
    Header {
        tombstone: s[0],
        timestamp: vstd::bytes::spec_u64_from_le_bytes(s.subrange(1, 9)),
        key_size: vstd::bytes::spec_u16_from_le_bytes(s.subrange(9, 11)),
        value_size: vstd::bytes::spec_u32_from_le_bytes(s.subrange(11, 15)),
    }
}

/// Decoding inverts encoding: every header survives a round trip through
/// its 15-byte representation.
pub proof fn lemma_header_roundtrip(h: Header)
    ensures
        spec_header_bytes(h).len() == HEADER_LEN,
        spec_header_of(spec_header_bytes(h)) == h,
{
    vstd::bytes::lemma_auto_spec_u64_to_from_le_bytes();
    vstd::bytes::lemma_auto_spec_u16_to_from_le_bytes();
    vstd::bytes::lemma_auto_spec_u32_to_from_le_bytes();
    let s = spec_header_bytes(h);
    assert(s.subrange(1, 9) =~= vstd::bytes::spec_u64_to_le_bytes(h.timestamp));
    assert(s.subrange(9, 11) =~= vstd::bytes::spec_u16_to_le_bytes(h.key_size));
    assert(s.subrange(11, 15) =~= vstd::bytes::spec_u32_to_le_bytes(h.value_size));
}

/// Encoding inverts decoding: any 15 bytes of log data are reproduced
/// exactly by re-encoding the header they denote.
pub proof fn lemma_header_bytes_of(s: Seq<u8>)
    requires
        s.len() == HEADER_LEN,
    ensures
        spec_header_bytes(spec_header_of(s)) == s,
{
    vstd::bytes::lemma_auto_spec_u64_to_from_le_bytes();
    vstd::bytes::lemma_auto_spec_u16_to_from_le_bytes();
    vstd::bytes::lemma_auto_spec_u32_to_from_le_bytes();
    let h = spec_header_of(s);
    assert(s.subrange(1, 9).len() == 8);
    assert(s.subrange(9, 11).len() == 2);
    assert(s.subrange(11, 15).len() == 4);
    assert(vstd::bytes::spec_u64_to_le_bytes(h.timestamp) == s.subrange(1, 9));
    assert(vstd::bytes::spec_u16_to_le_bytes(h.key_size) == s.subrange(9, 11));
    assert(vstd::bytes::spec_u32_to_le_bytes(h.value_size) == s.subrange(11, 15));
    assert(spec_header_bytes(h) =~= s);
}

impl Header {
    /// Combined length of the key and value bytes that follow this header.
    pub open spec fn spec_data_size(self) -> int {
        self.key_size + self.value_size
    }

    /// Total on-disk length of a record with this header.
    pub open spec fn spec_entry_size(self) -> int {
        HEADER_LEN + self.key_size + self.value_size
    }

    /// A header the store itself would write: tombstone flag is boolean,
    /// key size within bounds, tombstones carry no value.
    pub open spec fn valid(self) -> bool {
        &&& (self.tombstone == NOT_DELETED || self.tombstone == IS_DELETED)
        &&& 1 <= self.key_size <= MAX_KEY_SIZE
        &&& self.value_size <= MAX_VALUE_SIZE
        &&& (self.tombstone == IS_DELETED ==> self.value_size == 0 && self.timestamp == 0)
    }

    /// The size of the data segment (`key ++ value`) of this record.
    pub fn data_size(&self) -> (r: usize)
        requires
            self.key_size + self.value_size <= usize::MAX,
        ensures
            r == self.spec_data_size(),
    {
        self.key_size as usize + self.value_size as usize
    }

    /// Total size of the record described by this header.
    pub fn entry_size(&self) -> (r: usize)
        requires
            HEADER_LEN + self.key_size + self.value_size <= usize::MAX,
        ensures
            r == self.spec_entry_size(),
    {
        HEADER_LEN + self.key_size as usize + self.value_size as usize
    }

    /// Encodes this header into its 15-byte on-disk form.
    pub fn serialize(&self) -> (r: Vec<u8>)
        ensures
            r@ == spec_header_bytes(*self),
            r@.len() == HEADER_LEN,
    {
        let mut out: Vec<u8> = Vec::new();
        out.push(self.tombstone);
        let mut ts = vstd::bytes::u64_to_le_bytes(self.timestamp);
        out.append(&mut ts);
        let mut ks = vstd::bytes::u16_to_le_bytes(self.key_size);
        out.append(&mut ks);
        let mut vs = vstd::bytes::u32_to_le_bytes(self.value_size);
        out.append(&mut vs);
        proof {
            vstd::bytes::lemma_auto_spec_u64_to_from_le_bytes();
            vstd::bytes::lemma_auto_spec_u16_to_from_le_bytes();
            vstd::bytes::lemma_auto_spec_u32_to_from_le_bytes();
            assert(out@ =~= spec_header_bytes(*self));
        }
        out
    }

    /// Decodes a header from its 15-byte on-disk form.
    pub fn deserialize(buf: &[u8]) -> (h: Header)
        requires
            buf@.len() == HEADER_LEN,
        ensures
            h == spec_header_of(buf@),
    {
        let tombstone = buf[0];
        let timestamp = vstd::bytes::u64_from_le_bytes(vstd::slice::slice_subrange(buf, 1, 9));
        let key_size = vstd::bytes::u16_from_le_bytes(vstd::slice::slice_subrange(buf, 9, 11));
        let value_size = vstd::bytes::u32_from_le_bytes(vstd::slice::slice_subrange(buf, 11, 15));
        Header { tombstone, timestamp, key_size, value_size }
    }
}

/// The full on-disk image of a record: header, key bytes, value bytes.
pub open spec fn spec_record_bytes(tombstone: u8, timestamp: u64, key: Seq<u8>, value: Seq<u8>) -> Seq<u8>
    recommends
        key.len() <= u16::MAX,
        value.len() <= u32::MAX,
{
    spec_header_bytes(
        Header {
            tombstone,
            timestamp,
            key_size: key.len() as u16,
            value_size: value.len() as u32,
        },
    ) + key + value
}

/// Anything the store can persist: a type exposing a byte view.
pub trait StoredData {
    /// The byte string this value denotes.
    spec fn data_view(&self) -> Seq<u8>;

    /// The bytes that will be written to the log for this value.
    fn as_bytes(&self) -> (r: &[u8])
        ensures
            r@ == self.data_view(),
    ;
}

impl StoredData for Vec<u8> {
    open spec fn data_view(&self) -> Seq<u8> {
        self@
    }

    fn as_bytes(&self) -> (r: &[u8]) {
        self.as_slice()
    }
}

impl StoredData for str {
    open spec fn data_view(&self) -> Seq<u8> {
        self.spec_bytes()
    }

    fn as_bytes(&self) -> (r: &[u8]) {
        str::as_bytes(self)
    }
}

/// Represents one record of a data file, ready to be serialized.
#[derive(Debug)]
pub struct Entry {
    pub header: Header,
    pub key: Vec<u8>,
    pub value: Vec<u8>,
}

/// Rejection of a caller-supplied key or value that breaks the size bounds.
#[derive(Debug, Clone, Copy, PartialEq, Eq, Structural)]
pub enum EntryError {
    KeyEmpty,
    KeyTooLong,
    ValueTooLong,
}

impl Entry {
    /// The header agrees with the attached key and value bytes.
    pub open spec fn wf(self) -> bool {
        &&& self.header.valid()
        &&& self.key@.len() == self.header.key_size
        &&& self.value@.len() == self.header.value_size
    }

    /// The bytes this entry occupies in a data file.
    pub open spec fn bytes(self) -> Seq<u8> {
        spec_header_bytes(self.header) + self.key@ + self.value@
    }

    /// The key bytes of this entry.
    pub open spec fn spec_key(self) -> Seq<u8> {
        self.key@
    }

    /// The value bytes of this entry (empty for tombstones).
    pub open spec fn spec_value(self) -> Seq<u8> {
        self.value@
    }

    /// Builds a live record for `key` and `value` stamped with `timestamp`,
    /// rejecting keys and values outside the size bounds.
    pub fn new_encoded(key: &[u8], value: &[u8], timestamp: u64) -> (r: Result<Entry, EntryError>)
        ensures
            match r {
                Ok(e) => {
                    &&& 1 <= key@.len() <= MAX_KEY_SIZE
                    &&& value@.len() <= MAX_VALUE_SIZE
                    &&& e.wf()
                    &&& e.header.tombstone == NOT_DELETED
                    &&& e.header.timestamp == timestamp
                    &&& e.spec_key() == key@
                    &&& e.spec_value() == value@
                },
                Err(EntryError::KeyEmpty) => key@.len() == 0,
                Err(EntryError::KeyTooLong) => key@.len() > MAX_KEY_SIZE,
                Err(EntryError::ValueTooLong) => {
                    &&& 1 <= key@.len() <= MAX_KEY_SIZE
                    &&& value@.len() > MAX_VALUE_SIZE
                },
            },
            r is Ok <==> (1 <= key@.len() <= MAX_KEY_SIZE && value@.len() <= MAX_VALUE_SIZE),
    {
        if key.len() == 0 {
            return Err(EntryError::KeyEmpty);
        }
        if key.len() > MAX_KEY_SIZE {
            return Err(EntryError::KeyTooLong);
        }
        if value.len() as u64 > MAX_VALUE_SIZE {
            return Err(EntryError::ValueTooLong);
        }
        let header = Header {
            tombstone: NOT_DELETED,
            timestamp,
            key_size: key.len() as u16,
            value_size: value.len() as u32,
        };
        Ok(Entry { header, key: vstd::slice::slice_to_vec(key), value: vstd::slice::slice_to_vec(value) })
    }

    /// Creates an empty tombstone entry for a deleted key.
    pub fn new_empty(key: &[u8]) -> (e: Entry)
        requires
            1 <= key@.len() <= MAX_KEY_SIZE,
        ensures
            e.wf(),
            e.header.tombstone == IS_DELETED,
            e.header.timestamp == 0,
            e.spec_key() == key@,
            e.spec_value() == Seq::<u8>::empty(),
    {
        let header = Header {
            tombstone: IS_DELETED,
            timestamp: 0,
            key_size: key.len() as u16,
            value_size: 0,
        };
        let e = Entry { header, key: vstd::slice::slice_to_vec(key), value: Vec::new() };
        proof {
            assert(e.spec_value() =~= Seq::<u8>::empty());
        }
        e
    }

    /// Encodes the whole record, header first, then key, then value.
    pub fn serialize(&self) -> (r: Vec<u8>)
        requires
            HEADER_LEN + self.key@.len() + self.value@.len() <= usize::MAX,
        ensures
            r@ == self.bytes(),
    {
        let mut out = self.header.serialize();
        let mut k = vstd::slice::slice_to_vec(self.key.as_slice());
        out.append(&mut k);
        let mut v = vstd::slice::slice_to_vec(self.value.as_slice());
        out.append(&mut v);
        out
    }

    /// The record's total on-disk length.
    pub fn len(&self) -> (r: usize)
        requires
            self.wf(),
            HEADER_LEN + self.header.key_size + self.header.value_size <= usize::MAX,
        ensures
            r == self.bytes().len(),
    {
        proof {
            lemma_header_roundtrip(self.header);
        }
        HEADER_LEN + self.key.len() + self.value.len()
    }

    /// Whether this record marks a deletion.
    pub fn is_tombstone(&self) -> (r: bool)
        ensures
            r == (self.header.tombstone == IS_DELETED),
    {
        self.header.tombstone == IS_DELETED
    }

    /// The key bytes of this record.
    pub fn key(&self) -> (r: &[u8])
        ensures
            r@ == self.spec_key(),
    {
        self.key.as_slice()
    }

    /// The value bytes of this record.
    pub fn value(&self) -> (r: &[u8])
        ensures
            r@ == self.spec_value(),
    {
        self.value.as_slice()
    }
}

/// A well-formed entry encodes to exactly the record bytes of its parts.
pub proof fn lemma_entry_bytes(e: Entry)
    requires
        e.wf(),
    ensures
        e.bytes() == spec_record_bytes(e.header.tombstone, e.header.timestamp, e.spec_key(), e.spec_value()),
        e.bytes().len() == HEADER_LEN + e.spec_key().len() + e.spec_value().len(),
{
    lemma_header_roundtrip(e.header);
    assert(e.key@.len() as u16 == e.header.key_size);
    assert(e.value@.len() as u32 == e.header.value_size);
}

} // verus!
