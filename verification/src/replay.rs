//! The recovery semantics: what index a scan of a data file produces.
//!
//! [`replay_locs`] walks a file from its first byte as a stream of
//! records, upserting live records and dropping keys at tombstones,
//! stopping at a trailing partial record or at the first structurally
//! invalid header. Recovery computes exactly this map, and appending a
//! whole record to a cleanly parsing file updates it pointwise
//! ([`lemma_replay_append`]).

use vstd::prelude::*;

use crate::fs::Fd;
use crate::fs::Offset;
use crate::keydir::CacheEntry;
use crate::repr::spec_header_bytes;
use crate::repr::spec_header_of;
use crate::repr::spec_record_bytes;
use crate::repr::Header;
use crate::repr::HEADER_LEN;
use crate::repr::IS_DELETED;
use crate::repr::NOT_DELETED;

verus! {

/// One parse step: whether a whole, structurally valid record starts at
/// `off` in `file`.
pub open spec fn record_parses_at(file: Seq<u8>, off: int) -> bool {
    &&& 0 <= off
    &&& off + HEADER_LEN <= file.len()
    &&& spec_header_of(file.subrange(off, off + HEADER_LEN)).valid()
    &&& off + spec_header_of(file.subrange(off, off + HEADER_LEN)).spec_entry_size()
        <= file.len()
}

/// The index that scanning `file` from `off` onward turns `m` into.
pub open spec fn replay_from(file: Seq<u8>, fd: Fd, off: int, m: Map<Seq<u8>, CacheEntry>) -> Map<
    Seq<u8>,
    CacheEntry,
>
    decreases file.len() - off,
{
    if record_parses_at(file, off) {
        let h = spec_header_of(file.subrange(off, off + HEADER_LEN));
        let k = file.subrange(off + HEADER_LEN, off + HEADER_LEN + h.key_size);
        let m2 = if h.tombstone == IS_DELETED {
            m.remove(k)
        } else {
            m.insert(
                k,
                CacheEntry {
                    fd,
                    value_size: h.value_size,
                    offset: Offset(off as usize),
                    timestamp: h.timestamp,
                },
            )
        };
        replay_from(file, fd, off + h.spec_entry_size(), m2)
    } else {
        m
    }
}

/// The index a full recovery scan of `file` produces, with every locator
/// naming the file's descriptor `fd`.
pub open spec fn replay_locs(file: Seq<u8>, fd: Fd) -> Map<Seq<u8>, CacheEntry> {
    replay_from(file, fd, 0, Map::empty())
}

/// The offset at which the scan starting from `off` stops.
pub open spec fn scan_end(file: Seq<u8>, off: int) -> int
    decreases file.len() - off,
{
    if record_parses_at(file, off) {
        scan_end(file, off + spec_header_of(file.subrange(off, off + HEADER_LEN)).spec_entry_size())
    } else {
        off
    }
}

/// A file is a clean log when scanning from its first byte consumes it
/// whole: no trailing partial record, no invalid header.
pub open spec fn parses_cleanly(file: Seq<u8>) -> bool {
    scan_end(file, 0) == file.len()
}

/// Whether the scan, standing at offset `from`, passes through offset
/// `to`: either they are equal, or a whole record starts at `from` and
/// the scan from its end still reaches `to`.
pub open spec fn reaches(file: Seq<u8>, from: int, to: int) -> bool
    decreases to - from,
{
    if from == to {
        true
    } else if from < to && record_parses_at(file, from) && from + spec_header_of(
        file.subrange(from, from + HEADER_LEN),
    ).spec_entry_size() <= to {
        reaches(
            file,
            from + spec_header_of(file.subrange(from, from + HEADER_LEN)).spec_entry_size(),
            to,
        )
    } else {
        false
    }
}

/// Whether offset `t` is on the scan path of `file`: the walk that
/// starts at the file's first byte stands at `t` at some point.
pub open spec fn is_scan_boundary(file: Seq<u8>, t: int) -> bool {
    reaches(file, 0, t)
}

/// The scan reaches its own stopping point.
pub proof fn lemma_scan_end_reaches(file: Seq<u8>, from: int)
    requires
        0 <= from,
    ensures
        reaches(file, from, scan_end(file, from)),
        from <= scan_end(file, from),
    decreases file.len() - from,
{
    if record_parses_at(file, from) {
        let es = spec_header_of(file.subrange(from, from + HEADER_LEN)).spec_entry_size();
        lemma_scan_end_reaches(file, from + es);
    }
}

/// A scan path extends over the record at its end.
pub proof fn lemma_reaches_extend(file: Seq<u8>, from: int, to: int)
    requires
        reaches(file, from, to),
        record_parses_at(file, to),
    ensures
        reaches(
            file,
            from,
            to + spec_header_of(file.subrange(to, to + HEADER_LEN)).spec_entry_size(),
        ),
    decreases to - from,
{
    let es2 = spec_header_of(file.subrange(to, to + HEADER_LEN)).spec_entry_size();
    if from != to {
        let h = spec_header_of(file.subrange(from, from + HEADER_LEN));
        assert(record_parses_at(file, from) && from + h.spec_entry_size() <= to && reaches(
            file,
            from + h.spec_entry_size(),
            to,
        ));
        lemma_reaches_extend(file, from + h.spec_entry_size(), to);
    } else {
        assert(es2 >= HEADER_LEN);
        assert(reaches(file, to + es2, to + es2));
    }
}

/// A scan path is insensitive to the bytes at and beyond its target:
/// any file that agrees below `to` and is at least that long is walked
/// through the same offsets.
pub proof fn lemma_reaches_stable(file: Seq<u8>, file2: Seq<u8>, from: int, to: int)
    requires
        reaches(file, from, to),
        to <= file2.len(),
        forall|j: int| 0 <= j < to ==> file2[j] == file[j],
    ensures
        reaches(file2, from, to),
    decreases to - from,
{
    if from != to {
        let h = spec_header_of(file.subrange(from, from + HEADER_LEN));
        assert(file2.subrange(from, from + HEADER_LEN) =~= file.subrange(from, from + HEADER_LEN));
        assert(record_parses_at(file2, from));
        lemma_reaches_stable(file, file2, from + h.spec_entry_size(), to);
    }
}

/// Extending a file beyond its end changes nothing about how the bytes
/// before the end parse: the scan of the extended file walks the same
/// records until it reaches the old end, carrying the same index.
proof fn lemma_replay_from_ext(
    file: Seq<u8>,
    ext: Seq<u8>,
    fd: Fd,
    off: int,
    m: Map<Seq<u8>, CacheEntry>,
)
    requires
        0 <= off <= file.len(),
        scan_end(file, off) == file.len(),
    ensures
        replay_from(file + ext, fd, off, m) == replay_from(
            file + ext,
            fd,
            file.len() as int,
            replay_from(file, fd, off, m),
        ),
        scan_end(file + ext, off) == scan_end(file + ext, file.len() as int),
    decreases file.len() - off,
{
    let full = file + ext;
    if record_parses_at(file, off) {
        let h = spec_header_of(file.subrange(off, off + HEADER_LEN));
        assert(full.subrange(off, off + HEADER_LEN) =~= file.subrange(off, off + HEADER_LEN));
        assert(record_parses_at(full, off));
        assert(full.subrange(off + HEADER_LEN, off + HEADER_LEN + h.key_size) =~= file.subrange(
            off + HEADER_LEN,
            off + HEADER_LEN + h.key_size,
        ));
        let k = file.subrange(off + HEADER_LEN, off + HEADER_LEN + h.key_size);
        let m2 = if h.tombstone == IS_DELETED {
            m.remove(k)
        } else {
            m.insert(
                k,
                CacheEntry {
                    fd,
                    value_size: h.value_size,
                    offset: Offset(off as usize),
                    timestamp: h.timestamp,
                },
            )
        };
        assert(scan_end(file, off + h.spec_entry_size()) == file.len());
        lemma_replay_from_ext(file, ext, fd, off + h.spec_entry_size(), m2);
        assert(replay_from(file, fd, off, m) == replay_from(
            file,
            fd,
            off + h.spec_entry_size(),
            m2,
        ));
        assert(replay_from(full, fd, off, m) == replay_from(full, fd, off + h.spec_entry_size(), m2));
    } else {
        assert(off == file.len());
        assert(replay_from(file, fd, off, m) == m);
    }
}

/// Appending one whole record to a cleanly parsing log leaves it clean
/// and updates the replayed index pointwise: a live record binds its key
/// to a locator for the appended bytes, a tombstone removes its key.
///
/// This is what makes put and delete durable: reopening a store replays
/// its active file, and each append moves the replay the same way it
/// moved the in-memory index.
pub proof fn lemma_replay_append(
    file: Seq<u8>,
    tombstone: u8,
    timestamp: u64,
    k: Seq<u8>,
    v: Seq<u8>,
    fd: Fd,
)
    requires
        parses_cleanly(file),
        tombstone == crate::repr::NOT_DELETED || tombstone == IS_DELETED,
        1 <= k.len() <= crate::repr::MAX_KEY_SIZE,
        v.len() <= crate::repr::MAX_VALUE_SIZE,
        tombstone == IS_DELETED ==> v.len() == 0 && timestamp == 0,
        file.len() + HEADER_LEN + k.len() + v.len() <= usize::MAX,
    ensures
        parses_cleanly(file + spec_record_bytes(tombstone, timestamp, k, v)),
        replay_locs(file + spec_record_bytes(tombstone, timestamp, k, v), fd) == (if tombstone
            == IS_DELETED {
            replay_locs(file, fd).remove(k)
        } else {
            replay_locs(file, fd).insert(
                k,
                CacheEntry {
                    fd,
                    value_size: v.len() as u32,
                    offset: Offset(file.len() as usize),
                    timestamp,
                },
            )
        }),
{
    let h = Header {
        tombstone,
        timestamp,
        key_size: k.len() as u16,
        value_size: v.len() as u32,
    };
    crate::repr::lemma_header_roundtrip(h);
    let rec = spec_record_bytes(tombstone, timestamp, k, v);
    let full = file + rec;
    let flen = file.len() as int;
    assert(full.subrange(flen, flen + HEADER_LEN) =~= spec_header_bytes(h));
    assert(spec_header_of(full.subrange(flen, flen + HEADER_LEN)) == h);
    assert(record_parses_at(full, flen));
    assert(full.subrange(flen + HEADER_LEN, flen + HEADER_LEN + h.key_size) =~= k);
    assert(!record_parses_at(full, flen + h.spec_entry_size()));
    assert(scan_end(full, flen + h.spec_entry_size()) == full.len());
    assert(scan_end(full, flen) == full.len());
    lemma_replay_from_ext(file, rec, fd, 0, Map::empty());
    let m1 = replay_locs(file, fd);
    assert(replay_locs(full, fd) == replay_from(full, fd, flen, m1));
    let m2 = if tombstone == IS_DELETED {
        m1.remove(k)
    } else {
        m1.insert(
            k,
            CacheEntry {
                fd,
                value_size: h.value_size,
                offset: Offset(flen as usize),
                timestamp,
            },
        )
    };
    assert(replay_from(full, fd, flen, m1) == replay_from(full, fd, flen + h.spec_entry_size(), m2));
    assert(replay_from(full, fd, flen + h.spec_entry_size(), m2) == m2);
}

/// Recovery is a function of the scanned file alone, so opening the same
/// directory twice without writes in between rebuilds pointwise equal
/// indexes.
pub proof fn lemma_recovery_idempotent(
    file: Seq<u8>,
    fd: Fd,
    m1: Map<Seq<u8>, CacheEntry>,
    m2: Map<Seq<u8>, CacheEntry>,
)
    requires
        m1 == replay_locs(file, fd),
        m2 == replay_locs(file, fd),
    ensures
        forall|k: Seq<u8>| m1.contains_key(k) <==> m2.contains_key(k),
        forall|k: Seq<u8>| #[trigger] m1.contains_key(k) ==> m1[k] == m2[k],
{
}

/// The empty file is a clean log that replays to the empty index.
pub proof fn lemma_replay_empty(fd: Fd)
    ensures
        parses_cleanly(Seq::<u8>::empty()),
        replay_locs(Seq::<u8>::empty(), fd) == Map::<Seq<u8>, CacheEntry>::empty(),
{
    reveal_with_fuel(scan_end, 2);
    reveal_with_fuel(replay_from, 2);
}

} // verus!
