//! The store: put/get/delete over an append-only log and an in-memory
//! index, with recovery on open and rotation of the active file at a
//! size threshold.
//!
//! The abstract state of a store is the map from keys to values given by
//! its view `@`. `insert` makes the view `old@.insert(k, v)`, `remove`
//! makes it `old@.remove(k)`, and `get` returns exactly `self@[k]`; the
//! internal invariant ties every index entry to a live record in the
//! files of the file layer.

use vstd::prelude::*;

use crate::fs::Fd;
use crate::fs::FileSystem;
use crate::fs::Fs;
use crate::fs::FsError;
use crate::fs::Offset;
use crate::fs::fs_wf;
use crate::fs::spec_write_bytes;
use crate::compactor::Compactor;
use crate::compactor::Input;
use crate::compactor::Operation;
use crate::keydir::CacheEntry;
use crate::keydir::KeyDir;
use crate::replay::is_scan_boundary;
use crate::replay::lemma_reaches_extend;
use crate::replay::lemma_reaches_stable;
use crate::replay::lemma_scan_end_reaches;
use crate::replay::parses_cleanly;
use crate::replay::scan_end;
use crate::replay::reaches;
use crate::replay::record_parses_at;
use crate::replay::replay_from;
use crate::replay::replay_locs;
use crate::repr::Entry;
use crate::repr::EntryError;
use crate::repr::Header;
use crate::repr::HEADER_LEN;
use crate::repr::IS_DELETED;
use crate::repr::MAX_KEY_SIZE;
use crate::repr::MAX_VALUE_SIZE;
use crate::repr::NOT_DELETED;
use crate::repr::spec_header_bytes;
use crate::repr::spec_header_of;
use crate::repr::spec_record_bytes;

verus! {

/// A failure of the clock the host supplies.
#[derive(Debug, Clone, Copy, PartialEq, Eq, Structural)]
pub struct TimeError;

/// The host clock: seconds since an agreed epoch. Nothing is assumed of
/// the returned value.
pub trait ClockSource {
    /// The current time in seconds, or an error if the clock fails.
    fn now(&self) -> (r: Result<u64, TimeError>);
}

/// Everything the store needs of its host: files and a clock.
pub trait System: FileSystem + ClockSource {

}

/// Knobs for tuning the behavior of the data store.
#[derive(Debug, Clone, Copy)]
pub struct Config {
    /// Upper bound of the size of the active file in bytes.
    ///
    /// Note: the size on disk may exceed the threshold by up to one
    /// record, since rotation is checked after an append.
    pub active_threshold: usize,
}

impl Default for Config {
    /// The default threshold: 4096 bytes.
    fn default() -> (r: Self)
        ensures
            r.active_threshold == 4096,
    {
        Config { active_threshold: 4096 }
    }
}

/// An error surfaced by the store.
#[derive(Debug, Clone, Copy, PartialEq, Eq, Structural)]
pub enum CaskError {
    /// A file-system operation failed.
    Fs(FsError),
    /// A caller-supplied key or value broke the size bounds.
    Entry(EntryError),
    /// The requested key is absent from the index.
    NotFound,
    /// A record on disk is inconsistent with the index.
    Corruption,
    /// The clock failed.
    Time,
}

/// The index entry `ce` names a live record for key `k` present in
/// `files`: the record's header and key bytes are really there, within
/// bounds, and agree with the locator.
pub open spec fn locator_valid(files: Seq<Seq<u8>>, k: Seq<u8>, ce: CacheEntry) -> bool {
    &&& 0 <= ce.fd.0 < files.len()
    &&& 1 <= k.len() <= MAX_KEY_SIZE
    &&& ce.value_size <= MAX_VALUE_SIZE
    &&& ce.offset.0 + HEADER_LEN + k.len() + ce.value_size <= files[ce.fd.0 as int].len()
    &&& files[ce.fd.0 as int].subrange(ce.offset.0 as int, ce.offset.0 + HEADER_LEN)
        == spec_header_bytes(
        Header {
            tombstone: NOT_DELETED,
            timestamp: ce.timestamp,
            key_size: k.len() as u16,
            value_size: ce.value_size,
        },
    )
    &&& files[ce.fd.0 as int].subrange(
        ce.offset.0 + HEADER_LEN,
        ce.offset.0 + HEADER_LEN + k.len(),
    ) == k
}

/// The value bytes of the record that `ce` locates for key `k`.
pub open spec fn locator_value(files: Seq<Seq<u8>>, k: Seq<u8>, ce: CacheEntry) -> Seq<u8> {
    files[ce.fd.0 as int].subrange(
        ce.offset.0 + HEADER_LEN + k.len(),
        ce.offset.0 + HEADER_LEN + k.len() + ce.value_size,
    )
}

/// A valid locator whose record, when it lives in the active file, lies
/// wholly below the write cursor, so appends can never touch it.
pub open spec fn entry_ok(
    files: Seq<Seq<u8>>,
    active: int,
    cursor: int,
    k: Seq<u8>,
    ce: CacheEntry,
) -> bool {
    &&& locator_valid(files, k, ce)
    &&& (ce.fd.0 == active ==> ce.offset.0 + HEADER_LEN + k.len() + ce.value_size <= cursor)
}

/// Every index entry's record starts on the scan path of its file, so
/// a compaction walk is guaranteed to come past it.
pub open spec fn entries_on_scan_path(files: Seq<Seq<u8>>, m: Map<Seq<u8>, CacheEntry>) -> bool {
    forall|k: Seq<u8>|
        m.contains_key(k) ==> is_scan_boundary(
            files[(#[trigger] m[k]).fd.0 as int],
            m[k].offset.0 as int,
        )
}

/// The active file up to the cursor is a clean log: appends always land
/// at the end of a whole record, on the scan path.
pub open spec fn active_log_clean(files: Seq<Seq<u8>>, active: int, cursor: int) -> bool {
    scan_end(files[active].take(cursor), 0) == cursor
}

/// Writing at the cursor of the active file disturbs no record that an
/// index entry locates, in any file.
proof fn lemma_entry_ok_after_write(
    files: Seq<Seq<u8>>,
    active: int,
    cursor: int,
    data: Seq<u8>,
    k: Seq<u8>,
    ce: CacheEntry,
)
    requires
        0 <= active < files.len(),
        0 <= cursor <= files[active].len(),
        entry_ok(files, active, cursor, k, ce),
    ensures
        entry_ok(
            files.update(active, spec_write_bytes(files[active], cursor, data)),
            active,
            cursor + data.len(),
            k,
            ce,
        ),
        entry_ok(
            files.update(active, spec_write_bytes(files[active], cursor, data)),
            active,
            cursor,
            k,
            ce,
        ),
        locator_value(files.update(active, spec_write_bytes(files[active], cursor, data)), k, ce)
            == locator_value(files, k, ce),
{
    let nf = spec_write_bytes(files[active], cursor, data);
    let files2 = files.update(active, nf);
    let fd = ce.fd.0 as int;
    let off = ce.offset.0 as int;
    if fd == active {
        assert(forall|j: int| 0 <= j < cursor ==> nf[j] == files[active][j]);
        assert(nf.subrange(off, off + HEADER_LEN) =~= files[active].subrange(
            off,
            off + HEADER_LEN,
        ));
        assert(nf.subrange(off + HEADER_LEN, off + HEADER_LEN + k.len()) =~= files[active]
            .subrange(off + HEADER_LEN, off + HEADER_LEN + k.len()));
        assert(nf.subrange(
            off + HEADER_LEN + k.len(),
            off + HEADER_LEN + k.len() + ce.value_size,
        ) =~= files[active].subrange(
            off + HEADER_LEN + k.len(),
            off + HEADER_LEN + k.len() + ce.value_size,
        ));
    } else {
        assert(files2[fd] == files[fd]);
    }
}

/// Rotating the active file disturbs no record that an index entry
/// locates, and no entry points at the fresh active file.
proof fn lemma_entry_ok_after_rotate(
    files: Seq<Seq<u8>>,
    cursor: int,
    k: Seq<u8>,
    ce: CacheEntry,
)
    requires
        entry_ok(files, files.len() - 1, cursor, k, ce),
    ensures
        entry_ok(files.push(Seq::<u8>::empty()), files.len() as int, 0, k, ce),
        locator_value(files.push(Seq::<u8>::empty()), k, ce) == locator_value(files, k, ce),
{
    let files2 = files.push(Seq::<u8>::empty());
    assert(files2[ce.fd.0 as int] == files[ce.fd.0 as int]);
}

/// A valid locator's record is exactly what the scan parses at its
/// offset: a live, whole record whose key bytes are the entry's key.
proof fn lemma_locator_record_parses(files: Seq<Seq<u8>>, k: Seq<u8>, ce: CacheEntry)
    requires
        locator_valid(files, k, ce),
    ensures
        ({
            let file = files[ce.fd.0 as int];
            let off = ce.offset.0 as int;
            &&& record_parses_at(file, off)
            &&& spec_header_of(file.subrange(off, off + HEADER_LEN)) == Header {
                tombstone: NOT_DELETED,
                timestamp: ce.timestamp,
                key_size: k.len() as u16,
                value_size: ce.value_size,
            }
            &&& spec_header_of(file.subrange(off, off + HEADER_LEN)).spec_entry_size()
                == HEADER_LEN + k.len() + ce.value_size
            &&& file.subrange(off + HEADER_LEN, off + HEADER_LEN + k.len()) == k
        }),
{
    let h = Header {
        tombstone: NOT_DELETED,
        timestamp: ce.timestamp,
        key_size: k.len() as u16,
        value_size: ce.value_size,
    };
    crate::repr::lemma_header_roundtrip(h);
}

/// Appending a whole record at the cursor of a clean active file keeps
/// the log clean, keeps every entry on its file's scan path, and puts
/// the append offset itself on the path — so the entry for the new
/// record lies on it too.
proof fn lemma_clean_after_append(
    files: Seq<Seq<u8>>,
    active: int,
    cursor: int,
    m: Map<Seq<u8>, CacheEntry>,
    tombstone: u8,
    timestamp: u64,
    k: Seq<u8>,
    v: Seq<u8>,
)
    requires
        0 <= active < files.len(),
        0 <= cursor <= files[active].len(),
        cursor + HEADER_LEN + k.len() + v.len() <= usize::MAX,
        tombstone == NOT_DELETED || tombstone == IS_DELETED,
        1 <= k.len() <= MAX_KEY_SIZE,
        v.len() <= MAX_VALUE_SIZE,
        tombstone == IS_DELETED ==> v.len() == 0 && timestamp == 0,
        active_log_clean(files, active, cursor),
        entries_on_scan_path(files, m),
        forall|kk: Seq<u8>|
            m.contains_key(kk) ==> entry_ok(files, active, cursor, kk, #[trigger] m[kk]),
    ensures
        ({
            let files2 = files.update(
                active,
                spec_write_bytes(
                    files[active],
                    cursor,
                    spec_record_bytes(tombstone, timestamp, k, v),
                ),
            );
            &&& active_log_clean(files2, active, cursor + HEADER_LEN + k.len() + v.len())
            &&& active_log_clean(files2, active, cursor)
            &&& entries_on_scan_path(files2, m)
            &&& is_scan_boundary(files2[active], cursor)
        }),
{
    let h = Header {
        tombstone,
        timestamp,
        key_size: k.len() as u16,
        value_size: v.len() as u32,
    };
    crate::repr::lemma_header_roundtrip(h);
    let rec = spec_record_bytes(tombstone, timestamp, k, v);
    let file = files[active];
    let nf = spec_write_bytes(file, cursor, rec);
    let files2 = files.update(active, nf);
    let prefix = file.take(cursor);
    let cursor2 = cursor + rec.len();
    assert(prefix.len() == cursor);
    assert(parses_cleanly(prefix));
    crate::replay::lemma_replay_append(prefix, tombstone, timestamp, k, v, Fd(0));
    assert(nf.take(cursor2) =~= prefix + rec);
    assert(active_log_clean(files2, active, cursor2));
    assert(nf.take(cursor) =~= prefix);
    assert(active_log_clean(files2, active, cursor));
    assert forall|kk: Seq<u8>| m.contains_key(kk) implies is_scan_boundary(
        files2[(#[trigger] m[kk]).fd.0 as int],
        m[kk].offset.0 as int,
    ) by {
        let ce = m[kk];
        if ce.fd.0 == active {
            assert(ce.offset.0 + HEADER_LEN + kk.len() + ce.value_size <= cursor);
            lemma_reaches_stable(file, nf, 0, ce.offset.0 as int);
        } else {
            assert(files2[ce.fd.0 as int] == files[ce.fd.0 as int]);
        }
    }
    lemma_scan_end_reaches(prefix, 0);
    lemma_reaches_stable(prefix, nf, 0, cursor);
}

/// After writing `header ++ k ++ v` at the cursor, those three parts can
/// be read back from exactly where the locator arithmetic expects them.
proof fn lemma_record_parts(file: Seq<u8>, cursor: int, h: Header, k: Seq<u8>, v: Seq<u8>)
    requires
        0 <= cursor <= file.len(),
        h.key_size == k.len(),
        h.value_size == v.len(),
    ensures
        ({
            let nf = spec_write_bytes(file, cursor, spec_header_bytes(h) + k + v);
            &&& nf.len() >= cursor + HEADER_LEN + k.len() + v.len()
            &&& nf.subrange(cursor, cursor + HEADER_LEN) == spec_header_bytes(h)
            &&& nf.subrange(cursor + HEADER_LEN, cursor + HEADER_LEN + k.len()) == k
            &&& nf.subrange(
                cursor + HEADER_LEN + k.len(),
                cursor + HEADER_LEN + k.len() + v.len(),
            ) == v
        }),
{
    crate::repr::lemma_header_roundtrip(h);
    let rec = spec_header_bytes(h) + k + v;
    let nf = spec_write_bytes(file, cursor, rec);
    assert(nf.subrange(cursor, cursor + HEADER_LEN) =~= spec_header_bytes(h));
    assert(nf.subrange(cursor + HEADER_LEN, cursor + HEADER_LEN + k.len()) =~= k);
    assert(nf.subrange(cursor + HEADER_LEN + k.len(), cursor + HEADER_LEN + k.len() + v.len())
        =~= v);
}

/// An embedded, hash-indexed, log-structured key-value store.
pub struct Cask<T> {
    fs: Fs<T>,
    keydir: KeyDir,
    config: Config,
    clean: Ghost<bool>,
}

impl<T: System> Cask<T> {
    /// Model: the contents of every file of the file layer.
    pub closed spec fn files_view(self) -> Seq<Seq<u8>> {
        self.fs.files()
    }

    /// Model: the index of the active file.
    pub closed spec fn active_view(self) -> int {
        self.fs.active()
    }

    /// Model: the write cursor into the active file.
    pub closed spec fn cursor_view(self) -> int {
        self.fs.cursor_at()
    }

    /// Model: the in-memory index, key to locator.
    pub closed spec fn index_view(self) -> Map<Seq<u8>, CacheEntry> {
        self.keydir@
    }

    /// Model: the rotation threshold this store was configured with.
    pub closed spec fn threshold_view(self) -> int {
        self.config.active_threshold as int
    }

    /// The abstract state: the map from each live key to its value bytes.
    pub closed spec fn view(self) -> Map<Seq<u8>, Seq<u8>> {
        Map::new(
            |k: Seq<u8>| self.keydir@.contains_key(k),
            |k: Seq<u8>| locator_value(self.fs.files(), k, self.keydir@[k]),
        )
    }

    /// Model: whether the log has stayed clean — the pre-existing active
    /// file parsed whole at open and no append has failed since — so
    /// that every index entry sits on its file's scan path.
    pub closed spec fn log_clean(self) -> bool {
        self.clean@
    }

    /// The store invariant: the file layer is well formed, every index
    /// entry locates a live record below the cursor of its file, and as
    /// long as the log is clean, every entry lies on its file's scan
    /// path and the next append lands there too.
    pub closed spec fn inv(self) -> bool {
        &&& self.fs.wf()
        &&& self.keydir.wf()
        &&& forall|k: Seq<u8>|
            self.keydir@.contains_key(k) ==> entry_ok(
                self.fs.files(),
                self.fs.active(),
                self.fs.cursor_at(),
                k,
                #[trigger] self.keydir@[k],
            )
        &&& (self.clean@ ==> active_log_clean(self.fs.files(), self.fs.active(), self.fs.cursor_at())
            && entries_on_scan_path(self.fs.files(), self.keydir@))
    }

    /// How the abstract map relates to the index and the files, for
    /// callers that cannot see the model definitions.
    pub proof fn lemma_view_index(self)
        requires
            self.inv(),
        ensures
            forall|k: Seq<u8>| self@.contains_key(k) <==> self.index_view().contains_key(k),
            forall|k: Seq<u8>|
                #[trigger] self.index_view().contains_key(k) ==> entry_ok(
                    self.files_view(),
                    self.active_view(),
                    self.cursor_view(),
                    k,
                    self.index_view()[k],
                ) && self@[k] == locator_value(self.files_view(), k, self.index_view()[k]),
            1 <= self.files_view().len() <= usize::MAX,
            self.active_view() == self.files_view().len() - 1,
            0 <= self.cursor_view() <= self.files_view()[self.active_view()].len(),
    {
        self.fs.lemma_wf_facts();
    }

    /// A borrow of the file system implementation backing this store.
    pub fn fs_impl(&self) -> (r: &T)
        ensures
            r.files() == self.files_view(),
            r.active_ix() == self.active_view(),
    {
        self.fs.fs_impl()
    }

    /// Closes the store, handing the file system back to the caller;
    /// a later open on it sees exactly the bytes this store wrote.
    pub fn close(self) -> (r: T)
        requires
            self.inv(),
        ensures
            fs_wf(r),
            r.files() == self.files_view(),
            r.active_ix() == self.active_view(),
    {
        proof {
            self.fs.lemma_wf_facts();
        }
        self.fs.into_fs_impl()
    }

    /// Opens a store over a freshly initialized file system at `path`.
    pub fn new(path: &str) -> (r: Result<Cask<T>, CaskError>)
        ensures
            match r {
                Ok(c) => c.inv() && c.threshold_view() == 4096,
                Err(e) => true,
            },
    {
        Cask::new_with_config(path, Config::default())
    }

    /// Opens a store over a freshly initialized file system at `path`,
    /// with the given configuration.
    pub fn new_with_config(path: &str, config: Config) -> (r: Result<Cask<T>, CaskError>)
        ensures
            match r {
                Ok(c) => c.inv() && c.threshold_view() == config.active_threshold,
                Err(e) => true,
            },
    {
        let fs_impl = match T::init(path) {
            Ok(f) => f,
            Err(e) => {
                return Err(CaskError::Fs(e));
            },
        };
        Cask::new_with_fs_impl(path, config, fs_impl)
    }

    /// Opens a store over the given file system: scans the pre-existing
    /// active file from its first byte to rebuild the index, then places
    /// the write cursor at the end of the file.
    ///
    /// The index after a successful open is exactly the replay of the
    /// active file ([`replay_locs`]); opening the same files twice
    /// therefore builds pointwise equal indexes.
    pub fn new_with_fs_impl(_path: &str, config: Config, fs_impl: T) -> (r: Result<
        Cask<T>,
        CaskError,
    >)
        requires
            fs_wf(fs_impl),
        ensures
            match r {
                Ok(c) => {
                    &&& c.inv()
                    &&& c.threshold_view() == config.active_threshold
                    &&& c.files_view() == fs_impl.files()
                    &&& c.active_view() == fs_impl.active_ix()
                    &&& c.cursor_view() == fs_impl.files()[fs_impl.active_ix()].len()
                    &&& c.index_view() == replay_locs(
                        fs_impl.files()[fs_impl.active_ix()],
                        Fd(fs_impl.active_ix() as usize),
                    )
                    &&& c.log_clean() <==> parses_cleanly(fs_impl.files()[fs_impl.active_ix()])
                },
                Err(e) => true,
            },
    {
        let mut fs = match Fs::new(fs_impl) {
            Ok(f) => f,
            Err(e) => {
                return Err(CaskError::Fs(e));
            },
        };
        proof {
            fs.lemma_wf_facts();
        }
        let active_fd = fs.active_fd();
        let size_u64 = match fs.size_of_fd(active_fd) {
            Ok(n) => n,
            Err(e) => {
                return Err(CaskError::Fs(e));
            },
        };
        let size = size_u64 as usize;
        let ghost file0 = fs.files()[fs.active()];
        let mut keydir = KeyDir::new();
        let mut off: usize = 0;
        while off < size && size - off >= HEADER_LEN
            invariant
                fs.wf(),
                active_fd.0 == fs.active(),
                file0 == fs.files()[fs.active()],
                size == file0.len(),
                0 <= off <= size,
                keydir.wf(),
                replay_from(file0, active_fd, off as int, keydir@) == replay_locs(
                    file0,
                    active_fd,
                ),
                reaches(file0, 0, off as int),
                scan_end(file0, off as int) == scan_end(file0, 0),
                forall|k: Seq<u8>|
                    keydir@.contains_key(k) ==> entry_ok(
                        fs.files(),
                        fs.active(),
                        size as int,
                        k,
                        #[trigger] keydir@[k],
                    ),
                forall|k: Seq<u8>|
                    keydir@.contains_key(k) ==> is_scan_boundary(
                        fs.files()[(#[trigger] keydir@[k]).fd.0 as int],
                        keydir@[k].offset.0 as int,
                    ),
            ensures
                !record_parses_at(file0, off as int),
                reaches(file0, 0, off as int),
                scan_end(file0, off as int) == scan_end(file0, 0),
            decreases size - off,
        {
            let hdr_buf = match fs.get_chunk(Offset(off), HEADER_LEN) {
                Ok(b) => b,
                Err(e) => {
                    return Err(CaskError::Fs(e));
                },
            };
            let h = Header::deserialize(hdr_buf.as_slice());
            if !(h.tombstone == NOT_DELETED || h.tombstone == IS_DELETED) || h.key_size < 1
                || h.key_size as usize > MAX_KEY_SIZE || h.value_size as u64 > MAX_VALUE_SIZE || (
            h.tombstone == IS_DELETED && (h.value_size != 0 || h.timestamp != 0)) {
                proof {
                    assert(!spec_header_of(file0.subrange(off as int, off + HEADER_LEN)).valid());
                }
                break ;
            }
            let rl: u64 = HEADER_LEN as u64 + h.key_size as u64 + h.value_size as u64;
            if ((size - off) as u64) < rl {
                break ;
            }
            let key_buf = match fs.get_chunk(Offset(off + HEADER_LEN), h.key_size as usize) {
                Ok(b) => b,
                Err(e) => {
                    return Err(CaskError::Fs(e));
                },
            };
            let ghost m_old = keydir@;
            let ce = CacheEntry {
                fd: active_fd,
                value_size: h.value_size,
                offset: Offset(off),
                timestamp: h.timestamp,
            };
            if h.tombstone == IS_DELETED {
                keydir.remove(key_buf.as_slice());
            } else {
                keydir.put(key_buf.as_slice(), ce);
            }
            proof {
                fs.lemma_wf_facts();
                let offi = off as int;
                let hs = file0.subrange(offi, offi + HEADER_LEN);
                assert(hdr_buf@ == hs);
                assert(h == spec_header_of(hs));
                crate::repr::lemma_header_bytes_of(hs);
                assert(record_parses_at(file0, offi));
                assert(keydir@ == (if h.tombstone == IS_DELETED {
                    m_old.remove(key_buf@)
                } else {
                    m_old.insert(key_buf@, ce)
                }));
                assert(replay_from(file0, active_fd, offi, m_old) == replay_from(
                    file0,
                    active_fd,
                    offi + h.spec_entry_size(),
                    keydir@,
                ));
                lemma_reaches_extend(file0, 0, offi);
                assert(scan_end(file0, offi) == scan_end(file0, offi + h.spec_entry_size()));
                if h.tombstone != IS_DELETED {
                    assert(is_scan_boundary(file0, offi));
                    assert(entry_ok(fs.files(), fs.active(), size as int, key_buf@, ce)) by {
                        assert(h.tombstone == NOT_DELETED);
                        assert(key_buf@.len() == h.key_size);
                        assert(h == Header {
                            tombstone: NOT_DELETED,
                            timestamp: ce.timestamp,
                            key_size: key_buf@.len() as u16,
                            value_size: ce.value_size,
                        });
                        assert(hs == spec_header_bytes(h));
                        assert(offi + HEADER_LEN + key_buf@.len() + ce.value_size
                            <= file0.len());
                        assert(file0.subrange(offi, offi + HEADER_LEN) == spec_header_bytes(h));
                        assert(file0.subrange(
                            offi + HEADER_LEN,
                            offi + HEADER_LEN + key_buf@.len(),
                        ) == key_buf@);
                    }
                }
            }
            off = off + (rl as usize);
        }
        proof {
            assert(replay_from(file0, active_fd, off as int, keydir@) == keydir@);
        }
        fs.update_cursor(size as u64);
        let c = Cask { fs, keydir, config, clean: Ghost(off == size) };
        proof {
            assert(scan_end(file0, off as int) == off as int);
            if off == size {
                assert(file0.take(size as int) =~= file0);
                assert(active_log_clean(c.fs.files(), c.fs.active(), c.fs.cursor_at()));
            }
            assert(c.index_view() == replay_locs(
                fs_impl.files()[fs_impl.active_ix()],
                Fd(fs_impl.active_ix() as usize),
            ));
        }
        Ok(c)
    }

    /// Inserts a new entry into the data store.
    ///
    /// On success the abstract map gains `key -> value`; the record is
    /// appended to the active file, the index is upserted, and the
    /// active file is rotated if the append pushed it to the threshold.
    /// Keys and values outside the size bounds are rejected exactly; on
    /// any failure before the index update the map is unchanged.
    pub fn insert(&mut self, key: &[u8], value: &[u8]) -> (r: Result<(), CaskError>)
        requires
            old(self).inv(),
            HEADER_LEN + key@.len() + value@.len() <= usize::MAX,
        ensures
            final(self).inv(),
            final(self).threshold_view() == old(self).threshold_view(),
            final(self).log_clean() == old(self).log_clean(),
            (r matches Err(CaskError::Entry(_))) <==> !(1 <= key@.len() <= MAX_KEY_SIZE
                && value@.len() <= MAX_VALUE_SIZE),
            match r {
                Ok(()) => {
                    &&& final(self)@ == old(self)@.insert(key@, value@)
                    &&& exists|ts: u64|
                        #![trigger spec_record_bytes(NOT_DELETED, ts, key@, value@)]
                        {
                            let nf = spec_write_bytes(
                                old(self).files_view()[old(self).active_view()],
                                old(self).cursor_view(),
                                spec_record_bytes(NOT_DELETED, ts, key@, value@),
                            );
                            let rl = HEADER_LEN + key@.len() + value@.len();
                            if old(self).cursor_view() + rl >= old(self).threshold_view() {
                                &&& final(self).files_view() == old(
                                    self,
                                ).files_view().update(old(self).active_view(), nf).push(
                                    Seq::<u8>::empty(),
                                )
                                &&& final(self).active_view() == old(self).files_view().len()
                                &&& final(self).cursor_view() == 0
                            } else {
                                &&& final(self).files_view() == old(
                                    self,
                                ).files_view().update(old(self).active_view(), nf)
                                &&& final(self).active_view() == old(self).active_view()
                                &&& final(self).cursor_view() == old(self).cursor_view() + rl
                            }
                        }
                },
                Err(CaskError::Entry(e)) => {
                    &&& final(self)@ == old(self)@
                    &&& final(self).files_view() == old(self).files_view()
                    &&& final(self).cursor_view() == old(self).cursor_view()
                    &&& match e {
                        EntryError::KeyEmpty => key@.len() == 0,
                        EntryError::KeyTooLong => key@.len() > MAX_KEY_SIZE,
                        EntryError::ValueTooLong => value@.len() > MAX_VALUE_SIZE,
                    }
                },
                Err(CaskError::Time) => {
                    &&& final(self)@ == old(self)@
                    &&& final(self).files_view() == old(self).files_view()
                    &&& final(self).cursor_view() == old(self).cursor_view()
                },
                Err(CaskError::Fs(_)) => final(self)@ == old(self)@ || final(self)@ == old(
                    self,
                )@.insert(key@, value@),
                _ => false,
            },
    {
        let mut entry = match Entry::new_encoded(key, value, 0) {
            Ok(e) => e,
            Err(e) => {
                return Err(CaskError::Entry(e));
            },
        };
        let ts = match self.fs.fs_impl().now() {
            Ok(t) => t,
            Err(_) => {
                return Err(CaskError::Time);
            },
        };
        entry.header.timestamp = ts;
        proof {
            self.fs.lemma_wf_facts();
            crate::repr::lemma_entry_bytes(entry);
        }
        let ghost files0 = self.fs.files();
        let ghost active0 = self.fs.active();
        let ghost cursor0 = self.fs.cursor_at();
        let ghost m0 = self.keydir@;
        let ghost view0 = self@;
        let ce = match self.fs.write_entry(&entry) {
            Ok(ce) => ce,
            Err(e) => {
                proof {
                    assert forall|k: Seq<u8>|
                        self.keydir@.contains_key(k) implies entry_ok(
                        self.fs.files(),
                        self.fs.active(),
                        self.fs.cursor_at(),
                        k,
                        self.keydir@[k],
                    ) && locator_value(self.fs.files(), k, self.keydir@[k]) == locator_value(
                        files0,
                        k,
                        m0[k],
                    ) by {
                        if self.fs.files() != files0 {
                            lemma_entry_ok_after_write(
                                files0,
                                active0,
                                cursor0,
                                entry.bytes(),
                                k,
                                m0[k],
                            );
                        }
                    }
                    assert(self@ =~= view0);
                    if self.clean@ && self.fs.files() != files0 {
                        self.fs.lemma_wf_facts();
                        assert(cursor0 + entry.bytes().len() <= usize::MAX);
                        lemma_clean_after_append(
                            files0,
                            active0,
                            cursor0,
                            m0,
                            NOT_DELETED,
                            entry.header.timestamp,
                            key@,
                            value@,
                        );
                    }
                }
                return Err(CaskError::Fs(e));
            },
        };
        proof {
            self.fs.lemma_wf_facts();
            assert forall|k: Seq<u8>| m0.contains_key(k) implies entry_ok(
                self.fs.files(),
                self.fs.active(),
                self.fs.cursor_at(),
                k,
                m0[k],
            ) && locator_value(self.fs.files(), k, m0[k]) == locator_value(files0, k, m0[k]) by {
                lemma_entry_ok_after_write(files0, active0, cursor0, entry.bytes(), k, m0[k]);
            }
            lemma_record_parts(files0[active0], cursor0, entry.header, key@, value@);
        }
        self.keydir.put(key, ce);
        proof {
            assert(entry_ok(self.fs.files(), self.fs.active(), self.fs.cursor_at(), key@, ce));
            assert(self@ =~= view0.insert(key@, value@));
            if self.clean@ {
                lemma_clean_after_append(
                    files0,
                    active0,
                    cursor0,
                    m0,
                    NOT_DELETED,
                    entry.header.timestamp,
                    key@,
                    value@,
                );
                assert(entries_on_scan_path(self.fs.files(), self.keydir@)) by {
                    assert(is_scan_boundary(self.fs.files()[ce.fd.0 as int], ce.offset.0 as int));
                }
                assert(active_log_clean(self.fs.files(), self.fs.active(), self.fs.cursor_at()));
            }
        }
        let size = match self.fs.active_size() {
            Ok(n) => n,
            Err(e) => {
                return Err(CaskError::Fs(e));
            },
        };
        let ghost files1 = self.fs.files();
        let ghost cursor1 = self.fs.cursor_at();
        let ghost m1 = self.keydir@;
        let ghost view1 = self@;
        if size >= self.config.active_threshold as u64 {
            match self.fs.swap_active() {
                Ok(()) => {
                    proof {
                        self.fs.lemma_wf_facts();
                        assert forall|k: Seq<u8>| self.keydir@.contains_key(k) implies entry_ok(
                            self.fs.files(),
                            self.fs.active(),
                            self.fs.cursor_at(),
                            k,
                            self.keydir@[k],
                        ) && locator_value(self.fs.files(), k, self.keydir@[k])
                            == locator_value(files1, k, m1[k]) by {
                            lemma_entry_ok_after_rotate(files1, cursor1, k, m1[k]);
                        }
                        assert(self@ =~= view1);
                        if self.clean@ {
                            assert(self.fs.files()[self.fs.active()].take(0) =~= Seq::<u8>::empty());
                            assert(!record_parses_at(Seq::<u8>::empty(), 0));
                            assert(active_log_clean(
                                self.fs.files(),
                                self.fs.active(),
                                self.fs.cursor_at(),
                            ));
                            assert forall|k: Seq<u8>|
                                self.keydir@.contains_key(k) implies is_scan_boundary(
                                self.fs.files()[(#[trigger] self.keydir@[k]).fd.0 as int],
                                self.keydir@[k].offset.0 as int,
                            ) by {
                                let ce_k = self.keydir@[k];
                                assert(self.fs.files()[ce_k.fd.0 as int] == files1[ce_k.fd.0 as int]);
                            }
                        }
                    }
                },
                Err(e) => {
                    return Err(CaskError::Fs(e));
                },
            }
        }
        proof {
            let rl = HEADER_LEN + key@.len() + value@.len();
            assert(cursor1 == cursor0 + rl);
            if cursor0 + rl >= self.config.active_threshold {
                assert(self.fs.files().len() == files0.len() + 1);
                assert(self.fs.active() == files0.len());
                assert(self.fs.cursor_at() == 0);
            } else {
                assert(self.fs.files().len() == files0.len());
                assert(self.fs.active() == active0);
                assert(self.fs.cursor_at() == cursor0 + rl);
                assert(self.fs.files() == files0.update(active0, self.fs.files()[active0]));
            }
            assert(self@ == view0.insert(key@, value@));
        }
        Ok(())
    }

    /// Gets the value stored for a key.
    ///
    /// Returns exactly the bytes the abstract map holds for the key,
    /// `NotFound` precisely when the key is absent, and a file-system
    /// error only when a read fails; under the store invariant a record
    /// can never be inconsistent with its index entry, so `Corruption`
    /// is never returned.
    pub fn get(&self, key: &[u8]) -> (r: Result<Vec<u8>, CaskError>)
        requires
            self.inv(),
        ensures
            match r {
                Ok(v) => self@.contains_key(key@) && v@ == self@[key@],
                Err(CaskError::NotFound) => !self@.contains_key(key@),
                Err(CaskError::Fs(_)) => self@.contains_key(key@),
                _ => false,
            },
    {
        proof {
            self.fs.lemma_wf_facts();
        }
        let ce = match self.keydir.get(key) {
            Some(ce) => ce,
            None => {
                return Err(CaskError::NotFound);
            },
        };
        let hdr_buf = match self.fs.get_chunk_fd(ce.offset, HEADER_LEN, ce.fd) {
            Ok(b) => b,
            Err(e) => {
                return Err(CaskError::Fs(e));
            },
        };
        let header = Header::deserialize(hdr_buf.as_slice());
        proof {
            crate::repr::lemma_header_roundtrip(
                Header {
                    tombstone: NOT_DELETED,
                    timestamp: ce.timestamp,
                    key_size: key@.len() as u16,
                    value_size: ce.value_size,
                },
            );
        }
        if header.tombstone != NOT_DELETED || header.key_size as usize != key.len()
            || header.value_size != ce.value_size || header.timestamp != ce.timestamp {
            return Err(CaskError::Corruption);
        }
        let data_len = header.data_size();
        let data = match self.fs.get_chunk_fd(ce.data_offset(), data_len, ce.fd) {
            Ok(b) => b,
            Err(e) => {
                return Err(CaskError::Fs(e));
            },
        };
        let value = vstd::slice::slice_to_vec(
            vstd::slice::slice_subrange(data.as_slice(), header.key_size as usize, data_len),
        );
        proof {
            assert(value@ =~= locator_value(self.fs.files(), key@, ce));
        }
        Ok(value)
    }

    /// Deletes an entry from the data store.
    ///
    /// If the key is present it is removed from the index first and a
    /// tombstone record is then appended, so the abstract map loses the
    /// key even when the append fails; if the key is absent the store
    /// is untouched and no record is written.
    pub fn remove(&mut self, key: &[u8]) -> (r: Result<(), CaskError>)
        requires
            old(self).inv(),
        ensures
            final(self).inv(),
            final(self).threshold_view() == old(self).threshold_view(),
            final(self).log_clean() == old(self).log_clean(),
            match r {
                Ok(()) => {
                    &&& final(self)@ == old(self)@.remove(key@)
                    &&& (!old(self)@.contains_key(key@) ==> final(self).files_view() == old(
                        self,
                    ).files_view() && final(self).cursor_view() == old(self).cursor_view())
                    &&& (old(self)@.contains_key(key@) ==> final(self).files_view() == old(
                        self,
                    ).files_view().update(
                        old(self).active_view(),
                        spec_write_bytes(
                            old(self).files_view()[old(self).active_view()],
                            old(self).cursor_view(),
                            spec_record_bytes(IS_DELETED, 0, key@, Seq::<u8>::empty()),
                        ),
                    ) && final(self).cursor_view() == old(self).cursor_view() + HEADER_LEN
                        + key@.len())
                },
                Err(CaskError::Fs(_)) => old(self)@.contains_key(key@) && final(self)@ == old(
                    self,
                )@.remove(key@),
                _ => false,
            },
    {
        proof {
            self.fs.lemma_wf_facts();
        }
        let present = match self.keydir.get(key) {
            Some(_ce) => true,
            None => false,
        };
        if !present {
            proof {
                assert(self@ =~= self@.remove(key@));
            }
            return Ok(());
        }
        let tombstone = Entry::new_empty(key);
        proof {
            crate::repr::lemma_entry_bytes(tombstone);
        }
        self.keydir.remove(key);
        let ghost files0 = self.fs.files();
        let ghost active0 = self.fs.active();
        let ghost cursor0 = self.fs.cursor_at();
        let ghost m0 = self.keydir@;
        let ghost view0 = self@;
        proof {
            assert(view0 =~= old(self)@.remove(key@));
        }
        let r = self.fs.write_entry(&tombstone);
        proof {
            assert forall|k: Seq<u8>| self.keydir@.contains_key(k) implies entry_ok(
                self.fs.files(),
                self.fs.active(),
                self.fs.cursor_at(),
                k,
                self.keydir@[k],
            ) && locator_value(self.fs.files(), k, self.keydir@[k]) == locator_value(
                files0,
                k,
                m0[k],
            ) by {
                if self.fs.files() != files0 {
                    lemma_entry_ok_after_write(
                        files0,
                        active0,
                        cursor0,
                        tombstone.bytes(),
                        k,
                        m0[k],
                    );
                }
            }
            assert(self@ =~= view0);
            if self.clean@ && (r is Ok || self.fs.files() != files0) {
                self.fs.lemma_wf_facts();
                assert(cursor0 + tombstone.bytes().len() <= usize::MAX);
                lemma_clean_after_append(
                    files0,
                    active0,
                    cursor0,
                    m0,
                    IS_DELETED,
                    0,
                    key@,
                    Seq::<u8>::empty(),
                );
            }
        }
        match r {
            Ok(_ce) => Ok(()),
            Err(e) => Err(CaskError::Fs(e)),
        }
    }

    /// Whether any index entry still points into the file named `fd`.
    pub fn references_file(&self, fd: Fd) -> (r: bool)
        requires
            self.inv(),
        ensures
            r == exists|k: Seq<u8>|
                #[trigger] self.index_view().contains_key(k) && self.index_view()[k].fd == fd,
    {
        let r = self.keydir.references(fd);
        proof {
            if r {
                let k = choose|k: Seq<u8>|
                    #[trigger] self.keydir@.contains_key(k) && self.keydir@[k].fd == fd;
                assert(self.index_view().contains_key(k) && self.index_view()[k].fd == fd);
            } else {
                assert forall|k: Seq<u8>|
                    #[trigger] self.index_view().contains_key(k) implies self.index_view()[k].fd
                    != fd by {
                    assert(self.keydir@.contains_key(k));
                }
            }
        }
        r
    }

    /// Walks one immutable file with a [`Compactor`], copying each record
    /// that is still the live one for its key to the active file and
    /// repointing the index at the copy; superseded records, tombstones
    /// and undecodable tails are dropped.
    ///
    /// The abstract map is unchanged: compaction moves bytes, never
    /// values. The active file itself, and unknown descriptors, are
    /// skipped without I/O. When the pass completes, no index entry that
    /// sat on the file's scan path still points into the file — and the
    /// store only ever creates entries on the scan path, so a completed
    /// pass leaves the file unreferenced.
    pub fn compact_file(&mut self, fd: Fd) -> (r: Result<(), CaskError>)
        requires
            old(self).inv(),
        ensures
            final(self).inv(),
            final(self)@ == old(self)@,
            final(self).threshold_view() == old(self).threshold_view(),
            final(self).active_view() == old(self).active_view(),
            final(self).files_view().len() == old(self).files_view().len(),
            final(self).log_clean() == old(self).log_clean(),
            (fd.0 < old(self).active_view() && r is Ok) ==> (forall|k: Seq<u8>|
                (#[trigger] final(self).index_view().contains_key(k))
                    && final(self).index_view()[k].fd == fd ==> !is_scan_boundary(
                    old(self).files_view()[fd.0 as int],
                    final(self).index_view()[k].offset.0 as int,
                )),
            forall|k: Seq<u8>|
                #[trigger] final(self).index_view().contains_key(k)
                    ==> ((old(self).index_view().contains_key(k)
                    && final(self).index_view()[k] == old(self).index_view()[k])
                    || final(self).index_view()[k].fd.0 == old(self).active_view()),
            (old(self).log_clean() && fd.0 < old(self).active_view() && r is Ok)
                ==> (forall|k: Seq<u8>|
                #[trigger] final(self).index_view().contains_key(k)
                    ==> final(self).index_view()[k].fd != fd),
    {
        proof {
            self.fs.lemma_wf_facts();
        }
        let active = self.fs.active_fd();
        if fd.0 >= active.0 {
            return Ok(());
        }
        let size_u64 = match self.fs.size_of_fd(fd) {
            Ok(n) => n,
            Err(e) => {
                return Err(CaskError::Fs(e));
            },
        };
        let size = size_u64 as usize;
        let mut compactor = Compactor::new();
        match compactor.poll_transmit() {
            Some(_op) => (),
            None => {
                proof {
                    assert(false);
                }
            },
        };
        let mut off: usize = 0;
        while off < size && size - off >= HEADER_LEN
            invariant
                self.inv(),
                self@ == old(self)@,
                self.config == old(self).config,
                fd.0 < self.fs.active(),
                self.fs.active() == old(self).fs.active(),
                self.fs.files().len() == old(self).fs.files().len(),
                self.fs.files()[fd.0 as int] == old(self).fs.files()[fd.0 as int],
                size == self.fs.files()[fd.0 as int].len(),
                0 <= off <= size,
                compactor.ops().len() == 0,
                compactor.dormant_since() is None,
                self.clean@ == old(self).clean@,
                forall|k: Seq<u8>|
                    (#[trigger] self.keydir@.contains_key(k)) && self.keydir@[k].fd == fd
                        ==> old(self).keydir@.contains_key(k) && old(self).keydir@[k]
                        == self.keydir@[k] && (is_scan_boundary(
                        old(self).fs.files()[fd.0 as int],
                        self.keydir@[k].offset.0 as int,
                    ) ==> reaches(
                        old(self).fs.files()[fd.0 as int],
                        off as int,
                        self.keydir@[k].offset.0 as int,
                    )),
                forall|k: Seq<u8>|
                    (#[trigger] self.keydir@.contains_key(k))
                        ==> ((old(self).keydir@.contains_key(k)
                        && old(self).keydir@[k] == self.keydir@[k])
                        || self.keydir@[k].fd.0 == old(self).fs.active()),
            ensures
                !record_parses_at(old(self).fs.files()[fd.0 as int], off as int),
            decreases size - off,
        {
            proof {
                self.fs.lemma_wf_facts();
            }
            let ghost view_i = self@;
            let ghost m_i = self.keydir@;
            let ghost file_c = self.fs.files()[fd.0 as int];
            let hdr_buf = match self.fs.get_chunk_fd(Offset(off), HEADER_LEN, fd) {
                Ok(b) => b,
                Err(e) => {
                    return Err(CaskError::Fs(e));
                },
            };
            let h = Header::deserialize(hdr_buf.as_slice());
            if !(h.tombstone == NOT_DELETED || h.tombstone == IS_DELETED) || h.key_size < 1
                || h.key_size as usize > MAX_KEY_SIZE || h.value_size as u64 > MAX_VALUE_SIZE || (
            h.tombstone == IS_DELETED && (h.value_size != 0 || h.timestamp != 0)) {
                proof {
                    assert(hdr_buf@ == file_c.subrange(off as int, off + HEADER_LEN));
                    assert(!spec_header_of(file_c.subrange(off as int, off + HEADER_LEN)).valid());
                }
                break ;
            }
            let rl: u64 = HEADER_LEN as u64 + h.key_size as u64 + h.value_size as u64;
            if ((size - off) as u64) < rl {
                proof {
                    assert(hdr_buf@ == file_c.subrange(off as int, off + HEADER_LEN));
                    assert(off + spec_header_of(
                        file_c.subrange(off as int, off + HEADER_LEN),
                    ).spec_entry_size() > file_c.len());
                }
                break ;
            }
            let key_buf = match self.fs.get_chunk_fd(
                Offset(off + HEADER_LEN),
                h.key_size as usize,
                fd,
            ) {
                Ok(b) => b,
                Err(e) => {
                    return Err(CaskError::Fs(e));
                },
            };
            let probe = Entry { header: h, key: key_buf, value: Vec::new() };
            let ghost probe_key = probe.spec_key();
            compactor.handle_input(Input::Entry(probe));
            let op = match compactor.poll_transmit() {
                Some(op) => op,
                None => {
                    proof {
                        assert(false);
                    }
                    return Err(CaskError::Corruption);
                },
            };
            if h.tombstone != IS_DELETED {
                let key = match op {
                    Operation::CheckKeydir(key) => key,
                    _ => {
                        proof {
                            assert(false);
                        }
                        return Err(CaskError::Corruption);
                    },
                };
                proof {
                    assert(key@ == probe_key);
                }
                let matched = match self.keydir.get(key.as_slice()) {
                    Some(ce) => ce.fd.0 == fd.0 && ce.offset.0 == off && ce.timestamp
                        == h.timestamp,
                    None => false,
                };
                if matched {
                    compactor.handle_input(Input::MatchKeydir);
                    let op2 = match compactor.poll_transmit() {
                        Some(op2) => op2,
                        None => {
                            proof {
                                assert(false);
                            }
                            return Err(CaskError::Corruption);
                        },
                    };
                    match op2 {
                        Operation::AddImmutable => (),
                        _ => {
                            proof {
                                assert(false);
                            }
                            return Err(CaskError::Corruption);
                        },
                    };
                    let ghost ce = self.keydir@[key@];
                    proof {
                        assert(self.keydir@.contains_key(key@));
                        assert(ce.fd.0 == fd.0 && ce.offset.0 == off && ce.timestamp
                            == h.timestamp);
                        let hce = Header {
                            tombstone: NOT_DELETED,
                            timestamp: ce.timestamp,
                            key_size: key@.len() as u16,
                            value_size: ce.value_size,
                        };
                        crate::repr::lemma_header_roundtrip(hce);
                        assert(hdr_buf@ == spec_header_bytes(hce));
                        assert(h == hce);
                    }
                    let value_buf = match self.fs.get_chunk_fd(
                        Offset(off + HEADER_LEN + h.key_size as usize),
                        h.value_size as usize,
                        fd,
                    ) {
                        Ok(b) => b,
                        Err(e) => {
                            return Err(CaskError::Fs(e));
                        },
                    };
                    proof {
                        assert(value_buf@ =~= locator_value(self.fs.files(), key@, ce));
                    }
                    let entry = Entry { header: h, key, value: value_buf };
                    proof {
                        crate::repr::lemma_entry_bytes(entry);
                    }
                    let ghost files0 = self.fs.files();
                    let ghost active0 = self.fs.active();
                    let ghost cursor0 = self.fs.cursor_at();
                    let ghost m0 = self.keydir@;
                    let ce2 = match self.fs.write_entry(&entry) {
                        Ok(c) => c,
                        Err(e) => {
                            proof {
                                assert forall|k: Seq<u8>|
                                    self.keydir@.contains_key(k) implies entry_ok(
                                    self.fs.files(),
                                    self.fs.active(),
                                    self.fs.cursor_at(),
                                    k,
                                    self.keydir@[k],
                                ) && locator_value(self.fs.files(), k, self.keydir@[k])
                                    == locator_value(files0, k, m0[k]) by {
                                    if self.fs.files() != files0 {
                                        lemma_entry_ok_after_write(
                                            files0,
                                            active0,
                                            cursor0,
                                            entry.bytes(),
                                            k,
                                            m0[k],
                                        );
                                    }
                                }
                                assert(self@ =~= view_i);
                                if self.clean@ && self.fs.files() != files0 {
                                    self.fs.lemma_wf_facts();
                                    assert(cursor0 + entry.bytes().len() <= usize::MAX);
                                    lemma_clean_after_append(
                                        files0,
                                        active0,
                                        cursor0,
                                        m0,
                                        NOT_DELETED,
                                        ce.timestamp,
                                        key@,
                                        value_buf@,
                                    );
                                }
                            }
                            return Err(CaskError::Fs(e));
                        },
                    };
                    proof {
                        self.fs.lemma_wf_facts();
                        assert forall|k: Seq<u8>| m0.contains_key(k) implies entry_ok(
                            self.fs.files(),
                            self.fs.active(),
                            self.fs.cursor_at(),
                            k,
                            m0[k],
                        ) && locator_value(self.fs.files(), k, m0[k]) == locator_value(
                            files0,
                            k,
                            m0[k],
                        ) by {
                            lemma_entry_ok_after_write(
                                files0,
                                active0,
                                cursor0,
                                entry.bytes(),
                                k,
                                m0[k],
                            );
                        }
                        lemma_record_parts(
                            files0[active0],
                            cursor0,
                            entry.header,
                            entry.spec_key(),
                            entry.spec_value(),
                        );
                    }
                    self.keydir.put(entry.key.as_slice(), ce2);
                    proof {
                        assert(entry_ok(
                            self.fs.files(),
                            self.fs.active(),
                            self.fs.cursor_at(),
                            key@,
                            ce2,
                        ));
                        assert(locator_value(self.fs.files(), key@, ce2) =~= value_buf@);
                        assert(self@ =~= view_i);
                        assert(self.fs.files()[fd.0 as int] == file_c);
                        if self.clean@ {
                            lemma_clean_after_append(
                                files0,
                                active0,
                                cursor0,
                                m0,
                                NOT_DELETED,
                                ce.timestamp,
                                key@,
                                value_buf@,
                            );
                            assert(entries_on_scan_path(self.fs.files(), self.keydir@)) by {
                                assert(is_scan_boundary(
                                    self.fs.files()[ce2.fd.0 as int],
                                    ce2.offset.0 as int,
                                ));
                            }
                            assert(active_log_clean(
                                self.fs.files(),
                                self.fs.active(),
                                self.fs.cursor_at(),
                            ));
                        }
                        assert forall|k: Seq<u8>|
                            (#[trigger] self.keydir@.contains_key(k)) && self.keydir@[k].fd
                                == fd && is_scan_boundary(
                                file_c,
                                self.keydir@[k].offset.0 as int,
                            ) implies reaches(
                            file_c,
                            off + h.spec_entry_size(),
                            self.keydir@[k].offset.0 as int,
                        ) by {
                            let ce_k = self.keydir@[k];
                            assert(k != key@);
                            assert(m_i.contains_key(k) && m_i[k] == ce_k);
                            lemma_locator_record_parses(self.fs.files(), k, ce_k);
                            assert(hdr_buf@ == file_c.subrange(off as int, off + HEADER_LEN));
                            if ce_k.offset.0 == off {
                                assert(k.len() == h.key_size);
                                assert(k == key@);
                                assert(false);
                            }
                            assert(record_parses_at(file_c, off as int));
                            assert(reaches(file_c, off as int, ce_k.offset.0 as int));
                        }
                    }
                    let op3 = match compactor.poll_transmit() {
                        Some(op3) => op3,
                        None => {
                            proof {
                                assert(false);
                            }
                            return Err(CaskError::Corruption);
                        },
                    };
                    match op3 {
                        Operation::AddHint => {
                            // The file interface has no sidecar hint files, so
                            // hint entries are not persisted; recovery always
                            // falls back to the full scan of the active file.
                        },
                        _ => {
                            proof {
                                assert(false);
                            }
                        },
                    }
                } else {
                    compactor.handle_input(Input::NotMatchkeydir);
                    match compactor.poll_transmit() {
                        Some(_op2) => (),
                        None => {
                            proof {
                                assert(false);
                            }
                        },
                    };
                    proof {
                        assert forall|k: Seq<u8>|
                            (#[trigger] self.keydir@.contains_key(k)) && self.keydir@[k].fd
                                == fd && is_scan_boundary(
                                file_c,
                                self.keydir@[k].offset.0 as int,
                            ) implies reaches(
                            file_c,
                            off + h.spec_entry_size(),
                            self.keydir@[k].offset.0 as int,
                        ) by {
                            let ce_k = self.keydir@[k];
                            lemma_locator_record_parses(self.fs.files(), k, ce_k);
                            assert(hdr_buf@ == file_c.subrange(off as int, off + HEADER_LEN));
                            if ce_k.offset.0 == off {
                                assert(k.len() == h.key_size);
                                assert(k == key@);
                                assert(ce_k.timestamp == h.timestamp);
                                assert(false);
                            }
                            assert(record_parses_at(file_c, off as int));
                            assert(reaches(file_c, off as int, ce_k.offset.0 as int));
                        }
                    }
                }
            } else {
                proof {
                    assert forall|k: Seq<u8>|
                        (#[trigger] self.keydir@.contains_key(k)) && self.keydir@[k].fd == fd
                            && is_scan_boundary(
                            file_c,
                            self.keydir@[k].offset.0 as int,
                        ) implies reaches(
                        file_c,
                        off + h.spec_entry_size(),
                        self.keydir@[k].offset.0 as int,
                    ) by {
                        let ce_k = self.keydir@[k];
                        lemma_locator_record_parses(self.fs.files(), k, ce_k);
                        assert(hdr_buf@ == file_c.subrange(off as int, off + HEADER_LEN));
                        assert(ce_k.offset.0 != off);
                        assert(record_parses_at(file_c, off as int));
                        assert(reaches(file_c, off as int, ce_k.offset.0 as int));
                    }
                }
            }
            off = off + (rl as usize);
        }
        proof {
            assert forall|k: Seq<u8>|
                (#[trigger] self.keydir@.contains_key(k)) && self.keydir@[k].fd
                    == fd implies !is_scan_boundary(
                old(self).fs.files()[fd.0 as int],
                self.keydir@[k].offset.0 as int,
            ) by {
                let file = old(self).fs.files()[fd.0 as int];
                if is_scan_boundary(file, self.keydir@[k].offset.0 as int) {
                    let ce = self.keydir@[k];
                    lemma_locator_record_parses(self.fs.files(), k, ce);
                    assert(reaches(file, off as int, ce.offset.0 as int));
                    assert(!record_parses_at(file, off as int));
                    assert(false);
                }
            }
            if old(self).clean@ {
                assert forall|k: Seq<u8>|
                    (#[trigger] self.keydir@.contains_key(k)) implies self.keydir@[k].fd
                    != fd by {
                    if self.keydir@[k].fd == fd {
                        assert(old(self).keydir@.contains_key(k) && old(self).keydir@[k]
                            == self.keydir@[k]);
                        assert(is_scan_boundary(
                            old(self).fs.files()[fd.0 as int],
                            self.keydir@[k].offset.0 as int,
                        ));
                        assert(false);
                    }
                }
            }
        }
        Ok(())
    }

    /// Runs one full compaction pass: walks every immutable file in
    /// descriptor order, leaving the abstract map unchanged. On a clean
    /// log a completed pass retires every immutable file: afterwards
    /// every index entry points into the active file, so no immutable
    /// file is referenced any more.
    pub fn compact(&mut self) -> (r: Result<(), CaskError>)
        requires
            old(self).inv(),
        ensures
            final(self).inv(),
            final(self)@ == old(self)@,
            final(self).threshold_view() == old(self).threshold_view(),
            final(self).log_clean() == old(self).log_clean(),
            (old(self).log_clean() && r is Ok) ==> (forall|k: Seq<u8>|
                #[trigger] final(self).index_view().contains_key(k)
                    ==> final(self).index_view()[k].fd.0 == old(self).active_view()),
    {
        proof {
            self.fs.lemma_wf_facts();
        }
        let active = self.fs.active_fd();
        let mut i: usize = 0;
        while i < active.0
            invariant
                self.inv(),
                self@ == old(self)@,
                self.config == old(self).config,
                self.clean@ == old(self).clean@,
                active.0 == self.fs.active(),
                active.0 == old(self).fs.active(),
                0 <= i <= active.0,
                old(self).clean@ ==> forall|k: Seq<u8>|
                    (#[trigger] self.keydir@.contains_key(k)) ==> (self.keydir@[k].fd.0
                        >= i as int || self.keydir@[k].fd.0 == active.0 as int),
            decreases active.0 - i,
        {
            let ghost m_before = self.keydir@;
            proof {
                if old(self).clean@ {
                    assert(self.log_clean());
                }
                assert((i as int) < self.active_view());
            }
            match self.compact_file(Fd(i)) {
                Ok(()) => (),
                Err(e) => {
                    return Err(e);
                },
            };
            proof {
                if old(self).clean@ {
                    assert forall|k: Seq<u8>|
                        (#[trigger] self.keydir@.contains_key(k)) implies (self.keydir@[k].fd.0
                        >= i + 1 || self.keydir@[k].fd.0 == active.0 as int) by {
                        assert(self.index_view().contains_key(k));
                        assert(self.index_view()[k] == self.keydir@[k]);
                        assert(self.keydir@[k].fd != Fd(i));
                        if self.keydir@[k].fd.0 != active.0 as int {
                            assert(m_before.contains_key(k) && m_before[k] == self.keydir@[k]);
                        }
                    }
                }
            }
            i = i + 1;
        }
        proof {
            self.fs.lemma_wf_facts();
            if old(self).clean@ {
                assert forall|k: Seq<u8>|
                    (#[trigger] self.keydir@.contains_key(k)) implies self.keydir@[k].fd.0
                    == active.0 as int by {
                    assert(self.index_view().contains_key(k));
                    assert(self.keydir@[k].fd.0 < self.fs.files().len());
                }
            }
        }
        Ok(())
    }
}

} // verus!
