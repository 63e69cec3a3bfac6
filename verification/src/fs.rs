//! The file layer: a set of append-only files behind a narrow
//! byte-addressed interface, with one *active* file receiving appends.
//!
//! [`FileSystem`] is the host interface the store consumes; it is modelled
//! as a sequence of byte strings, one per file descriptor, with the active
//! file always the most recently created one. [`Fs`] wraps an
//! implementation with the single write cursor that owns the end-of-file
//! position of the active file.

use vstd::prelude::*;

use crate::keydir::CacheEntry;
use crate::repr::Entry;
use crate::repr::HEADER_LEN;

verus! {

/// An offset of an entry in a data file.
#[derive(Debug, Clone, Copy, Hash, PartialEq, Eq, PartialOrd, Ord, Structural)]
pub struct Offset(pub usize);

/// A failure of the underlying file system.
#[derive(Debug, Clone, Copy, Hash, PartialEq, Eq, Structural)]
pub enum FsError {
    /// The named file descriptor is not known.
    NotFound,
    /// A read, write or flush failed, including short reads and writes.
    Io,
}

/// Represents a file descriptor.
///
/// This allows file systems to have multiple working files, without
/// prescribing how the files or their references are stored.
#[derive(Debug, Clone, Copy, Hash, PartialEq, Eq, PartialOrd, Ord, Structural)]
pub struct Fd(pub usize);

impl Fd {
    /// The descriptor of the first file a fresh file system creates.
    pub fn new_empty() -> (fd: Fd)
        ensures
            fd.0 == 0,
    {
        Fd(0)
    }

    /// Steps this descriptor to the next allocated one.
    pub fn increment(&mut self)
        requires
            old(self).0 < usize::MAX,
        ensures
            final(self).0 == old(self).0 + 1,
    {
        self.0 = self.0 + 1;
    }
}

/// The contents of `file` after `data` is written at byte offset `off`:
/// bytes in the written range come from `data`, bytes below it keep their
/// old contents, any gap between the old end and `off` reads as zero.
pub open spec fn spec_write_bytes(file: Seq<u8>, off: int, data: Seq<u8>) -> Seq<u8> {
    Seq::new(
        if off + data.len() > file.len() {
            (off + data.len()) as nat
        } else {
            file.len()
        },
        |i: int|
            if off <= i < off + data.len() {
                data[i - off]
            } else if i < file.len() {
                file[i]
            } else {
                0u8
            },
    )
}

/// Writing at the end of a file is exactly appending.
pub proof fn lemma_write_bytes_append(file: Seq<u8>, data: Seq<u8>)
    ensures
        spec_write_bytes(file, file.len() as int, data) =~= file + data,
{
}

/// Basic file system operations used by the file layer.
///
/// An implementation is modelled by the contents of its files and the
/// index of its active file; every operation is specified against that
/// model. Implementations do not need to be thread-safe.
pub trait FileSystem: Sized {
    /// Model: the contents of every file, indexed by file descriptor.
    /// Verified implementations override this with their real contents;
    /// the default stands only so that unverified implementations exist
    /// outside Verus without ghost items of their own.
    open spec fn files(&self) -> Seq<Seq<u8>> {
        Seq::empty()
    }

    /// Model: the index of the currently active file, the newest one.
    open spec fn active_ix(&self) -> int {
        self.files().len() - 1
    }

    /// The descriptor of the currently active file.
    fn active(&self) -> (fd: Fd)
        requires
            1 <= self.files().len() <= usize::MAX,
            self.active_ix() == self.files().len() - 1,
        ensures
            fd.0 == self.active_ix(),
    ;

    /// Writes `buf` into the named file at `offset`, extending the file if
    /// needed. On success the whole buffer is written; a short write must
    /// surface as `Io` with the model unchanged.
    fn write_at(&mut self, file: Fd, buf: &[u8], offset: u64) -> (r: Result<usize, FsError>)
        requires
            offset + buf@.len() <= usize::MAX,
        ensures
            final(self).active_ix() == old(self).active_ix(),
            final(self).files().len() == old(self).files().len(),
            match r {
                Ok(n) => {
                    &&& n == buf@.len()
                    &&& file.0 < old(self).files().len()
                    &&& final(self).files() == old(self).files().update(
                        file.0 as int,
                        spec_write_bytes(
                            old(self).files()[file.0 as int],
                            offset as int,
                            buf@,
                        ),
                    )
                },
                Err(FsError::NotFound) => {
                    &&& file.0 >= old(self).files().len()
                    &&& final(self).files() == old(self).files()
                },
                Err(FsError::Io) => final(self).files() == old(self).files(),
            },
    ;

    /// Reads exactly `len` bytes at `offset` from the named file.
    fn read_exact_at(&self, file: Fd, offset: u64, len: usize) -> (r: Result<Vec<u8>, FsError>)
        ensures
            match r {
                Ok(data) => {
                    &&& file.0 < self.files().len()
                    &&& offset + len <= self.files()[file.0 as int].len()
                    &&& data@ == self.files()[file.0 as int].subrange(
                        offset as int,
                        offset + len,
                    )
                },
                Err(e) => true,
            },
    ;

    /// The current size in bytes of the named file.
    fn file_size(&self, file: Fd) -> (r: Result<u64, FsError>)
        ensures
            match r {
                Ok(n) => {
                    &&& file.0 < self.files().len()
                    &&& n == self.files()[file.0 as int].len()
                },
                Err(e) => true,
            },
    ;

    /// Forces previously written bytes of the named file to stable storage.
    fn flush(&mut self, file: Fd) -> (r: Result<(), FsError>)
        ensures
            final(self).files() == old(self).files(),
            final(self).active_ix() == old(self).active_ix(),
    ;

    /// Creates a new instance rooted at `path`, with at least one file,
    /// the active one, ready for appends.
    fn init(path: &str) -> (r: Result<Self, FsError>)
        ensures
            match r {
                Ok(fs) => {
                    &&& 1 <= fs.files().len() <= usize::MAX
                    &&& fs.active_ix() == fs.files().len() - 1
                    &&& forall|i: int|
                        0 <= i < fs.files().len() ==> #[trigger] fs.files()[i].len()
                            <= usize::MAX
                },
                Err(e) => true,
            },
    ;

    /// Retires the current active file and creates a fresh, empty active
    /// file under the next descriptor.
    fn new_active(&mut self) -> (r: Result<Fd, FsError>)
        ensures
            match r {
                Ok(fd) => {
                    &&& old(self).files().len() < usize::MAX
                    &&& final(self).files() == old(self).files().push(Seq::<u8>::empty())
                    &&& fd.0 == old(self).files().len()
                    &&& final(self).active_ix() == old(self).files().len()
                },
                Err(e) => {
                    &&& final(self).files() == old(self).files()
                    &&& final(self).active_ix() == old(self).active_ix()
                },
            },
    ;
}

/// What the file layer relies on of any [`FileSystem`] value: at least
/// one file, the active file is the newest, every file and the file
/// table itself addressable by machine integers.
pub open spec fn fs_wf<T: FileSystem>(t: T) -> bool {
    &&& 1 <= t.files().len() <= usize::MAX
    &&& t.active_ix() == t.files().len() - 1
    &&& forall|i: int| 0 <= i < t.files().len() ==> #[trigger] t.files()[i].len() <= usize::MAX
}

/// Provides a convenient way to interface with the file system.
///
/// Owns the single write cursor into the active file; appends happen at
/// the cursor and advance it, so the cursor equals the end-of-file
/// position as long as every append has succeeded.
#[derive(Debug)]
pub struct Fs<T> {
    fs_impl: T,
    cursor: u64,
    active_fd: Fd,
}

impl<T: FileSystem> Fs<T> {
    /// Model: the contents of every file of the underlying file system.
    pub closed spec fn files(self) -> Seq<Seq<u8>> {
        self.fs_impl.files()
    }

    /// Model: the index of the active file.
    pub closed spec fn active(self) -> int {
        self.fs_impl.active_ix()
    }

    /// Model: the write cursor into the active file.
    pub closed spec fn cursor_at(self) -> int {
        self.cursor as int
    }

    /// Model: the underlying file system implementation.
    pub closed spec fn impl_view(self) -> T {
        self.fs_impl
    }

    /// The file layer invariant: the wrapped file system is well formed,
    /// the cached active descriptor agrees with it, and the cursor never
    /// points past the end of the active file.
    pub closed spec fn wf(self) -> bool {
        &&& fs_wf(self.fs_impl)
        &&& self.active_fd.0 == self.fs_impl.active_ix()
        &&& self.cursor <= self.fs_impl.files()[self.fs_impl.active_ix()].len()
    }

    /// What the invariant guarantees, for callers that cannot see the
    /// definitions of the model functions.
    pub proof fn lemma_wf_facts(self)
        requires
            self.wf(),
        ensures
            1 <= self.files().len() <= usize::MAX,
            self.active() == self.files().len() - 1,
            0 <= self.cursor_at() <= self.files()[self.active()].len(),
            forall|i: int|
                0 <= i < self.files().len() ==> #[trigger] self.files()[i].len() <= usize::MAX,
            self.files() == self.impl_view().files(),
            self.active() == self.impl_view().active_ix(),
            fs_wf(self.impl_view()),
    {
    }

    /// Wraps a file system, with the cursor at the start of its active
    /// file; recovery repositions the cursor before the store serves writes.
    pub fn new(fs: T) -> (r: Result<Fs<T>, FsError>)
        requires
            fs_wf(fs),
        ensures
            match r {
                Ok(f) => {
                    &&& f.wf()
                    &&& f.files() == fs.files()
                    &&& f.active() == fs.active_ix()
                    &&& f.cursor_at() == 0
                },
                Err(e) => false,
            },
    {
        let active = fs.active();
        Ok(Fs { fs_impl: fs, cursor: 0, active_fd: active })
    }

    /// A borrow of the underlying file system implementation.
    pub fn fs_impl(&self) -> (r: &T)
        ensures
            *r == self.impl_view(),
            r.files() == self.files(),
            r.active_ix() == self.active(),
    {
        &self.fs_impl
    }

    /// Consumes the layer and hands the underlying file system back.
    pub fn into_fs_impl(self) -> (r: T)
        ensures
            r == self.impl_view(),
            r.files() == self.files(),
            r.active_ix() == self.active(),
    {
        self.fs_impl
    }

    /// Appends the serialized entry to the active file at the cursor,
    /// flushes, advances the cursor, and returns the locator of the
    /// record. On any failure the cursor does not move and the bytes at
    /// and below the old cursor are untouched.
    pub fn write_entry(&mut self, entry: &Entry) -> (r: Result<CacheEntry, FsError>)
        requires
            old(self).wf(),
            entry.wf(),
            HEADER_LEN + entry.spec_key().len() + entry.spec_value().len() <= usize::MAX,
        ensures
            final(self).wf(),
            final(self).active() == old(self).active(),
            final(self).files().len() == old(self).files().len(),
            match r {
                Ok(ce) => {
                    &&& ce.fd.0 == old(self).active()
                    &&& ce.offset.0 == old(self).cursor_at()
                    &&& ce.value_size == entry.header.value_size
                    &&& ce.timestamp == entry.header.timestamp
                    &&& final(self).files() == old(self).files().update(
                        old(self).active(),
                        spec_write_bytes(
                            old(self).files()[old(self).active()],
                            old(self).cursor_at(),
                            entry.bytes(),
                        ),
                    )
                    &&& final(self).cursor_at() == old(self).cursor_at() + entry.bytes().len()
                },
                Err(e) => {
                    &&& final(self).cursor_at() == old(self).cursor_at()
                    &&& (final(self).files() == old(self).files() || final(self).files()
                        == old(self).files().update(
                        old(self).active(),
                        spec_write_bytes(
                            old(self).files()[old(self).active()],
                            old(self).cursor_at(),
                            entry.bytes(),
                        ),
                    ))
                },
            },
    {
        let buf = entry.serialize();
        proof {
            crate::repr::lemma_entry_bytes(*entry);
        }
        if buf.len() as u64 > u64::MAX - self.cursor {
            return Err(FsError::Io);
        }
        if self.cursor > usize::MAX as u64 - buf.len() as u64 {
            return Err(FsError::Io);
        }
        let r = self.fs_impl.write_at(self.active_fd, buf.as_slice(), self.cursor);
        let size = match r {
            Ok(n) => n,
            Err(e) => {
                return Err(e);
            },
        };
        match self.fs_impl.flush(self.active_fd) {
            Ok(()) => (),
            Err(e) => {
                return Err(e);
            },
        };
        let current = Offset(self.cursor as usize);
        let ce = CacheEntry {
            fd: self.active_fd,
            value_size: entry.header.value_size,
            offset: current,
            timestamp: entry.header.timestamp,
        };
        self.cursor = self.cursor + size as u64;
        Ok(ce)
    }

    /// Reads `len` bytes at `offset` from the active file.
    pub fn get_chunk(&self, offset: Offset, len: usize) -> (r: Result<Vec<u8>, FsError>)
        requires
            self.wf(),
        ensures
            match r {
                Ok(data) => {
                    &&& offset.0 + len <= self.files()[self.active()].len()
                    &&& data@ == self.files()[self.active()].subrange(
                        offset.0 as int,
                        offset.0 + len,
                    )
                },
                Err(e) => true,
            },
    {
        self.fs_impl.read_exact_at(self.active_fd, offset.0 as u64, len)
    }

    /// Reads `len` bytes at `offset` from the file associated with `fd`.
    pub fn get_chunk_fd(&self, offset: Offset, len: usize, fd: Fd) -> (r: Result<Vec<u8>, FsError>)
        requires
            self.wf(),
        ensures
            match r {
                Ok(data) => {
                    &&& fd.0 < self.files().len()
                    &&& offset.0 + len <= self.files()[fd.0 as int].len()
                    &&& data@ == self.files()[fd.0 as int].subrange(offset.0 as int, offset.0 + len)
                },
                Err(e) => true,
            },
    {
        self.fs_impl.read_exact_at(fd, offset.0 as u64, len)
    }

    /// The number of bytes appended to the active file since it became
    /// active: the write cursor.
    pub fn active_size(&self) -> (r: Result<u64, FsError>)
        ensures
            r == Ok::<u64, FsError>(self.cursor_at() as u64),
    {
        Ok(self.cursor)
    }

    /// The size of the file associated with `fd`, as the file system
    /// reports it.
    pub fn size_of_fd(&self, fd: Fd) -> (r: Result<u64, FsError>)
        requires
            self.wf(),
        ensures
            match r {
                Ok(n) => fd.0 < self.files().len() && n == self.files()[fd.0 as int].len(),
                Err(e) => true,
            },
    {
        self.fs_impl.file_size(fd)
    }

    /// The descriptor of the active file.
    pub fn active_fd(&self) -> (fd: Fd)
        requires
            self.wf(),
        ensures
            fd.0 == self.active(),
    {
        self.active_fd
    }

    /// Retires the active file as immutable, creates a fresh active file,
    /// and resets the cursor to its start.
    pub fn swap_active(&mut self) -> (r: Result<(), FsError>)
        requires
            old(self).wf(),
        ensures
            final(self).wf(),
            match r {
                Ok(()) => {
                    &&& final(self).files() == old(self).files().push(Seq::<u8>::empty())
                    &&& final(self).active() == old(self).files().len()
                    &&& final(self).cursor_at() == 0
                },
                Err(e) => {
                    &&& final(self).files() == old(self).files()
                    &&& final(self).active() == old(self).active()
                    &&& final(self).cursor_at() == old(self).cursor_at()
                },
            },
    {
        match self.fs_impl.new_active() {
            Ok(fd) => {
                self.active_fd = fd;
                self.cursor = 0;
                Ok(())
            },
            Err(e) => Err(e),
        }
    }

    /// Repositions the cursor; used by recovery after scanning the active
    /// file to place the cursor at its end.
    pub fn update_cursor(&mut self, loc: u64)
        requires
            old(self).wf(),
            loc <= old(self).files()[old(self).active()].len(),
        ensures
            final(self).wf(),
            final(self).files() == old(self).files(),
            final(self).active() == old(self).active(),
            final(self).cursor_at() == loc,
    {
        self.cursor = loc;
    }
}

} // verus!
