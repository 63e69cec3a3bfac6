//! A deterministic in-memory file system.
//!
//! Implementors of the [`FileSystem`](crate::fs::FileSystem) trait back
//! the store with real storage; this one backs it with plain byte
//! vectors, so tests run without touching a disk and with every outcome
//! verified against the same model the store is proved against.

use vstd::prelude::*;

use crate::cask::ClockSource;
use crate::cask::System;
use crate::cask::TimeError;
use crate::fs::Fd;
use crate::fs::FileSystem;
use crate::fs::FsError;
use crate::fs::spec_write_bytes;

verus! {

/// Computes the contents of `file` after writing `data` at `offset`.
fn write_bytes_vec(file: &Vec<u8>, offset: usize, data: &[u8]) -> (r: Vec<u8>)
    requires
        offset + data@.len() <= usize::MAX,
    ensures
        r@ == spec_write_bytes(file@, offset as int, data@),
{
    let end = offset + data.len();
    let new_len: usize = if end > file.len() {
        end
    } else {
        file.len()
    };
    let ghost target = spec_write_bytes(file@, offset as int, data@);
    let mut out: Vec<u8> = Vec::new();
    let mut i: usize = 0;
    while i < new_len
        invariant
            0 <= i <= new_len,
            end == offset + data@.len(),
            new_len == if end > file@.len() {
                end as int
            } else {
                file@.len() as int
            },
            target == spec_write_bytes(file@, offset as int, data@),
            out@.len() == i,
            forall|j: int| 0 <= j < i ==> out@[j] == target[j],
        decreases new_len - i,
    {
        let b: u8 = if offset <= i && i < end {
            data[i - offset]
        } else if i < file.len() {
            file[i]
        } else {
            0
        };
        out.push(b);
        i = i + 1;
    }
    proof {
        assert(out@ =~= target);
    }
    out
}

/// A test file system holding every file as an in-memory byte vector.
///
/// File descriptors are indices into the vector of files; the active
/// file is always the newest one.
#[derive(Debug)]
pub struct TestFileSystem {
    buffers: Vec<Vec<u8>>,
}

impl TestFileSystem {
    /// How many files this file system holds.
    pub fn num_files(&self) -> (r: usize)
        ensures
            r == self.files().len(),
    {
        self.buffers.len()
    }
}

impl FileSystem for TestFileSystem {
    closed spec fn files(&self) -> Seq<Seq<u8>> {
        self.buffers@.map_values(|v: Vec<u8>| v@)
    }

    closed spec fn active_ix(&self) -> int {
        self.buffers@.len() - 1
    }

    fn active(&self) -> (fd: Fd) {
        proof {
            vstd::std_specs::vec::axiom_spec_len(&self.buffers);
        }
        Fd(self.buffers.len() - 1)
    }

    fn write_at(&mut self, file: Fd, buf: &[u8], offset: u64) -> (r: Result<usize, FsError>) {
        if file.0 >= self.buffers.len() {
            return Err(FsError::NotFound);
        }
        let new_file = write_bytes_vec(&self.buffers[file.0], offset as usize, buf);
        self.buffers.set(file.0, new_file);
        proof {
            assert(self.files() =~= old(self).files().update(
                file.0 as int,
                spec_write_bytes(old(self).files()[file.0 as int], offset as int, buf@),
            ));
        }
        Ok(buf.len())
    }

    fn read_exact_at(&self, file: Fd, offset: u64, len: usize) -> (r: Result<Vec<u8>, FsError>) {
        if file.0 >= self.buffers.len() {
            return Err(FsError::NotFound);
        }
        let fbuf = &self.buffers[file.0];
        let flen = fbuf.len();
        if offset > flen as u64 || len as u64 > flen as u64 - offset {
            return Err(FsError::Io);
        }
        let off = offset as usize;
        let mut out: Vec<u8> = Vec::new();
        let mut i: usize = 0;
        while i < len
            invariant
                0 <= i <= len,
                off + len <= flen,
                flen == fbuf@.len(),
                out@.len() == i,
                forall|j: int| 0 <= j < i ==> out@[j] == fbuf@[off + j],
            decreases len - i,
        {
            out.push(fbuf[off + i]);
            i = i + 1;
        }
        proof {
            assert(out@ =~= self.files()[file.0 as int].subrange(offset as int, offset + len));
        }
        Ok(out)
    }

    fn file_size(&self, file: Fd) -> (r: Result<u64, FsError>) {
        if file.0 >= self.buffers.len() {
            return Err(FsError::NotFound);
        }
        Ok(self.buffers[file.0].len() as u64)
    }

    fn flush(&mut self, _file: Fd) -> (r: Result<(), FsError>) {
        Ok(())
    }

    fn init(_path: &str) -> (r: Result<Self, FsError>) {
        let mut buffers: Vec<Vec<u8>> = Vec::new();
        buffers.push(Vec::new());
        let fs = TestFileSystem { buffers };
        proof {
            vstd::std_specs::vec::axiom_spec_len(&fs.buffers);
            assert forall|i: int|
                0 <= i < fs.files().len() implies #[trigger] fs.files()[i].len()
                <= usize::MAX by {
                let v = fs.buffers@[i];
                vstd::std_specs::vec::axiom_spec_len(&v);
                assert(fs.files()[i] == v@);
            }
        }
        Ok(fs)
    }

    fn new_active(&mut self) -> (r: Result<Fd, FsError>) {
        let fd = Fd(self.buffers.len());
        self.buffers.push(Vec::new());
        proof {
            vstd::std_specs::vec::axiom_spec_len(&self.buffers);
            assert(self.files() =~= old(self).files().push(Seq::<u8>::empty()));
        }
        Ok(fd)
    }
}

impl ClockSource for TestFileSystem {
    fn now(&self) -> (r: Result<u64, TimeError>) {
        Ok(0)
    }
}

impl System for TestFileSystem {

}

} // verus!
