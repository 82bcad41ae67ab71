//! The ephemeral file: appending to it and reading from it.

use vstd::prelude::*;
use vstd::slice::{slice_subrange, slice_to_vec};
use crate::model;
use crate::model::{ActionModel, Chunk, FileModel, ReadModel, WriteEvent, WriteModel, TAIL_SZ};

verus! {

/// Identifies the file in the page cache.
#[derive(Clone, Copy, PartialEq, Eq, Structural, Debug)]
pub struct FileId(pub u64);

/// The mutable tail. New writes go here first.
struct MutableState {
    buffer: Vec<u8>,
    start_offset: u64,
}

/// A full buffer during its flush.
struct FrozenState {
    offset: u64,
    buffer: Vec<u8>,
}

/// An append-only file whose last bytes are held in memory.
pub struct EphemeralFile {
    page_cache_file_id: FileId,
    /// The tail that writes fill.
    mutable_state: MutableState,
    /// The full tail that is being flushed, or whose flush has failed. Readers take its bytes
    /// from here meanwhile.
    frozen_buffer: Option<FrozenState>,
    /// Logical size, memory and disk together.
    bytes_written: u64,
    /// Bytes that are on disk: below this boundary readers use the file, above it the buffers.
    disk_committed_offset: u64,
}

/// Why a write failed.
#[derive(Clone, Copy, PartialEq, Eq, Structural, Debug)]
pub enum EphemeralFileWriteError {
    Cancelled,
}

impl FrozenState {
    spec fn chunk(self) -> Chunk {
        Chunk { offset: self.offset as int, bytes: self.buffer@ }
    }

    /// Asks for the flush of a copy of the buffer.
    fn flush(&self) -> (action: WriteAction)
        ensures
            action@ == ActionModel::Flush(self.chunk()),
    {
        let mut data: Vec<u8> = Vec::with_capacity(self.buffer.len());
        data.extend_from_slice(self.buffer.as_slice());
        assert(data@ =~= self.buffer@);
        WriteAction::Flush { offset: self.offset, data }
    }
}

impl View for EphemeralFile {
    type V = FileModel;

    closed spec fn view(&self) -> FileModel {
        FileModel {
            tail: Chunk {
                offset: self.mutable_state.start_offset as int,
                bytes: self.mutable_state.buffer@,
            },
            frozen: match self.frozen_buffer {
                Some(state) => Some(state.chunk()),
                None => None,
            },
            committed: self.disk_committed_offset as int,
        }
    }
}

impl EphemeralFile {
    /// The size is kept in step with the buffers.
    pub closed spec fn counts_bytes(self) -> bool {
        self.bytes_written == self@.size()
    }

    /// What holds of every file between two calls.
    pub open spec fn wf(self) -> bool {
        &&& self@.wf()
        &&& self.counts_bytes()
    }

    /// The id that the file was created with.
    pub closed spec fn file_id(self) -> FileId {
        self.page_cache_file_id
    }

    /// A new file, with nothing in memory and nothing on disk.
    pub fn create(page_cache_file_id: FileId) -> (file: EphemeralFile)
        ensures
            file.wf(),
            file@ == FileModel::empty(),
            file.file_id() == page_cache_file_id,
    {
        EphemeralFile {
            page_cache_file_id,
            mutable_state: MutableState { buffer: Vec::with_capacity(TAIL_SZ), start_offset: 0 },
            frozen_buffer: None,
            bytes_written: 0,
            disk_committed_offset: 0,
        }
    }

    /// Logical size. It counts bytes that are still in memory.
    pub fn len(&self) -> (size: u64)
        requires
            self.wf(),
        ensures
            size == self@.size(),
    {
        self.bytes_written
    }

    pub fn page_cache_file_id(&self) -> (id: FileId)
        ensures
            id == self.file_id(),
    {
        self.page_cache_file_id
    }
}

/// A write in progress: the bytes to write, and how far the write has come.
pub struct WriteRaw<'a> {
    srcbuf: &'a [u8],
    copied: usize,
    first_write_pos: Option<u64>,
}

impl<'a> View for WriteRaw<'a> {
    type V = WriteModel;

    closed spec fn view(&self) -> WriteModel {
        WriteModel {
            src: self.srcbuf@,
            copied: self.copied as int,
            first_write_pos: match self.first_write_pos {
                Some(pos) => Some(pos as int),
                None => None,
            },
        }
    }
}

impl<'a> WriteRaw<'a> {
    /// The write of `srcbuf`, not begun yet.
    pub fn new(srcbuf: &'a [u8]) -> (op: WriteRaw<'a>)
        ensures
            op@ == WriteModel::start(srcbuf@),
            op@.wf(),
    {
        WriteRaw { srcbuf, copied: 0, first_write_pos: None }
    }
}

/// What the caller of a write has to do next.
pub enum WriteAction {
    /// Write all of `data` to disk at `offset` and report how that went. No other step may be
    /// taken for a writer meanwhile; reads are fine.
    Flush { offset: u64, data: Vec<u8> },
    /// The write is complete: it began at `pos`, and `size` is the file's size to publish.
    Done { pos: u64, size: u64 },
    /// The write ends with an error.
    Failed(EphemeralFileWriteError),
}

impl View for WriteAction {
    type V = ActionModel;

    open spec fn view(&self) -> ActionModel {
        match *self {
            WriteAction::Flush { offset, data } => ActionModel::Flush(
                Chunk { offset: offset as int, bytes: data@ },
            ),
            WriteAction::Done { pos, size } => ActionModel::Done {
                pos: pos as int,
                size: size as int,
            },
            WriteAction::Failed(_) => ActionModel::Failed,
        }
    }
}

impl EphemeralFile {
    /// Takes one step of a write: copies what fits into the tail and, if that fills it, freezes
    /// it and asks for its flush. Between two steps the file can be read.
    ///
    /// A flush that has failed is asked for again before the next tail is filled.
    ///
    /// Steps of different writes must not be interleaved: a write runs from `Begin` until its
    /// action is `Done` or `Failed`.
    pub fn write_raw(&mut self, op: &mut WriteRaw<'_>, event: WriteEvent) -> (action: WriteAction)
        requires
            old(self).wf(),
            old(op)@.wf(),
            old(self)@.size() + old(op)@.remaining() <= u64::MAX,
            event is Flushed ==> old(self)@.frozen is Some,
        ensures
            final(self).wf(),
            final(op)@.wf(),
            (final(self)@, final(op)@, action@) == model::write_next(old(self)@, old(op)@, event),
            final(self).file_id() == old(self).file_id(),
            action matches WriteAction::Failed(error) ==> error
                == EphemeralFileWriteError::Cancelled,
            action matches WriteAction::Flush { offset, data } ==> final(self)@.frozen == Some(
                (Chunk { offset: offset as int, bytes: data@ }),
            ),
            action matches WriteAction::Done { pos, size } ==> pos == final(op)@.pos() && size
                == final(self)@.size(),
            action is Failed <==> event is FlushFailed,
    {
        match event {
            WriteEvent::Begin => {},
            WriteEvent::Flushed => {
                self.commit_frozen();
            },
            WriteEvent::FlushFailed => {
                return WriteAction::Failed(EphemeralFileWriteError::Cancelled);
            },
        }
        if op.copied == op.srcbuf.len() {
            let pos: u64 = match op.first_write_pos {
                Some(pos) => pos,
                None => 0,
            };
            return WriteAction::Done { pos, size: self.bytes_written };
        }
        let available: usize = TAIL_SZ - self.mutable_state.buffer.len();
        let remaining: usize = op.srcbuf.len() - op.copied;
        if let Some(state) = &self.frozen_buffer {
            if remaining >= available {
                return state.flush();
            }
        }
        let pos: u64 = match op.first_write_pos {
            Some(pos) => pos,
            None => self.mutable_state.start_offset + self.mutable_state.buffer.len() as u64,
        };
        op.first_write_pos = Some(pos);

        let to_copy: usize = if remaining < available {
            remaining
        } else {
            available
        };
        let ghost before = self@;
        let chunk: &[u8] = slice_subrange(op.srcbuf, op.copied, op.copied + to_copy);
        self.mutable_state.buffer.extend_from_slice(chunk);
        op.copied = op.copied + to_copy;
        self.bytes_written = self.bytes_written + to_copy as u64;
        assert(self@ =~= before.append(chunk@));

        if self.mutable_state.buffer.len() == TAIL_SZ {
            proof {
                model::lemma_next_multiple(self@.tail.offset);
            }
            self.freeze_tail()
        } else {
            WriteAction::Done { pos, size: self.bytes_written }
        }
    }

    /// Moves the full tail into the frozen buffer, and hands out a copy of it to be written.
    fn freeze_tail(&mut self) -> (action: WriteAction)
        requires
            old(self)@.tail.bytes.len() == TAIL_SZ,
            old(self)@.size() <= u64::MAX,
        ensures
            final(self)@ == old(self)@.freeze(),
            final(self).bytes_written == old(self).bytes_written,
            final(self).file_id() == old(self).file_id(),
            action@ == ActionModel::Flush(old(self)@.tail),
    {
        let mut buffer: Vec<u8> = Vec::with_capacity(TAIL_SZ);
        std::mem::swap(&mut buffer, &mut self.mutable_state.buffer);
        let offset: u64 = self.mutable_state.start_offset;
        self.mutable_state.start_offset = offset + buffer.len() as u64;
        let state = FrozenState { offset, buffer };
        let action: WriteAction = state.flush();
        self.frozen_buffer = Some(state);
        action
    }

    /// Counts the frozen buffer as on disk and lets go of it.
    fn commit_frozen(&mut self)
        requires
            old(self).wf(),
            old(self)@.frozen is Some,
        ensures
            final(self).wf(),
            final(self)@ == old(self)@.commit(),
            final(self).file_id() == old(self).file_id(),
    {
        match &self.frozen_buffer {
            Some(state) => {
                self.disk_committed_offset = self.disk_committed_offset
                    + state.buffer.len() as u64;
            },
            None => {},
        }
        self.frozen_buffer = None;
    }
}

/// A read in progress. What memory has is in the destination already.
pub struct PendingRead {
    start: u64,
    dst: Vec<u8>,
    disk_len: usize,
    nread: usize,
}

impl View for PendingRead {
    type V = ReadModel;

    closed spec fn view(&self) -> ReadModel {
        ReadModel {
            start: self.start as int,
            dst: self.dst@,
            disk_len: self.disk_len as int,
            nread: self.nread as int,
        }
    }
}

impl PendingRead {
    /// Offset and length of what has to be read from disk; nothing if memory has it all.
    pub fn disk_read(&self) -> (range: Option<(u64, usize)>)
        ensures
            match range {
                Some((offset, len)) => offset == self@.start && len == self@.disk_len && len > 0,
                None => self@.disk_len == 0,
            },
    {
        if self.disk_len > 0 {
            Some((self.start, self.disk_len))
        } else {
            None
        }
    }

    /// Puts the bytes from disk, none if none were asked for, in front of those from memory.
    /// Returns the destination and the number of bytes read. An error of the disk is passed on.
    ///
    /// The destination is handed out just as `slice_to_vec` made it: its allocation was made for
    /// the bytes that it holds, and nothing is done to it that could give it spare room.
    pub fn complete<E>(self, disk: Result<Vec<u8>, E>) -> (result: Result<(Vec<u8>, usize), E>)
        requires
            self@.wf(),
            disk matches Ok(bytes) ==> bytes@.len() == self@.disk_len,
        ensures
            match disk {
                Ok(bytes) => result matches Ok((dst, nread)) && dst@ == self@.complete(bytes@)
                    && nread == self@.nread && (exists|src: &[u8]| #[trigger]
                    call_ensures(slice_to_vec::<u8>, (src,), dst)),
                Err(error) => result == Err::<(Vec<u8>, usize), E>(error),
            },
    {
        match disk {
            Ok(bytes) => {
                let ghost plan = self@;
                let disk_len: usize = self.disk_len;
                let nread: usize = self.nread;
                let mut dst: Vec<u8> = self.dst;
                let mut i: usize = 0;
                while i < disk_len
                    invariant
                        i <= disk_len <= dst.len(),
                        disk_len == bytes.len(),
                        dst@.len() == plan.dst.len(),
                        forall|k: int|
                            #![trigger dst@[k]]
                            0 <= k < dst@.len() ==> dst@[k] == if k < i {
                                bytes@[k]
                            } else {
                                plan.dst[k]
                            },
                    decreases disk_len - i,
                {
                    dst.set(i, bytes[i]);
                    i = i + 1;
                }
                assert(dst@ =~= plan.complete(bytes@));
                let src: &[u8] = dst.as_slice();
                let copy: Vec<u8> = slice_to_vec(src);
                assert(call_ensures(slice_to_vec::<u8>, (src,), copy));
                Ok((copy, nread))
            },
            Err(error) => Err(error),
        }
    }
}

/// Copies into `dst`, which holds the bytes from `start` on, what `src`, which holds the bytes
/// from `src_start` on, has of them.
fn copy_overlap(dst: &mut Vec<u8>, start: u64, src: &Vec<u8>, src_start: u64)
    requires
        src_start + src@.len() <= u64::MAX,
    ensures
        final(dst)@.len() == old(dst)@.len(),
        forall|i: int|
            #![trigger final(dst)@[i]]
            0 <= i < old(dst)@.len() ==> final(dst)@[i] == if src_start <= start + i < src_start
                + src@.len() {
                src@[start + i - src_start]
            } else {
                old(dst)@[i]
            },
{
    let end: u64 = start.saturating_add(dst.len() as u64);
    let src_end: u64 = src_start + src.len() as u64;
    if start < src_end && end > src_start {
        let overlap_start: u64 = if start < src_start {
            src_start
        } else {
            start
        };
        let overlap_end: u64 = if end < src_end {
            end
        } else {
            src_end
        };
        let src_off: usize = (overlap_start - src_start) as usize;
        let dst_off: usize = (overlap_start - start) as usize;
        let len: usize = (overlap_end - overlap_start) as usize;
        let ghost before = dst@;
        let mut i: usize = 0;
        while i < len
            invariant
                i <= len,
                src_off + len <= src.len(),
                dst_off + len <= dst.len(),
                dst@.len() == before.len(),
                forall|k: int|
                    #![trigger dst@[k]]
                    0 <= k < before.len() ==> dst@[k] == if dst_off <= k < dst_off + i {
                        src@[k - dst_off + src_off]
                    } else {
                        before[k]
                    },
            decreases len - i,
        {
            dst.set(dst_off + i, src[src_off + i]);
            i = i + 1;
        }
    }
}

impl EphemeralFile {
    /// Starts the read of `dst_cap` bytes at `start`. The part of the file that is in memory is
    /// copied at once; what is on disk can be read at any later time, while writes go on.
    ///
    /// Reading past the end of the file is no error: the destination is zero there.
    pub fn read_exact_at_eof_ok(&self, start: u64, dst_cap: usize) -> (read: PendingRead)
        requires
            self.wf(),
        ensures
            read@ == model::read_plan(self@, start as int, dst_cap as int),
            read@.wf(),
            read@.start == start,
            read@.dst.len() == dst_cap,
            start + dst_cap <= u64::MAX ==> read@.nread == dst_cap,
            start + dst_cap > u64::MAX ==> read@.nread == u64::MAX - start,
    {
        let end: u64 = start.saturating_add(dst_cap as u64);
        let mut dst: Vec<u8> = vec![0; dst_cap];
        copy_overlap(
            &mut dst,
            start,
            &self.mutable_state.buffer,
            self.mutable_state.start_offset,
        );
        match &self.frozen_buffer {
            Some(state) => {
                copy_overlap(&mut dst, start, &state.buffer, state.offset);
            },
            None => {},
        }
        let disk_boundary: u64 = self.disk_committed_offset;
        let disk_len: usize = if start < disk_boundary {
            let read_end: u64 = if end < disk_boundary {
                end
            } else {
                disk_boundary
            };
            (read_end - start) as usize
        } else {
            0
        };
        let read = PendingRead { start, dst, disk_len, nread: (end - start) as usize };
        assert(read@.dst =~= model::read_plan(self@, start as int, dst_cap as int).dst);
        read
    }

    /// Starts the read of the whole file: of as many bytes as it has, from its beginning.
    pub fn load_to_io_buf(&self) -> (read: PendingRead)
        requires
            self.wf(),
            self@.size() <= usize::MAX,
        ensures
            read@ == model::read_plan(self@, 0, self@.size()),
            read@.wf(),
            read@.dst.len() == self@.size(),
            read@.nread == self@.size(),
            call_ensures(
                EphemeralFile::read_exact_at_eof_ok,
                (self, 0u64, self@.size() as usize),
                read,
            ),
    {
        let size: usize = self.len() as usize;
        self.read_exact_at_eof_ok(0, size)
    }
}

} // verus!
