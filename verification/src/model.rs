//! The mathematical model of an ephemeral file, of a write in progress and of a read in progress.

use vstd::prelude::*;

verus! {

/// Capacity of the tail buffer, and so the size of every write to disk.
pub const TAIL_SZ: usize = 64 * 1024;

/// A run of bytes at a position of the file.
#[verifier::ext_equal]
pub struct Chunk {
    pub offset: int,
    pub bytes: Seq<u8>,
}

impl Chunk {
    /// Position just past the last byte.
    pub open spec fn end(self) -> int {
        self.offset + self.bytes.len()
    }

    /// Whether the byte at `pos` is part of the chunk.
    pub open spec fn covers(self, pos: int) -> bool {
        self.offset <= pos < self.end()
    }
}

/// What the library knows of a file: the two buffers in memory, and how much is on disk.
#[verifier::ext_equal]
pub struct FileModel {
    /// The tail buffer, to which writes append.
    pub tail: Chunk,
    /// The full buffer that is being flushed, or whose flush has failed and is to be done again.
    pub frozen: Option<Chunk>,
    /// Number of bytes that are on disk; readers take them from there.
    pub committed: int,
}

impl FileModel {
    /// A file to which nothing has been written.
    pub open spec fn empty() -> FileModel {
        FileModel {
            tail: Chunk { offset: 0, bytes: Seq::empty() },
            frozen: None,
            committed: 0,
        }
    }

    /// Logical size: everything written, be it in memory or on disk.
    pub open spec fn size(self) -> int {
        self.tail.end()
    }

    /// Position of the first byte that is held in memory.
    pub open spec fn memory_start(self) -> int {
        match self.frozen {
            Some(chunk) => chunk.offset,
            None => self.tail.offset,
        }
    }

    /// What holds of every file: the tail has room, the frozen buffer is full and lies right
    /// before the tail, and all that comes before the buffers is on disk.
    pub open spec fn wf(self) -> bool {
        &&& 0 <= self.committed == self.memory_start()
        &&& self.tail.offset % (TAIL_SZ as int) == 0
        &&& self.tail.bytes.len() < TAIL_SZ
        &&& match self.frozen {
            Some(chunk) => chunk.bytes.len() == TAIL_SZ && chunk.end() == self.tail.offset,
            None => true,
        }
        &&& self.size() <= u64::MAX
    }

    /// The byte that memory has for `pos`; zero where it has none.
    pub open spec fn memory_byte(self, pos: int) -> u8 {
        if self.frozen is Some && self.frozen->0.covers(pos) {
            self.frozen->0.bytes[pos - self.frozen->0.offset]
        } else if self.tail.covers(pos) {
            self.tail.bytes[pos - self.tail.offset]
        } else {
            0
        }
    }

    /// The byte that a reader gets for `pos` when the file on disk holds `disk`.
    pub open spec fn byte_at(self, disk: Seq<u8>, pos: int) -> u8 {
        if pos < self.committed {
            disk[pos]
        } else {
            self.memory_byte(pos)
        }
    }

    /// Everything written, in order, when the file on disk holds `disk`.
    pub open spec fn contents(self, disk: Seq<u8>) -> Seq<u8> {
        let frozen = match self.frozen {
            Some(chunk) => chunk.bytes,
            None => Seq::<u8>::empty(),
        };
        disk.take(self.committed) + frozen + self.tail.bytes
    }

    /// The file after `bytes` have been copied into the tail.
    pub open spec fn append(self, bytes: Seq<u8>) -> FileModel {
        FileModel {
            tail: Chunk { offset: self.tail.offset, bytes: self.tail.bytes + bytes },
            frozen: self.frozen,
            committed: self.committed,
        }
    }

    /// The file after its tail has been frozen and a fresh tail has been put behind it.
    pub open spec fn freeze(self) -> FileModel {
        FileModel {
            tail: Chunk { offset: self.tail.end(), bytes: Seq::empty() },
            frozen: Some(self.tail),
            committed: self.committed,
        }
    }

    /// The file after the flush of its frozen buffer has succeeded.
    pub open spec fn commit(self) -> FileModel {
        FileModel {
            tail: self.tail,
            frozen: None,
            committed: self.committed + self.frozen->0.bytes.len(),
        }
    }
}

/// A write in progress.
#[verifier::ext_equal]
pub struct WriteModel {
    /// The bytes to write.
    pub src: Seq<u8>,
    /// How many of them have been copied into the tail.
    pub copied: int,
    /// Where the first of them went.
    pub first_write_pos: Option<int>,
}

impl WriteModel {
    /// A write of `src` of which nothing has been done.
    pub open spec fn start(src: Seq<u8>) -> WriteModel {
        WriteModel { src, copied: 0, first_write_pos: None }
    }

    pub open spec fn wf(self) -> bool {
        0 <= self.copied <= self.src.len()
    }

    pub open spec fn remaining(self) -> int {
        self.src.len() - self.copied
    }

    /// Where the write began; zero as long as nothing has been copied.
    pub open spec fn pos(self) -> int {
        match self.first_write_pos {
            Some(pos) => pos,
            None => 0,
        }
    }

    /// The write after `n` more bytes have been copied, at the end of a file of the given size.
    pub open spec fn copy(self, n: int, size: int) -> WriteModel {
        WriteModel {
            src: self.src,
            copied: self.copied + n,
            first_write_pos: if self.first_write_pos is None {
                Some(size)
            } else {
                self.first_write_pos
            },
        }
    }
}

/// What the writer is told.
#[derive(Clone, Copy, PartialEq, Eq, Structural, Debug)]
pub enum WriteEvent {
    /// The write begins.
    Begin,
    /// The flush that was asked for has succeeded.
    Flushed,
    /// The flush that was asked for has failed.
    FlushFailed,
}

/// What the writer asks for.
#[verifier::ext_equal]
pub enum ActionModel {
    /// Write the chunk to disk, then report how that went.
    Flush(Chunk),
    /// All is written: return `pos` and publish `size`.
    Done { pos: int, size: int },
    /// The write ends with an error.
    Failed,
}

/// How many bytes the tail takes of a write.
pub open spec fn fits(file: FileModel, op: WriteModel) -> int {
    if op.remaining() < TAIL_SZ - file.tail.bytes.len() {
        op.remaining()
    } else {
        TAIL_SZ - file.tail.bytes.len()
    }
}

/// Copies what fits into the tail; a tail that is full is frozen and handed out for flushing.
/// Before the tail is filled, a buffer that is still frozen, since its flush has failed, is handed
/// out again: it has to be on disk before another one takes its place.
pub open spec fn advance(file: FileModel, op: WriteModel) -> (FileModel, WriteModel, ActionModel) {
    if op.remaining() == 0 {
        (file, op, ActionModel::Done { pos: op.pos(), size: file.size() })
    } else if file.frozen is Some && file.tail.bytes.len() + op.remaining() >= TAIL_SZ {
        (file, op, ActionModel::Flush(file.frozen->0))
    } else {
        let n = fits(file, op);
        let filled = file.append(op.src.subrange(op.copied, op.copied + n));
        let op2 = op.copy(n, file.size());
        if filled.tail.bytes.len() == TAIL_SZ {
            (filled.freeze(), op2, ActionModel::Flush(filled.tail))
        } else {
            (filled, op2, ActionModel::Done { pos: op2.pos(), size: filled.size() })
        }
    }
}

/// One step of a write, from the event to the next action.
pub open spec fn write_next(file: FileModel, op: WriteModel, event: WriteEvent) -> (
    FileModel,
    WriteModel,
    ActionModel,
) {
    match event {
        WriteEvent::Begin => advance(file, op),
        WriteEvent::Flushed => advance(file.commit(), op),
        WriteEvent::FlushFailed => (file, op, ActionModel::Failed),
    }
}

/// A read in progress: memory's part is in place, the part on disk is still to be read.
#[verifier::ext_equal]
pub struct ReadModel {
    /// Position of the first byte wanted.
    pub start: int,
    /// The destination, with what memory has.
    pub dst: Seq<u8>,
    /// How many bytes at the front of the destination are to come from disk.
    pub disk_len: int,
    /// The number of bytes that the read reports.
    pub nread: int,
}

impl ReadModel {
    pub open spec fn wf(self) -> bool {
        0 <= self.disk_len <= self.dst.len()
    }

    /// The destination once `disk` has been put at its front.
    pub open spec fn complete(self, disk: Seq<u8>) -> Seq<u8> {
        disk + self.dst.skip(self.disk_len)
    }
}

/// The read of `cap` bytes at `start`: memory fills a zeroed destination, committed bytes are
/// left to the disk. The count covers the whole destination, past the end of the file too; only
/// the end of the `u64` range cuts it.
pub open spec fn read_plan(file: FileModel, start: int, cap: int) -> ReadModel {
    ReadModel {
        start,
        dst: Seq::new(cap as nat, |i: int| file.memory_byte(start + i)),
        disk_len: if start >= file.committed {
            0
        } else if start + cap <= file.committed {
            cap
        } else {
            file.committed - start
        },
        nread: if start + cap <= u64::MAX {
            cap
        } else {
            u64::MAX - start
        },
    }
}

/// Adding one tail's capacity keeps a position at a multiple of it.
pub proof fn lemma_next_multiple(pos: int)
    requires
        pos % (TAIL_SZ as int) == 0,
    ensures
        (pos + TAIL_SZ) % (TAIL_SZ as int) == 0,
{
    assert(TAIL_SZ == 65536);
}

} // verus!
