//! What holds of an ephemeral file over several steps: reads give back what was written, whether
//! it is in the tail, being flushed or on disk.

use vstd::prelude::*;
use crate::model;
use crate::model::{ActionModel, Chunk, FileModel, ReadModel, WriteEvent, WriteModel, TAIL_SZ};

verus! {

/// The bytes that the disk has for a planned read.
pub open spec fn from_disk(plan: ReadModel, disk: Seq<u8>) -> Seq<u8> {
    Seq::new(plan.disk_len as nat, |i: int| disk[plan.start + i])
}

/// What a read of `cap` bytes at `start` puts into its destination, when the file on disk holds
/// `disk`.
pub open spec fn read_back(file: FileModel, disk: Seq<u8>, start: int, cap: int) -> Seq<u8> {
    let plan = model::read_plan(file, start, cap);
    plan.complete(from_disk(plan, disk))
}

/// The file on disk after a chunk has been written to it. A gap before the chunk reads as zero.
pub open spec fn overwrite(disk: Seq<u8>, chunk: Chunk) -> Seq<u8> {
    Seq::new(
        if disk.len() < chunk.end() {
            chunk.end() as nat
        } else {
            disk.len()
        },
        |i: int|
            if chunk.covers(i) {
                chunk.bytes[i - chunk.offset]
            } else if i < disk.len() {
                disk[i]
            } else {
                0
            },
    )
}

/// A write of a chunk that failed half way may have changed anything from its offset on.
pub open spec fn torn(disk: Seq<u8>, chunk: Chunk, after: Seq<u8>) -> bool {
    forall|i: int|
        #![trigger after[i]]
        0 <= i < chunk.offset && i < disk.len() ==> i < after.len() && after[i] == disk[i]
}

/// A file and its part on disk at some moment.
pub struct Moment {
    pub file: FileModel,
    pub disk: Seq<u8>,
}

/// A moment between two steps of a write.
pub struct Snapshot {
    pub file: FileModel,
    pub disk: Seq<u8>,
    pub op: WriteModel,
    pub action: ActionModel,
}

/// The write of `src` has taken its first step.
pub open spec fn begins(file: FileModel, disk: Seq<u8>, src: Seq<u8>, s: Snapshot) -> bool {
    &&& (s.file, s.op, s.action) == model::write_next(
        file,
        WriteModel::start(src),
        WriteEvent::Begin,
    )
    &&& s.disk == disk
}

/// The flush that `s` asks for has succeeded, and the write has taken its next step.
pub open spec fn flushed(s: Snapshot, t: Snapshot) -> bool {
    &&& s.action is Flush
    &&& t.disk == overwrite(s.disk, s.action->Flush_0)
    &&& (t.file, t.op, t.action) == model::write_next(s.file, s.op, WriteEvent::Flushed)
}

/// The flush that `s` asks for has failed, and the write has been told.
pub open spec fn flush_failed(s: Snapshot, t: Snapshot) -> bool {
    &&& s.action is Flush
    &&& torn(s.disk, s.action->Flush_0, t.disk)
    &&& (t.file, t.op, t.action) == model::write_next(s.file, s.op, WriteEvent::FlushFailed)
}

/// Moment `i + 1` of a write follows on moment `i` by a flush that succeeded.
pub open spec fn flushed_at(run: Seq<Snapshot>, i: int) -> bool {
    flushed(run[i], run[i + 1])
}

/// The steps of a write of `src`, each flush of which succeeds.
pub open spec fn is_write(
    file: FileModel,
    disk: Seq<u8>,
    src: Seq<u8>,
    run: Seq<Snapshot>,
) -> bool {
    &&& run.len() > 0
    &&& begins(file, disk, src, run[0])
    &&& forall|i: int| 0 <= i < run.len() - 1 ==> #[trigger] flushed_at(run, i)
}

/// Whether `n` more bytes can be written to the file: its size stays a `u64`. Its part on disk is
/// there.
pub open spec fn can_take(file: FileModel, disk: Seq<u8>, n: int) -> bool {
    &&& file.wf()
    &&& file.committed <= disk.len()
    &&& file.size() + n <= u64::MAX
}

/// How many times the tail has been filled by `size` bytes.
pub open spec fn full_tails(size: int) -> int {
    size / (TAIL_SZ as int)
}

/// A read gives, for each position, the byte on disk below the committed boundary, the buffered
/// byte above it, and zero where the file has none. This holds of every file.
pub proof fn law_read_gives_each_byte(file: FileModel, disk: Seq<u8>, start: int, cap: int)
    requires
        file.wf(),
        0 <= start,
        0 <= cap,
    ensures
        read_back(file, disk, start, cap) == Seq::new(
            cap as nat,
            |i: int| file.byte_at(disk, start + i),
        ),
{
    assert(read_back(file, disk, start, cap) =~= Seq::new(
        cap as nat,
        |i: int| file.byte_at(disk, start + i),
    ));
}

/// A read gives a window of the file's contents, and zeros past their end.
pub proof fn law_read_gives_contents(file: FileModel, disk: Seq<u8>, start: int, cap: int)
    requires
        file.wf(),
        file.committed <= disk.len(),
        0 <= start,
        0 <= cap,
    ensures
        file.contents(disk).len() == file.size(),
        read_back(file, disk, start, cap) == Seq::new(
            cap as nat,
            |i: int|
                if start + i < file.size() {
                    file.contents(disk)[start + i]
                } else {
                    0
                },
        ),
{
    law_read_gives_each_byte(file, disk, start, cap);
    assert(read_back(file, disk, start, cap) =~= Seq::new(
        cap as nat,
        |i: int|
            if start + i < file.size() {
                file.contents(disk)[start + i]
            } else {
                0
            },
    ));
}

/// Loading the whole file gives its contents, and the count is its size.
pub proof fn law_load_gives_contents(file: FileModel, disk: Seq<u8>)
    requires
        file.wf(),
        file.committed <= disk.len(),
    ensures
        read_back(file, disk, 0, file.size()) == file.contents(disk),
        model::read_plan(file, 0, file.size()).nread == file.size(),
{
    law_read_gives_contents(file, disk, 0, file.size());
    assert(read_back(file, disk, 0, file.size()) =~= file.contents(disk));
}

/// A read reports the whole of its destination, wherever the bytes come from and whether the file
/// has them or not. Only what lies past the largest position is not counted.
pub proof fn law_read_counts_destination(file: FileModel, start: int, cap: int)
    requires
        file.wf(),
        0 <= start <= u64::MAX,
        0 <= cap,
    ensures
        model::read_plan(file, start, cap).dst.len() == cap,
        start + cap <= u64::MAX ==> model::read_plan(file, start, cap).nread == cap,
        start + cap > u64::MAX ==> start + model::read_plan(file, start, cap).nread == u64::MAX,
{
}

/// A read asks the disk for the bytes that are there, and for no others: for those of its range
/// that lie below the committed boundary, from its first position on.
pub proof fn law_read_asks_disk_for_committed_bytes(file: FileModel, start: int, cap: int, i: int)
    requires
        file.wf(),
        0 <= start,
        0 <= i < cap,
    ensures
        model::read_plan(file, start, cap).start == start,
        0 <= model::read_plan(file, start, cap).disk_len <= cap,
        i < model::read_plan(file, start, cap).disk_len <==> start + i < file.committed,
{
}

/// The disk's bytes come first and in order, and behind them stands what memory had when the read
/// began.
pub proof fn law_disk_bytes_come_first(read: ReadModel, disk: Seq<u8>, i: int)
    requires
        read.wf(),
        disk.len() == read.disk_len,
        0 <= i < read.dst.len(),
    ensures
        read.complete(disk).len() == read.dst.len(),
        i < disk.len() ==> read.complete(disk)[i] == disk[i],
        i >= disk.len() ==> read.complete(disk)[i] == read.dst[i],
{
}

/// A read can be done in two parts: what they give, one behind the other, is what it gives, and
/// what they count adds up.
pub proof fn law_reads_can_be_split(
    file: FileModel,
    disk: Seq<u8>,
    start: int,
    first: int,
    second: int,
)
    requires
        file.wf(),
        0 <= start,
        0 <= first,
        0 <= second,
        start + first + second <= u64::MAX,
    ensures
        read_back(file, disk, start, first + second) == read_back(file, disk, start, first)
            + read_back(file, disk, start + first, second),
        model::read_plan(file, start, first + second).nread == model::read_plan(
            file,
            start,
            first,
        ).nread + model::read_plan(file, start + first, second).nread,
{
    law_read_gives_each_byte(file, disk, start, first + second);
    law_read_gives_each_byte(file, disk, start, first);
    law_read_gives_each_byte(file, disk, start + first, second);
    assert(read_back(file, disk, start, first + second) =~= read_back(file, disk, start, first)
        + read_back(file, disk, start + first, second));
}

/// What a write keeps at each of its steps, on top of contents `before`.
spec fn write_state(before: Seq<u8>, src: Seq<u8>, s: Snapshot) -> bool {
    &&& s.file.wf()
    &&& s.file.committed <= s.disk.len()
    &&& s.op.wf()
    &&& s.op.src == src
    &&& before.len() + src.len() <= u64::MAX
    &&& s.file.contents(s.disk) == before + src.take(s.op.copied)
    &&& s.op.first_write_pos == if s.op.copied == 0 {
        None
    } else {
        Some(before.len() as int)
    }
}

/// The same, and what its action says, as long as no flush has failed.
spec fn write_inv(before: Seq<u8>, src: Seq<u8>, s: Snapshot) -> bool {
    &&& write_state(before, src, s)
    &&& match s.action {
        ActionModel::Flush(chunk) => s.file.frozen == Some(chunk),
        ActionModel::Done { pos, size } => s.op.copied == src.len() && pos == s.op.pos() && size
            == s.file.size(),
        ActionModel::Failed => false,
    }
}

/// Copying into the tail, and freezing it, appends to the contents. Handing out the frozen buffer
/// again leaves them as they are.
proof fn lemma_advance(file: FileModel, disk: Seq<u8>, op: WriteModel)
    requires
        can_take(file, disk, op.remaining()),
        op.wf(),
    ensures
        ({
            let (file2, op2, action) = model::advance(file, op);
            &&& file2.wf()
            &&& file2.committed == file.committed
            &&& op2.wf()
            &&& op2.src == op.src
            &&& op.copied <= op2.copied
            &&& file2.contents(disk) == file.contents(disk) + op.src.subrange(
                op.copied,
                op2.copied,
            )
            &&& op2.first_write_pos == if op.first_write_pos is None && op.copied < op2.copied {
                Some(file.size())
            } else {
                op.first_write_pos
            }
            &&& match action {
                ActionModel::Flush(chunk) => file2.frozen == Some(chunk),
                ActionModel::Done { pos, size } => op2.copied == op.src.len() && pos == op2.pos()
                    && size == file2.size(),
                ActionModel::Failed => false,
            }
        }),
{
    let (file2, op2, action) = model::advance(file, op);
    if op.copied == op2.copied {
        assert(file.contents(disk) + op.src.subrange(op.copied, op2.copied) =~= file.contents(
            disk,
        ));
    } else {
        let n = model::fits(file, op);
        let part = op.src.subrange(op.copied, op.copied + n);
        let filled = file.append(part);
        assert(filled.contents(disk) =~= file.contents(disk) + part);
        if filled.tail.bytes.len() == TAIL_SZ {
            model::lemma_next_multiple(filled.tail.offset);
            assert(filled.freeze().contents(disk) =~= filled.contents(disk));
        }
    }
}

/// A step of a write, from a file that holds `before` and what has been taken, keeps `write_inv`.
proof fn lemma_write_step(before: Seq<u8>, file: FileModel, op: WriteModel, s: Snapshot)
    requires
        can_take(file, s.disk, op.remaining()),
        op.wf(),
        before.len() + op.src.len() <= u64::MAX,
        file.contents(s.disk) == before + op.src.take(op.copied),
        op.first_write_pos == if op.copied == 0 {
            None
        } else {
            Some(before.len() as int)
        },
        (s.file, s.op, s.action) == model::advance(file, op),
    ensures
        write_inv(before, op.src, s),
{
    law_read_gives_contents(file, s.disk, 0, 0);
    lemma_advance(file, s.disk, op);
    let part = op.src.subrange(op.copied, s.op.copied);
    assert(before + op.src.take(op.copied) + part =~= before + op.src.take(s.op.copied));
}

/// Writing the frozen buffer to disk and letting go of it keeps the contents.
proof fn lemma_commit(file: FileModel, disk: Seq<u8>)
    requires
        file.wf(),
        file.committed <= disk.len(),
        file.frozen is Some,
    ensures
        file.commit().wf(),
        file.commit().committed <= overwrite(disk, file.frozen->0).len(),
        file.commit().contents(overwrite(disk, file.frozen->0)) == file.contents(disk),
{
    assert(file.commit().contents(overwrite(disk, file.frozen->0)) =~= file.contents(disk));
}

proof fn lemma_write_inv(file: FileModel, disk: Seq<u8>, src: Seq<u8>, run: Seq<Snapshot>, i: int)
    requires
        can_take(file, disk, src.len() as int),
        is_write(file, disk, src, run),
        0 <= i < run.len(),
    ensures
        write_inv(file.contents(disk), src, run[i]),
    decreases i,
{
    let before = file.contents(disk);
    law_read_gives_contents(file, disk, 0, 0);
    if i == 0 {
        assert(before + src.take(0) =~= before);
        lemma_write_step(before, file, WriteModel::start(src), run[0]);
    } else {
        lemma_write_inv(file, disk, src, run, i - 1);
        let s = run[i - 1];
        assert(flushed_at(run, i - 1));
        law_read_gives_contents(s.file, s.disk, 0, 0);
        lemma_commit(s.file, s.disk);
        lemma_write_step(before, s.file.commit(), s.op, run[i]);
    }
}

/// At every step of a write, flushes included, the file holds what it held before followed by
/// the part of `src` that has been taken. A write that is done has taken all of it; it returns
/// the size that the file had before, or zero if it had nothing to write, and publishes the size
/// that the file has now.
pub proof fn law_write_appends(
    file: FileModel,
    disk: Seq<u8>,
    src: Seq<u8>,
    run: Seq<Snapshot>,
    i: int,
)
    requires
        can_take(file, disk, src.len() as int),
        is_write(file, disk, src, run),
        0 <= i < run.len(),
    ensures
        run[i].file.wf(),
        run[i].file.committed <= run[i].disk.len(),
        0 <= run[i].op.copied <= src.len(),
        run[i].file.contents(run[i].disk) == file.contents(disk) + src.take(run[i].op.copied),
        run[i].file.size() == file.size() + run[i].op.copied,
        !(run[i].action is Failed),
        run[i].action matches ActionModel::Done { pos, size } ==> {
            &&& run[i].op.copied == src.len()
            &&& run[i].file.contents(run[i].disk) == file.contents(disk) + src
            &&& pos == if src.len() == 0 {
                0
            } else {
                file.size()
            }
            &&& size == file.size() + src.len()
        },
{
    lemma_write_inv(file, disk, src, run, i);
    law_read_gives_contents(file, disk, 0, 0);
    law_read_gives_contents(run[i].file, run[i].disk, 0, 0);
    assert(src.take(src.len() as int) =~= src);
}

/// Readers see a write as it goes: at each of its steps a read gives a window of what the file
/// held before followed by what has been taken, and zeros past its end.
pub proof fn law_read_during_write(
    file: FileModel,
    disk: Seq<u8>,
    src: Seq<u8>,
    run: Seq<Snapshot>,
    i: int,
    start: int,
    cap: int,
)
    requires
        can_take(file, disk, src.len() as int),
        is_write(file, disk, src, run),
        0 <= i < run.len(),
        0 <= start,
        0 <= cap,
    ensures
        read_back(run[i].file, run[i].disk, start, cap) == Seq::new(
            cap as nat,
            |k: int|
                if start + k < file.size() + run[i].op.copied {
                    (file.contents(disk) + src.take(run[i].op.copied))[start + k]
                } else {
                    0
                },
        ),
{
    law_write_appends(file, disk, src, run, i);
    law_read_gives_contents(run[i].file, run[i].disk, start, cap);
    assert(read_back(run[i].file, run[i].disk, start, cap) =~= Seq::new(
        cap as nat,
        |k: int|
            if start + k < file.size() + run[i].op.copied {
                (file.contents(disk) + src.take(run[i].op.copied))[start + k]
            } else {
                0
            },
    ));
}

/// A read at the position that a completed write returned gives back what was written.
pub proof fn law_read_after_write(
    file: FileModel,
    disk: Seq<u8>,
    src: Seq<u8>,
    run: Seq<Snapshot>,
)
    requires
        can_take(file, disk, src.len() as int),
        is_write(file, disk, src, run),
        run.last().action is Done,
    ensures
        read_back(
            run.last().file,
            run.last().disk,
            run.last().action->pos,
            src.len() as int,
        ) == src,
{
    law_write_appends(file, disk, src, run, run.len() - 1);
    let end = run.last();
    law_read_gives_contents(file, disk, 0, 0);
    law_read_gives_contents(end.file, end.disk, end.action->pos, src.len() as int);
    assert(read_back(end.file, end.disk, end.action->pos, src.len() as int) =~= src);
}

/// Writing changes nothing of what was there: during and after a write, a read within the old
/// size gives what it gave before.
pub proof fn law_write_keeps_earlier_bytes(
    file: FileModel,
    disk: Seq<u8>,
    src: Seq<u8>,
    run: Seq<Snapshot>,
    i: int,
    start: int,
    cap: int,
)
    requires
        can_take(file, disk, src.len() as int),
        is_write(file, disk, src, run),
        0 <= i < run.len(),
        0 <= start,
        0 <= cap,
        start + cap <= file.size(),
    ensures
        read_back(run[i].file, run[i].disk, start, cap) == read_back(file, disk, start, cap),
{
    law_write_appends(file, disk, src, run, i);
    law_read_gives_contents(file, disk, start, cap);
    law_read_gives_contents(run[i].file, run[i].disk, start, cap);
    assert(read_back(run[i].file, run[i].disk, start, cap) =~= read_back(file, disk, start, cap));
}

/// Below a position at a multiple of the capacity, and for less than a tail above it, the number
/// of full tails is that multiple; it never drops as the size grows.
proof fn lemma_full_tails(pos: int, n: int, more: int)
    requires
        pos % (TAIL_SZ as int) == 0,
        0 <= n < TAIL_SZ,
        0 <= more,
    ensures
        full_tails(pos + n) * TAIL_SZ == pos,
        full_tails(pos + n) <= full_tails(pos + n + more),
{
    assert(TAIL_SZ == 65536);
}

/// Whether a write of `n` bytes leaves no buffer frozen: there is none, or the tail gets full, so
/// that a flush that has failed is done again.
pub open spec fn settles(file: FileModel, n: int) -> bool {
    file.frozen is None || file.tail.bytes.len() + n >= TAIL_SZ
}

/// Every flush of a write takes one full tail, of 64 KiB, and goes right behind what is on disk. A
/// buffer is frozen just while its flush is pending, and meanwhile the write puts nothing behind
/// it; one that is left over from a flush that has failed is flushed before the write begins. The
/// write is done after as many flushes as there are full tails that are not on disk, and then all
/// full tails, and nothing else, are there. A write that need not flush leaves alone a buffer whose
/// flush has failed before.
pub proof fn law_flushes_full_tails_in_order(
    file: FileModel,
    disk: Seq<u8>,
    src: Seq<u8>,
    run: Seq<Snapshot>,
    i: int,
)
    requires
        can_take(file, disk, src.len() as int),
        is_write(file, disk, src, run),
        0 <= i < run.len(),
    ensures
        run[i].file.committed == file.committed + i * TAIL_SZ,
        run[i].action matches ActionModel::Flush(chunk) ==> {
            &&& run[i].file.frozen == Some(chunk)
            &&& chunk.offset == run[i].file.committed
            &&& chunk.bytes.len() == 65536
            &&& run[i].file.tail.bytes.len() == 0 || i == 0 && run[0].file == file
                && run[0].op.copied == 0
        },
        settles(file, src.len() as int) ==> {
            let flushes = full_tails(file.size() + src.len()) - full_tails(file.committed);
            &&& run[i].file.frozen is Some <==> run[i].action is Flush
            &&& i <= flushes
            &&& run[i].action is Done <==> i == flushes
            &&& run[i].action is Done ==> run[i].file.committed == full_tails(run[i].file.size())
                * TAIL_SZ
        },
        !settles(file, src.len() as int) ==> {
            &&& i == 0
            &&& run[i].action is Done
            &&& run[i].file.frozen == file.frozen
        },
        disk.len() == file.committed ==> run[i].disk.len() == run[i].file.committed,
    decreases i,
{
    let s = run[i];
    lemma_write_inv(file, disk, src, run, i);
    law_write_appends(file, disk, src, run, i);
    if i > 0 {
        law_flushes_full_tails_in_order(file, disk, src, run, i - 1);
        lemma_write_inv(file, disk, src, run, i - 1);
        assert(flushed_at(run, i - 1));
    }
    assert(s.file.committed == file.committed + i * TAIL_SZ);
    assert(file.committed % (TAIL_SZ as int) == 0) by {
        assert(TAIL_SZ == 65536);
    }
    lemma_full_tails(file.committed, 0, file.size() + src.len() - file.committed);
    lemma_full_tails(
        s.file.tail.offset,
        s.file.tail.bytes.len() as int,
        src.len() - s.op.copied,
    );
}

/// A file that has taken a write can take the next one.
pub proof fn law_write_leaves_room(
    file: FileModel,
    disk: Seq<u8>,
    src: Seq<u8>,
    run: Seq<Snapshot>,
    n: int,
)
    requires
        0 <= n,
        can_take(file, disk, src.len() + n),
        is_write(file, disk, src, run),
        run.last().action is Done,
    ensures
        can_take(run.last().file, run.last().disk, n),
{
    law_write_appends(file, disk, src, run, run.len() - 1);
}

/// A new file can take any write whose end is still a `u64`, and holds nothing before.
pub proof fn law_new_file_can_take(n: int)
    requires
        0 <= n <= u64::MAX,
    ensures
        can_take(FileModel::empty(), Seq::empty(), n),
        FileModel::empty().contents(Seq::empty()) == Seq::<u8>::empty(),
        FileModel::empty().size() == 0,
{
    assert(FileModel::empty().contents(Seq::empty()) =~= Seq::<u8>::empty());
}

/// A list of byte strings, one behind the other.
pub open spec fn concat(srcs: Seq<Seq<u8>>) -> Seq<u8>
    decreases srcs.len(),
{
    if srcs.len() == 0 {
        Seq::empty()
    } else {
        concat(srcs.drop_last()) + srcs.last()
    }
}

/// The file and its part on disk when the first `k` of some writes are done.
pub open spec fn after(
    file: FileModel,
    disk: Seq<u8>,
    runs: Seq<Seq<Snapshot>>,
    k: int,
) -> Moment {
    if k <= 0 {
        Moment { file, disk }
    } else {
        Moment { file: runs[k - 1].last().file, disk: runs[k - 1].last().disk }
    }
}

/// Write `k` sets out from where the writes before it have left the file, and completes.
pub open spec fn write_at(
    file: FileModel,
    disk: Seq<u8>,
    srcs: Seq<Seq<u8>>,
    runs: Seq<Seq<Snapshot>>,
    k: int,
) -> bool {
    let from = after(file, disk, runs, k);
    is_write(from.file, from.disk, srcs[k], runs[k]) && runs[k].last().action is Done
}

/// Writes of `srcs`, one after the other, by whichever writers.
pub open spec fn are_writes(
    file: FileModel,
    disk: Seq<u8>,
    srcs: Seq<Seq<u8>>,
    runs: Seq<Seq<Snapshot>>,
) -> bool {
    &&& runs.len() == srcs.len()
    &&& forall|k: int| 0 <= k < srcs.len() ==> #[trigger] write_at(file, disk, srcs, runs, k)
}

proof fn lemma_concat_grows(srcs: Seq<Seq<u8>>, k: int)
    requires
        0 <= k <= srcs.len(),
    ensures
        concat(srcs.take(k)).len() <= concat(srcs).len(),
    decreases srcs.len() - k,
{
    if k == srcs.len() {
        assert(srcs.take(k) =~= srcs);
    } else {
        lemma_concat_grows(srcs, k + 1);
        assert(srcs.take(k + 1).drop_last() =~= srcs.take(k));
    }
}

/// Writes that come one after the other lie behind each other in the file: after each of them
/// the file holds all that has been written, in order, and nothing is lost.
pub proof fn law_writes_concatenate(
    file: FileModel,
    disk: Seq<u8>,
    srcs: Seq<Seq<u8>>,
    runs: Seq<Seq<Snapshot>>,
    k: int,
)
    requires
        can_take(file, disk, concat(srcs).len() as int),
        are_writes(file, disk, srcs, runs),
        0 <= k <= srcs.len(),
    ensures
        after(file, disk, runs, k).file.contents(after(file, disk, runs, k).disk)
            == file.contents(disk) + concat(srcs.take(k)),
        after(file, disk, runs, k).file.size() == file.size() + concat(srcs.take(k)).len(),
        can_take(
            after(file, disk, runs, k).file,
            after(file, disk, runs, k).disk,
            concat(srcs).len() - concat(srcs.take(k)).len(),
        ),
    decreases k,
{
    if k == 0 {
        assert(srcs.take(0) =~= Seq::<Seq<u8>>::empty());
        assert(file.contents(disk) + concat(srcs.take(0)) =~= file.contents(disk));
    } else {
        law_writes_concatenate(file, disk, srcs, runs, k - 1);
        assert(write_at(file, disk, srcs, runs, k - 1));
        lemma_concat_grows(srcs, k);
        assert(srcs.take(k).drop_last() =~= srcs.take(k - 1));
        let from = after(file, disk, runs, k - 1);
        let src = srcs[k - 1];
        let run = runs[k - 1];
        let left = concat(srcs).len() - concat(srcs.take(k)).len();
        assert(can_take(from.file, from.disk, src.len() as int));
        law_write_appends(from.file, from.disk, src, run, run.len() - 1);
        law_write_leaves_room(from.file, from.disk, src, run, left);
        assert(file.contents(disk) + concat(srcs.take(k - 1)) + src =~= file.contents(disk)
            + concat(srcs.take(k)));
    }
}

/// When a flush fails, the write fails, and the file still holds all that it had taken: readers
/// go on to find the bytes in the frozen buffer, whatever the flush has left on disk.
pub proof fn law_failed_flush_keeps_contents(
    file: FileModel,
    disk: Seq<u8>,
    src: Seq<u8>,
    run: Seq<Snapshot>,
    end: Snapshot,
)
    requires
        can_take(file, disk, src.len() as int),
        is_write(file, disk, src, run),
        flush_failed(run.last(), end),
    ensures
        end.action is Failed,
        end.file.wf(),
        end.file.committed <= end.disk.len(),
        end.file.contents(end.disk) == file.contents(disk) + src.take(run.last().op.copied),
{
    let s = run.last();
    lemma_write_inv(file, disk, src, run, run.len() - 1);
    if s.file.committed > 0 {
        assert(end.disk[s.file.committed - 1] == s.disk[s.file.committed - 1]);
    }
    assert(end.disk.take(s.file.committed) =~= s.disk.take(s.file.committed));
}

/// A writer takes `s` to `t` by one step. A flush changes the disk as a whole before it is
/// reported as done; one that is under way, or has failed, may have changed it in part.
pub open spec fn moves(s: Moment, t: Moment, op: WriteModel, event: WriteEvent) -> bool {
    &&& op.wf()
    &&& s.file.size() + op.remaining() <= u64::MAX
    &&& t.file == model::write_next(s.file, op, event).0
    &&& match event {
        WriteEvent::Begin => t.disk == s.disk,
        WriteEvent::Flushed => s.file.frozen is Some && t.disk == overwrite(
            s.disk,
            s.file.frozen->0,
        ),
        WriteEvent::FlushFailed => s.file.frozen is Some && torn(
            s.disk,
            s.file.frozen->0,
            t.disk,
        ),
    }
}

/// Some step of some write takes `s` to `t`.
pub open spec fn some_move(s: Moment, t: Moment) -> bool {
    exists|op: WriteModel, event: WriteEvent| moves(s, t, op, event)
}

pub open spec fn moves_at(history: Seq<Moment>, i: int) -> bool {
    some_move(history[i], history[i + 1])
}

/// Any number of writes, with any outcome of their flushes.
pub open spec fn is_history(history: Seq<Moment>) -> bool {
    &&& history.len() > 0
    &&& history[0].file.wf()
    &&& history[0].file.committed <= history[0].disk.len()
    &&& forall|i: int| 0 <= i < history.len() - 1 ==> #[trigger] moves_at(history, i)
}

/// One step keeps the file well formed, never touches what is committed, and only appends.
proof fn lemma_moves(s: Moment, t: Moment)
    requires
        s.file.wf(),
        s.file.committed <= s.disk.len(),
        some_move(s, t),
    ensures
        t.file.wf(),
        s.file.committed <= t.file.committed <= t.disk.len(),
        t.disk.take(s.file.committed) == s.disk.take(s.file.committed),
        s.file.contents(s.disk).is_prefix_of(t.file.contents(t.disk)),
{
    let (op, event) = choose|op: WriteModel, event: WriteEvent| moves(s, t, op, event);
    if event is FlushFailed && s.file.committed > 0 {
        assert(t.disk[s.file.committed - 1] == s.disk[s.file.committed - 1]);
    }
    assert(t.disk.take(s.file.committed) =~= s.disk.take(s.file.committed));
    match event {
        WriteEvent::Begin => {
            lemma_advance(s.file, s.disk, op);
        },
        WriteEvent::Flushed => {
            lemma_commit(s.file, s.disk);
            lemma_advance(s.file.commit(), t.disk, op);
        },
        WriteEvent::FlushFailed => {},
    }
    assert(s.file.contents(s.disk) =~= t.file.contents(t.disk).take(
        s.file.contents(s.disk).len() as int,
    ));
}

/// However writes go on, and whatever becomes of their flushes, a file stays well formed, nothing
/// is lost of what it holds, and what is on disk stays there unchanged.
pub proof fn law_bytes_stay(history: Seq<Moment>, i: int, j: int)
    requires
        is_history(history),
        0 <= i <= j < history.len(),
    ensures
        history[j].file.wf(),
        history[i].file.committed <= history[j].file.committed <= history[j].disk.len(),
        history[j].disk.take(history[i].file.committed) == history[i].disk.take(
            history[i].file.committed,
        ),
        history[i].file.contents(history[i].disk).is_prefix_of(
            history[j].file.contents(history[j].disk),
        ),
    decreases j,
{
    if i < j {
        law_bytes_stay(history, i, i);
        law_bytes_stay(history, i, j - 1);
        assert(moves_at(history, j - 1));
        lemma_moves(history[j - 1], history[j]);
        let n = history[i].file.committed;
        let m = history[j - 1].file.committed;
        assert(history[j].disk.take(n) =~= history[j].disk.take(m).take(n));
        assert(history[j - 1].disk.take(n) =~= history[j - 1].disk.take(m).take(n));
        let c = history[i].file.contents(history[i].disk);
        let c1 = history[j - 1].file.contents(history[j - 1].disk);
        let c2 = history[j].file.contents(history[j].disk);
        assert(c2.take(c.len() as int) =~= c2.take(c1.len() as int).take(c.len() as int));
        assert(c1.take(c.len() as int) =~= c);
    } else if j > 0 {
        law_bytes_stay(history, j - 1, j - 1);
        assert(moves_at(history, j - 1));
        lemma_moves(history[j - 1], history[j]);
        let c = history[j].file.contents(history[j].disk);
        assert(c =~= c.take(c.len() as int));
    } else {
        let c = history[0].file.contents(history[0].disk);
        assert(c =~= c.take(c.len() as int));
    }
}

/// A file is append-only: what a read within its size gives at one moment, it gives at every later
/// one. Writes that fail, and writes that succeed after others have failed, make no exception.
pub proof fn law_reads_do_not_change(history: Seq<Moment>, i: int, j: int, start: int, cap: int)
    requires
        is_history(history),
        0 <= i <= j < history.len(),
        0 <= start,
        0 <= cap,
        start + cap <= history[i].file.size(),
    ensures
        history[i].file.size() <= history[j].file.size(),
        read_back(history[j].file, history[j].disk, start, cap) == read_back(
            history[i].file,
            history[i].disk,
            start,
            cap,
        ),
{
    law_bytes_stay(history, i, i);
    law_bytes_stay(history, i, j);
    law_read_gives_contents(history[i].file, history[i].disk, start, cap);
    law_read_gives_contents(history[j].file, history[j].disk, start, cap);
    let c = history[i].file.contents(history[i].disk);
    let c2 = history[j].file.contents(history[j].disk);
    assert forall|k: int| 0 <= k < c.len() implies c2[k] == #[trigger] c[k] by {
        assert(c2.take(c.len() as int)[k] == c2[k]);
    }
    assert(read_back(history[j].file, history[j].disk, start, cap) =~= read_back(
        history[i].file,
        history[i].disk,
        start,
        cap,
    ));
}

/// A reader need not hold up writers: a read that is planned at one moment, and goes to disk at
/// any later one, gives what the file had when it was planned.
pub proof fn law_disk_read_can_wait(history: Seq<Moment>, i: int, j: int, start: int, cap: int)
    requires
        is_history(history),
        0 <= i <= j < history.len(),
        0 <= start,
        0 <= cap,
    ensures
        model::read_plan(history[i].file, start, cap).complete(
            from_disk(model::read_plan(history[i].file, start, cap), history[j].disk),
        ) == read_back(history[i].file, history[i].disk, start, cap),
{
    law_bytes_stay(history, i, j);
    law_bytes_stay(history, i, i);
    let plan = model::read_plan(history[i].file, start, cap);
    let n = history[i].file.committed;
    assert forall|k: int| 0 <= k < plan.disk_len implies #[trigger] from_disk(
        plan,
        history[j].disk,
    )[k] == from_disk(plan, history[i].disk)[k] by {
        assert(history[j].disk.take(n)[start + k] == history[i].disk.take(n)[start + k]);
    }
    assert(from_disk(plan, history[j].disk) =~= from_disk(plan, history[i].disk));
}

/// A step that one of several writers takes.
pub struct Turn {
    pub writer: int,
    pub event: WriteEvent,
    pub after: Snapshot,
}

/// The file and its part on disk before turn `t`.
pub open spec fn before_turn(
    file: FileModel,
    disk: Seq<u8>,
    turns: Seq<Turn>,
    t: int,
) -> Moment {
    if t <= 0 {
        Moment { file, disk }
    } else {
        Moment { file: turns[t - 1].after.file, disk: turns[t - 1].after.disk }
    }
}

/// Turn `t` begins a write of whichever writer, or goes on with the one whose flush is pending.
/// Writers share a lock that each holds from its `Begin` until its write is done or has failed:
/// while a flush is pending, only its writer takes a turn.
pub open spec fn turn_at(file: FileModel, disk: Seq<u8>, turns: Seq<Turn>, t: int) -> bool {
    let from = before_turn(file, disk, turns, t);
    let turn = turns[t];
    if t > 0 && turns[t - 1].after.action is Flush {
        &&& turn.writer == turns[t - 1].writer
        &&& match turn.event {
            WriteEvent::Begin => false,
            WriteEvent::Flushed => flushed(turns[t - 1].after, turn.after),
            WriteEvent::FlushFailed => flush_failed(turns[t - 1].after, turn.after),
        }
    } else {
        &&& turn.event is Begin
        &&& begins(from.file, from.disk, turn.after.op.src, turn.after)
        &&& from.file.size() + turn.after.op.src.len() <= u64::MAX
    }
}

/// The steps of any number of writers that run concurrently, in the order in which they come.
pub open spec fn is_schedule(file: FileModel, disk: Seq<u8>, turns: Seq<Turn>) -> bool {
    &&& file.wf()
    &&& file.committed <= disk.len()
    &&& forall|t: int| 0 <= t < turns.len() ==> #[trigger] turn_at(file, disk, turns, t)
}

/// The turn with which the write that takes turn `t` has begun.
pub open spec fn begun(turns: Seq<Turn>, t: int) -> int
    decreases t,
{
    if t <= 0 || turns[t].event is Begin {
        t
    } else {
        begun(turns, t - 1)
    }
}

/// The contents of the file before turn `t`.
spec fn contents_before(file: FileModel, disk: Seq<u8>, turns: Seq<Turn>, t: int) -> Seq<u8> {
    before_turn(file, disk, turns, t).file.contents(before_turn(file, disk, turns, t).disk)
}

proof fn lemma_turn(file: FileModel, disk: Seq<u8>, turns: Seq<Turn>, t: int)
    requires
        is_schedule(file, disk, turns),
        0 <= t < turns.len(),
    ensures
        0 <= begun(turns, t) <= t,
        turns[begun(turns, t)].event is Begin,
        before_turn(file, disk, turns, begun(turns, t)).file.wf(),
        contents_before(file, disk, turns, begun(turns, t)).len() == before_turn(
            file,
            disk,
            turns,
            begun(turns, t),
        ).file.size(),
        write_state(
            contents_before(file, disk, turns, begun(turns, t)),
            turns[t].after.op.src,
            turns[t].after,
        ),
        turns[t].event is FlushFailed <==> turns[t].after.action is Failed,
        !(turns[t].event is FlushFailed) ==> write_inv(
            contents_before(file, disk, turns, begun(turns, t)),
            turns[t].after.op.src,
            turns[t].after,
        ),
    decreases t,
{
    assert(turn_at(file, disk, turns, t));
    let end = turns[t].after;
    let from = before_turn(file, disk, turns, t);
    let before = contents_before(file, disk, turns, begun(turns, t));
    if t > 0 {
        lemma_turn(file, disk, turns, t - 1);
        law_read_gives_contents(from.file, from.disk, 0, 0);
    }
    if turns[t].event is Begin {
        law_read_gives_contents(from.file, from.disk, 0, 0);
        assert(before + end.op.src.take(0) =~= before);
        lemma_write_step(before, from.file, WriteModel::start(end.op.src), end);
    } else {
        let s = turns[t - 1].after;
        if turns[t].event is Flushed {
            lemma_commit(s.file, s.disk);
            lemma_write_step(before, s.file.commit(), s.op, end);
        } else {
            if s.file.committed > 0 {
                assert(end.disk[s.file.committed - 1] == s.disk[s.file.committed - 1]);
            }
            assert(end.disk.take(s.file.committed) =~= s.disk.take(s.file.committed));
        }
    }
}

/// The moments between the turns.
pub open spec fn moments(file: FileModel, disk: Seq<u8>, turns: Seq<Turn>) -> Seq<Moment> {
    Seq::new((turns.len() + 1) as nat, |t: int| before_turn(file, disk, turns, t))
}

/// Whatever concurrent writers do, the moments between their turns are a history, so that what
/// holds of histories holds of them.
pub proof fn law_schedule_is_history(file: FileModel, disk: Seq<u8>, turns: Seq<Turn>)
    requires
        is_schedule(file, disk, turns),
    ensures
        is_history(moments(file, disk, turns)),
{
    let history = moments(file, disk, turns);
    assert forall|t: int| 0 <= t < history.len() - 1 implies #[trigger] moves_at(history, t) by {
        assert(turn_at(file, disk, turns, t));
        let from = before_turn(file, disk, turns, t);
        if t > 0 {
            lemma_turn(file, disk, turns, t - 1);
            law_read_gives_contents(from.file, from.disk, 0, 0);
        }
        let op = if turns[t].event is Begin {
            WriteModel::start(turns[t].after.op.src)
        } else {
            turns[t - 1].after.op
        };
        assert(moves(history[t], history[t + 1], op, turns[t].event));
    }
}

/// After a write has ended, a later turn belongs to a write that has begun since.
proof fn lemma_begun_after(file: FileModel, disk: Seq<u8>, turns: Seq<Turn>, t: int, u: int)
    requires
        is_schedule(file, disk, turns),
        0 <= t < u < turns.len(),
        !(turns[t].after.action is Flush),
    ensures
        t < begun(turns, u),
    decreases u,
{
    assert(turn_at(file, disk, turns, u));
    if !(turns[u].event is Begin) && u - 1 > t {
        lemma_begun_after(file, disk, turns, t, u - 1);
    }
}

/// Concurrent writers do not get into each other's way: the bytes of a write that has returned
/// lie unbroken from the position that it returned on, from then on and for good. That position
/// is the size that the file had when the write began.
pub proof fn law_concurrent_write_stays_whole(
    file: FileModel,
    disk: Seq<u8>,
    turns: Seq<Turn>,
    t: int,
    u: int,
)
    requires
        is_schedule(file, disk, turns),
        0 <= t <= u < turns.len(),
        turns[t].after.action is Done,
        turns[t].after.op.src.len() > 0,
    ensures
        ({
            let pos = turns[t].after.action->pos;
            let src = turns[t].after.op.src;
            let later = turns[u].after;
            &&& pos == before_turn(file, disk, turns, begun(turns, t)).file.size()
            &&& turns[t].after.file.size() == pos + src.len()
            &&& later.file.contents(later.disk).len() == later.file.size() >= pos + src.len()
            &&& later.file.contents(later.disk).subrange(pos, pos + src.len()) == src
        }),
{
    let pos = turns[t].after.action->pos;
    let src = turns[t].after.op.src;
    let s = turns[t].after;
    let later = turns[u].after;
    lemma_turn(file, disk, turns, t);
    lemma_turn(file, disk, turns, u);
    law_read_gives_contents(s.file, s.disk, 0, 0);
    law_read_gives_contents(later.file, later.disk, 0, 0);
    law_schedule_is_history(file, disk, turns);
    law_bytes_stay(moments(file, disk, turns), t + 1, u + 1);
    let c = s.file.contents(s.disk);
    let c2 = later.file.contents(later.disk);
    assert(src.take(src.len() as int) =~= src);
    assert(c.subrange(pos, pos + src.len()) =~= src);
    assert(c2.subrange(pos, pos + src.len()) =~= c2.take(c.len() as int).subrange(
        pos,
        pos + src.len(),
    ));
}

/// The ranges of two concurrent writes that have returned do not overlap: they lie in the order
/// in which the writes have returned.
pub proof fn law_concurrent_writes_are_disjoint(
    file: FileModel,
    disk: Seq<u8>,
    turns: Seq<Turn>,
    t: int,
    u: int,
)
    requires
        is_schedule(file, disk, turns),
        0 <= t < u < turns.len(),
        turns[t].after.action is Done,
        turns[u].after.action is Done,
        turns[t].after.op.src.len() > 0,
        turns[u].after.op.src.len() > 0,
    ensures
        turns[t].after.action->pos + turns[t].after.op.src.len() <= turns[u].after.action->pos,
{
    law_concurrent_write_stays_whole(file, disk, turns, t, t);
    law_concurrent_write_stays_whole(file, disk, turns, u, u);
    lemma_begun_after(file, disk, turns, t, u);
    lemma_turn(file, disk, turns, t);
    lemma_turn(file, disk, turns, u);
    let history = moments(file, disk, turns);
    law_schedule_is_history(file, disk, turns);
    assert(history[t + 1].file == turns[t].after.file);
    law_reads_do_not_change(history, t + 1, begun(turns, u), 0, 0);
}

/// Whether the write that returns at turn `t` has written the byte at `p`.
pub open spec fn wrote(turns: Seq<Turn>, t: int, p: int) -> bool {
    turns[t].after.action is Done && turns[t].after.action->pos <= p < turns[t].after.action->pos
        + turns[t].after.op.src.len()
}

/// The ranges of concurrent writes leave no gap: when a write returns and none has failed, each
/// byte that the file has gained was written by a write that has returned.
pub proof fn law_concurrent_writes_leave_no_gap(
    file: FileModel,
    disk: Seq<u8>,
    turns: Seq<Turn>,
    t: int,
    p: int,
)
    requires
        is_schedule(file, disk, turns),
        forall|k: int| 0 <= k < turns.len() ==> !((#[trigger] turns[k]).event is FlushFailed),
        0 <= t < turns.len(),
        turns[t].after.action is Done,
        file.size() <= p < turns[t].after.file.size(),
    ensures
        exists|k: int| 0 <= k <= t && #[trigger] wrote(turns, k, p),
    decreases t,
{
    let b = begun(turns, t);
    lemma_turn(file, disk, turns, t);
    let s = turns[t].after;
    law_read_gives_contents(s.file, s.disk, 0, 0);
    if p >= before_turn(file, disk, turns, b).file.size() {
        assert(wrote(turns, t, p));
    } else {
        assert(turn_at(file, disk, turns, b));
        lemma_turn(file, disk, turns, b - 1);
        law_concurrent_writes_leave_no_gap(file, disk, turns, b - 1, p);
        let k = choose|k: int| 0 <= k <= b - 1 && #[trigger] wrote(turns, k, p);
        assert(wrote(turns, k, p));
    }
}

/// No two writes to disk are ever pending: when a flush has been asked for, the next turn of any
/// writer reports how it went.
pub proof fn law_one_flush_at_a_time(file: FileModel, disk: Seq<u8>, turns: Seq<Turn>, t: int)
    requires
        is_schedule(file, disk, turns),
        0 <= t < turns.len() - 1,
        turns[t].after.action is Flush,
    ensures
        turns[t].after.file.frozen == Some(turns[t].after.action->Flush_0),
        turns[t + 1].writer == turns[t].writer,
        !(turns[t + 1].event is Begin),
{
    lemma_turn(file, disk, turns, t);
    assert(turn_at(file, disk, turns, t + 1));
}

} // verus!
