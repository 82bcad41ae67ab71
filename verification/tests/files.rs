use ephemeral_file::file::{
    EphemeralFile, EphemeralFileWriteError, FileId, WriteAction, WriteRaw,
};
use ephemeral_file::model::{WriteEvent, TAIL_SZ};
use rand::Rng;

/// A file together with a disk that never fails.
struct Harness {
    file: EphemeralFile,
    disk: Vec<u8>,
}

fn write_at(disk: &mut Vec<u8>, offset: u64, data: &[u8]) {
    let offset = offset as usize;
    if disk.len() < offset + data.len() {
        disk.resize(offset + data.len(), 0);
    }
    disk[offset..offset + data.len()].copy_from_slice(data);
}

fn read_all(file: &EphemeralFile, disk: &[u8], start: u64, cap: usize) -> (Vec<u8>, usize) {
    let read = file.read_exact_at_eof_ok(start, cap);
    let bytes = match read.disk_read() {
        Some((offset, len)) => disk[offset as usize..offset as usize + len].to_vec(),
        None => Vec::new(),
    };
    read.complete::<()>(Ok(bytes)).unwrap()
}

impl Harness {
    fn new() -> Harness {
        Harness {
            file: EphemeralFile::create(FileId(1)),
            disk: Vec::new(),
        }
    }

    fn write_raw(&mut self, src: &[u8]) -> Result<u64, EphemeralFileWriteError> {
        let mut op = WriteRaw::new(src);
        let mut event = WriteEvent::Begin;
        loop {
            match self.file.write_raw(&mut op, event) {
                WriteAction::Flush { offset, data } => {
                    write_at(&mut self.disk, offset, &data);
                    event = WriteEvent::Flushed;
                }
                WriteAction::Done { pos, size } => {
                    assert_eq!(size, self.file.len());
                    return Ok(pos);
                }
                WriteAction::Failed(error) => return Err(error),
            }
        }
    }

    fn read(&self, start: u64, cap: usize) -> (Vec<u8>, usize) {
        read_all(&self.file, &self.disk, start, cap)
    }

    fn load_to_io_buf(&self) -> Vec<u8> {
        let read = self.file.load_to_io_buf();
        let bytes = match read.disk_read() {
            Some((offset, len)) => self.disk[offset as usize..offset as usize + len].to_vec(),
            None => Vec::new(),
        };
        let (buf, nread) = read.complete::<()>(Ok(bytes)).unwrap();
        assert_eq!(nread as u64, self.file.len());
        assert_eq!(buf.len(), nread);
        assert_eq!(buf.capacity(), nread, "we shouldn't be reallocating");
        buf
    }
}

fn pattern(n: usize) -> Vec<u8> {
    (0..n).map(|i| (i % 251) as u8 + 1).collect()
}

#[test]
fn test_ephemeral_file_basics() {
    let mut file = Harness::new();

    let data = b"hello world";
    let off = file.write_raw(data).unwrap();
    assert_eq!(off, 0);

    let (bytes, _) = file.read(0, data.len());
    assert_eq!(&bytes[..], data);
}

#[test]
fn test_flushes_do_happen() {
    let mut file = Harness::new();

    let cap = TAIL_SZ;
    let write_nbytes = cap * 2 + cap / 2;

    let content: Vec<u8> = rand::rng()
        .sample_iter(rand::distr::StandardUniform)
        .take(write_nbytes)
        .collect();

    let _ = file.write_raw(&content).unwrap();

    // Verify data integrity
    let load_io_buf_res = file.load_to_io_buf();
    assert_eq!(&load_io_buf_res[..], &content[..]);

    // Verify disk size (should be 2 full chunks)
    assert_eq!(file.disk.len() as u64, (2 * cap) as u64);
}

#[test]
fn test_read_split_across_boundaries() {
    let mut file = Harness::new();

    let chunk_size = 64 * 1024;

    let chunk1 = vec![b'A'; chunk_size];
    let chunk2 = vec![b'B'; chunk_size];
    let chunk3 = vec![b'C'; 100];

    file.write_raw(&chunk1).unwrap();
    file.write_raw(&chunk2).unwrap();
    file.write_raw(&chunk3).unwrap();

    // Check boundary (64KB - 10)
    let start = (chunk_size - 10) as u64;
    let len = 20;
    let (bytes, _) = file.read(start, len);

    assert_eq!(&bytes[0..10], &vec![b'A'; 10][..]);
    assert_eq!(&bytes[10..20], &vec![b'B'; 10][..]);
}

#[test]
fn test_multi_writer_race_condition() {
    // Writers take turns, as their lock makes them.
    let mut file = Harness::new();

    let num_writers = 2;
    let chunk_size = 1024;

    for _ in 0..100 {
        for w_id in 0..num_writers {
            let chunk = vec![w_id as u8; chunk_size];
            file.write_raw(&chunk).unwrap();
        }
    }

    // Check length consistency
    let expected_len = (num_writers * 100 * chunk_size) as u64;
    assert_eq!(
        file.file.len(),
        expected_len,
        "File length mismatch! Data lost to writer race"
    );
    let all = file.load_to_io_buf();
    for (i, byte) in all.iter().enumerate() {
        assert_eq!(*byte as usize, i / chunk_size % num_writers);
    }
}

#[test]
fn test_concurrent_flush_no_stall() {
    let mut file = EphemeralFile::create(FileId(1));
    let mut disk: Vec<u8> = Vec::new();
    let chunk = vec![0u8; TAIL_SZ];
    let mut total_reads = 0;
    for _ in 0..50 {
        let mut op = WriteRaw::new(&chunk);
        let mut event = WriteEvent::Begin;
        loop {
            match file.write_raw(&mut op, event) {
                WriteAction::Flush { offset, data } => {
                    // The flush is pending: reads go on.
                    for _ in 0..5 {
                        let (bytes, nread) = read_all(&file, &disk, 0, 1024);
                        assert_eq!((bytes.len(), nread), (1024, 1024));
                        total_reads += 1;
                    }
                    write_at(&mut disk, offset, &data);
                    event = WriteEvent::Flushed;
                }
                WriteAction::Done { .. } => break,
                WriteAction::Failed(_) => unreachable!(),
            }
        }
    }
    assert!(total_reads > 100, "Readers were blocked by the flush lock!");
}

#[test]
fn a_new_file_is_empty() {
    let file = Harness::new();
    assert_eq!(file.file.len(), 0);
    assert_eq!(file.file.page_cache_file_id(), FileId(1));
    assert!(file.load_to_io_buf().is_empty());
    assert!(file.file.read_exact_at_eof_ok(0, 8).disk_read().is_none());
}

#[test]
fn a_write_returns_where_it_began() {
    let mut file = Harness::new();
    assert_eq!(file.write_raw(&pattern(10)).unwrap(), 0);
    assert_eq!(file.write_raw(&pattern(TAIL_SZ)).unwrap(), 10);
    assert_eq!(file.write_raw(&pattern(3)).unwrap(), TAIL_SZ as u64 + 10);
    assert_eq!(file.file.len(), TAIL_SZ as u64 + 13);
}

#[test]
fn an_empty_write_returns_zero_and_changes_nothing() {
    let mut file = Harness::new();
    file.write_raw(&pattern(10)).unwrap();
    assert_eq!(file.write_raw(&[]).unwrap(), 0);
    assert_eq!(file.file.len(), 10);
}

#[test]
fn a_read_gives_back_the_write() {
    let mut file = Harness::new();
    file.write_raw(&pattern(TAIL_SZ - 7)).unwrap();
    let src: Vec<u8> = pattern(3 * TAIL_SZ + 5).into_iter().rev().collect();
    let pos = file.write_raw(&src).unwrap();
    assert_eq!(file.read(pos, src.len()), (src.clone(), src.len()));
}

#[test]
fn a_write_keeps_earlier_bytes() {
    let mut file = Harness::new();
    file.write_raw(&pattern(100)).unwrap();
    let before = file.read(20, 50);
    file.write_raw(&vec![0xff; 2 * TAIL_SZ]).unwrap();
    assert_eq!(file.read(20, 50), before);
}

#[test]
fn two_writes_lie_behind_each_other() {
    let mut file = Harness::new();
    file.write_raw(&[1, 2, 3]).unwrap();
    file.write_raw(&[4, 5]).unwrap();
    assert_eq!(file.load_to_io_buf(), vec![1, 2, 3, 4, 5]);
}

#[test]
fn a_write_that_fills_the_tail_exactly_flushes_it() {
    let mut file = Harness::new();
    file.write_raw(&pattern(TAIL_SZ)).unwrap();
    assert_eq!(file.disk, pattern(TAIL_SZ));
    let read = file.file.read_exact_at_eof_ok(0, TAIL_SZ + 1);
    assert_eq!(read.disk_read(), Some((0, TAIL_SZ)));
}

#[test]
fn one_byte_less_than_the_tail_stays_in_memory() {
    let mut file = Harness::new();
    file.write_raw(&pattern(TAIL_SZ - 1)).unwrap();
    assert!(file.disk.is_empty());
    let read = file.file.read_exact_at_eof_ok(0, TAIL_SZ);
    assert!(read.disk_read().is_none());
    assert_eq!(file.load_to_io_buf(), pattern(TAIL_SZ - 1));
}

#[test]
fn flushes_are_full_tails_in_order() {
    let mut file = EphemeralFile::create(FileId(9));
    let src = pattern(2 * TAIL_SZ + 4);
    let mut op = WriteRaw::new(&src);
    match file.write_raw(&mut op, WriteEvent::Begin) {
        WriteAction::Flush { offset, data } => {
            assert_eq!(offset, 0);
            assert_eq!(data, &src[..TAIL_SZ]);
        }
        _ => panic!("the first tail is full"),
    }
    match file.write_raw(&mut op, WriteEvent::Flushed) {
        WriteAction::Flush { offset, data } => {
            assert_eq!(offset, TAIL_SZ as u64);
            assert_eq!(data, &src[TAIL_SZ..2 * TAIL_SZ]);
        }
        _ => panic!("the second tail is full"),
    }
    match file.write_raw(&mut op, WriteEvent::Flushed) {
        WriteAction::Done { pos, size } => {
            assert_eq!(pos, 0);
            assert_eq!(size, 2 * TAIL_SZ as u64 + 4);
        }
        _ => panic!("nothing is left to flush"),
    }
    assert_eq!(file.page_cache_file_id(), FileId(9));
}

#[test]
fn bytes_are_readable_while_they_are_flushed() {
    let mut file = EphemeralFile::create(FileId(1));
    let src = pattern(TAIL_SZ + 10);
    let mut op = WriteRaw::new(&src);
    let action = file.write_raw(&mut op, WriteEvent::Begin);
    assert!(matches!(action, WriteAction::Flush { .. }));
    assert_eq!(file.len(), TAIL_SZ as u64);
    let (bytes, _) = read_all(&file, &[], 5, TAIL_SZ - 5);
    assert_eq!(bytes, &src[5..TAIL_SZ]);
}

#[test]
fn a_read_past_the_end_is_zero() {
    let mut file = Harness::new();
    file.write_raw(&[7, 8, 9]).unwrap();
    assert_eq!(file.read(1, 4), (vec![8, 9, 0, 0], 4));
    assert_eq!(file.read(3, 2), (vec![0, 0], 2));
    assert_eq!(file.read(1000, 2), (vec![0, 0], 2));
    assert_eq!(file.read(0, 0), (vec![], 0));
}

#[test]
fn the_count_is_cut_at_the_end_of_the_range() {
    let mut file = Harness::new();
    file.write_raw(&[7, 8, 9]).unwrap();
    assert_eq!(file.read(u64::MAX - 2, 5), (vec![0; 5], 2));
    assert_eq!(file.read(u64::MAX, 5), (vec![0; 5], 0));
}

#[test]
fn a_read_spans_disk_frozen_buffer_and_tail() {
    let mut file = Harness::new();
    let src = pattern(3 * TAIL_SZ);
    file.write_raw(&src[..TAIL_SZ]).unwrap();
    // The second tail gets stuck in its flush, and the third is begun.
    let mut op = WriteRaw::new(&src[TAIL_SZ..2 * TAIL_SZ]);
    let action = file.file.write_raw(&mut op, WriteEvent::Begin);
    assert!(matches!(action, WriteAction::Flush { .. }));
    let action = file.file.write_raw(&mut op, WriteEvent::FlushFailed);
    assert!(matches!(action, WriteAction::Failed(EphemeralFileWriteError::Cancelled)));
    assert_eq!(file.write_raw(&src[2 * TAIL_SZ..2 * TAIL_SZ + 50]).unwrap(), 2 * TAIL_SZ as u64);
    let read = file.file.read_exact_at_eof_ok(10, 2 * TAIL_SZ + 40);
    assert_eq!(read.disk_read(), Some((10, TAIL_SZ - 10)));
    assert_eq!(
        file.read(10, 2 * TAIL_SZ + 40),
        (src[10..2 * TAIL_SZ + 50].to_vec(), 2 * TAIL_SZ + 40)
    );
}

#[test]
fn a_failed_flush_fails_the_write_and_keeps_what_was_taken() {
    let mut file = EphemeralFile::create(FileId(1));
    let src = pattern(TAIL_SZ + 10);
    let mut op = WriteRaw::new(&src);
    file.write_raw(&mut op, WriteEvent::Begin);
    match file.write_raw(&mut op, WriteEvent::FlushFailed) {
        WriteAction::Failed(error) => assert_eq!(error, EphemeralFileWriteError::Cancelled),
        _ => panic!("the flush has failed"),
    }
    assert_eq!(file.len(), TAIL_SZ as u64);
    // Whatever the flush has left on disk is not looked at.
    let garbage = vec![0xee; 100];
    let (bytes, _) = read_all(&file, &garbage, 0, TAIL_SZ);
    assert_eq!(bytes, &src[..TAIL_SZ]);
}

#[test]
fn bytes_survive_a_failed_flush_and_later_writes() {
    let mut file = Harness::new();
    let src = pattern(2 * TAIL_SZ + 9);
    let mut op = WriteRaw::new(&src[..TAIL_SZ]);
    file.file.write_raw(&mut op, WriteEvent::Begin);
    file.file.write_raw(&mut op, WriteEvent::FlushFailed);
    assert_eq!(file.file.len(), TAIL_SZ as u64);
    assert!(file.disk.is_empty());

    // Nothing needs flushing yet.
    assert_eq!(file.write_raw(&src[TAIL_SZ..TAIL_SZ + 4]).unwrap(), TAIL_SZ as u64);
    assert!(file.disk.is_empty());

    // The tail gets full: both buffers go to disk.
    assert_eq!(file.write_raw(&src[TAIL_SZ + 4..]).unwrap(), TAIL_SZ as u64 + 4);
    assert_eq!(file.disk, &src[..2 * TAIL_SZ]);
    assert_eq!(file.read(0, TAIL_SZ).0, &src[..TAIL_SZ]);
    assert_eq!(file.load_to_io_buf(), src);
}

#[test]
fn a_failed_flush_is_asked_for_again_first() {
    let mut file = EphemeralFile::create(FileId(1));
    let src = pattern(2 * TAIL_SZ);
    let mut op = WriteRaw::new(&src[..TAIL_SZ]);
    file.write_raw(&mut op, WriteEvent::Begin);
    file.write_raw(&mut op, WriteEvent::FlushFailed);

    let mut op = WriteRaw::new(&src[TAIL_SZ..]);
    match file.write_raw(&mut op, WriteEvent::Begin) {
        WriteAction::Flush { offset, data } => {
            assert_eq!(offset, 0);
            assert_eq!(data, &src[..TAIL_SZ]);
        }
        _ => panic!("the first buffer is not on disk"),
    }
    // It fails once more: nothing of the second write has been taken.
    let action = file.write_raw(&mut op, WriteEvent::FlushFailed);
    assert!(matches!(action, WriteAction::Failed(EphemeralFileWriteError::Cancelled)));
    assert_eq!(file.len(), TAIL_SZ as u64);
    assert_eq!(read_all(&file, &[], 0, TAIL_SZ).0, &src[..TAIL_SZ]);

    let mut op = WriteRaw::new(&src[TAIL_SZ..]);
    let action = file.write_raw(&mut op, WriteEvent::Begin);
    assert!(matches!(action, WriteAction::Flush { offset: 0, .. }));
    match file.write_raw(&mut op, WriteEvent::Flushed) {
        WriteAction::Flush { offset, data } => {
            assert_eq!(offset, TAIL_SZ as u64);
            assert_eq!(data, &src[TAIL_SZ..]);
        }
        _ => panic!("the second buffer is full"),
    }
    match file.write_raw(&mut op, WriteEvent::Flushed) {
        WriteAction::Done { pos, size } => {
            assert_eq!(pos, TAIL_SZ as u64);
            assert_eq!(size, 2 * TAIL_SZ as u64);
        }
        _ => panic!("nothing is left to flush"),
    }
}

#[test]
fn a_disk_read_can_wait() {
    let mut file = Harness::new();
    file.write_raw(&pattern(TAIL_SZ + 3)).unwrap();
    let expected = file.read(0, TAIL_SZ + 3).0;
    let read = file.file.read_exact_at_eof_ok(0, TAIL_SZ + 3);
    file.write_raw(&vec![0xff; 2 * TAIL_SZ]).unwrap();
    let (offset, len) = read.disk_read().unwrap();
    let bytes = file.disk[offset as usize..offset as usize + len].to_vec();
    assert_eq!(read.complete::<()>(Ok(bytes)), Ok((expected, TAIL_SZ + 3)));
}

#[test]
fn committed_bytes_stay_on_disk() {
    let mut file = Harness::new();
    file.write_raw(&pattern(TAIL_SZ)).unwrap();
    for n in 0..5 {
        file.write_raw(&vec![n; TAIL_SZ + 1]).unwrap();
        assert_eq!(&file.disk[..TAIL_SZ], &pattern(TAIL_SZ)[..]);
    }
    assert_eq!(file.disk.len(), 6 * TAIL_SZ);
    assert_eq!(file.file.len(), 6 * TAIL_SZ as u64 + 5);
}

#[test]
fn a_torn_flush_does_not_reach_readers() {
    let mut file = Harness::new();
    let src = pattern(2 * TAIL_SZ);
    file.write_raw(&src[..TAIL_SZ]).unwrap();
    let mut op = WriteRaw::new(&src[TAIL_SZ..]);
    match file.file.write_raw(&mut op, WriteEvent::Begin) {
        WriteAction::Flush { offset, .. } => write_at(&mut file.disk, offset, &[0xee; 100]),
        _ => panic!("the tail is full"),
    }
    file.file.write_raw(&mut op, WriteEvent::FlushFailed);
    assert_eq!(file.load_to_io_buf(), src);
}

#[test]
fn an_error_of_the_disk_is_passed_on() {
    let mut file = Harness::new();
    file.write_raw(&pattern(TAIL_SZ)).unwrap();
    let read = file.file.read_exact_at_eof_ok(0, 4);
    assert!(read.disk_read().is_some());
    assert_eq!(read.complete(Err("broken")), Err("broken"));
}
