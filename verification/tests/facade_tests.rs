use outoforderfs::backing::MemFile;
use outoforderfs::engine::WritebackThread;
use outoforderfs::facade::{SeekFrom, VirtualFile};

const SEC: u64 = 1_000_000_000;

/// Write all of `data` through the facade, draining the engine whenever
/// the dirty cache pushes back — the loop every caller of the
/// one-block-per-call facade wraps around it.
fn write_all(
    vf: &mut VirtualFile,
    wt: &mut WritebackThread<MemFile>,
    data: &[u8],
    now_ns: u64,
) {
    let mut off = 0;
    while off < data.len() {
        match vf.write(wt, &data[off..], now_ns) {
            Some(n) => {
                assert!(n > 0);
                off += n;
            },
            None => {
                wt.run_until(now_ns);
            },
        }
    }
}

#[test]
fn virtual_file_consistency() {
    let v = MemFile::new(vec![0; 10]);
    let mut wt = WritebackThread::new(v, 2);
    let mut vf = wt.get_virtual_file(10, 0, 2 * SEC);

    write_all(&mut vf, &mut wt, &[4], 0);
    write_all(&mut vf, &mut wt, &[5, 8], 0);
    write_all(&mut vf, &mut wt, &[1, 3, 9], 0);

    // past the written range the virtual file still shows zeroes
    assert_eq!(vf.read_exact2(&mut wt, 3), vec![0, 0, 0]);

    // read-your-writes through the same cursor, before anything flushed
    assert_eq!(vf.seek(&wt, SeekFrom::Start(0)), Some(0));
    assert_eq!(vf.read_exact2(&mut wt, 3), vec![4, 5, 8]);
    assert_eq!(vf.read_exact2(&mut wt, 2), vec![1, 3]);
    assert_eq!(vf.read_exact2(&mut wt, 1), vec![9]);

    // after one second some blocks may or may not have flushed; the
    // facade's answer does not depend on it
    wt.run_until(SEC);
    assert_eq!(vf.seek(&wt, SeekFrom::Start(0)), Some(0));
    assert_eq!(vf.read_exact2(&mut wt, 2), vec![4, 5]);
    assert_eq!(vf.read_exact2(&mut wt, 1), vec![8]);
    assert_eq!(vf.read_exact2(&mut wt, 3), vec![1, 3, 9]);

    // after the full delay bound everything has propagated
    wt.run_until(3 * SEC);
    assert_eq!(vf.seek(&wt, SeekFrom::Start(0)), Some(0));
    assert_eq!(vf.read_exact2(&mut wt, 1), vec![4]);
    assert_eq!(vf.read_exact2(&mut wt, 2), vec![5, 8]);
    assert_eq!(vf.read_exact2(&mut wt, 3), vec![1, 3, 9]);

    wt.stop();
}

#[test]
fn eventual_propagation_reaches_the_backing_file() {
    let v = MemFile::new(vec![0; 10]);
    let mut wt = WritebackThread::new(v, 2);
    let mut vf = wt.get_virtual_file(10, 0, 2 * SEC);

    write_all(&mut vf, &mut wt, &[4], 0);
    write_all(&mut vf, &mut wt, &[5, 8], 0);
    write_all(&mut vf, &mut wt, &[1, 3, 9], 0);

    // wait past maxdelay: a direct read of the backing store sees it all
    wt.run_until(3 * SEC);
    assert_eq!(wt.size(), 0);
    let v = wt.into_file();
    assert_eq!(v.get_ref(), &vec![4, 5, 8, 1, 3, 9, 0, 0, 0, 0]);
}

#[test]
fn read_your_writes_same_cursor() {
    let v = MemFile::new(vec![0; 16]);
    let mut wt = WritebackThread::new(v, 4);
    let mut vf = wt.get_virtual_file(10, SEC, 2 * SEC);

    assert_eq!(vf.seek(&wt, SeekFrom::Start(5)), Some(5));
    write_all(&mut vf, &mut wt, &[9, 7], 0);
    assert_eq!(vf.seek(&wt, SeekFrom::Start(5)), Some(5));
    assert_eq!(vf.read_exact2(&mut wt, 2), vec![9, 7]);
}

#[test]
fn partial_block_write_preserves_the_rest() {
    let v = MemFile::new(vec![1, 2, 3, 4, 5, 6, 7, 8]);
    let mut wt = WritebackThread::new(v, 4);
    let mut vf = wt.get_virtual_file(10, 0, 0);

    // write one byte in the middle of the second block
    assert_eq!(vf.seek(&wt, SeekFrom::Start(5)), Some(5));
    write_all(&mut vf, &mut wt, &[99], 0);

    // the untouched portion of the block survives, through the facade...
    assert_eq!(vf.seek(&wt, SeekFrom::Start(4)), Some(4));
    assert_eq!(vf.read_exact2(&mut wt, 4), vec![5, 99, 7, 8]);

    // ...and, once flushed, in the backing bytes
    wt.run_until(0);
    let v = wt.into_file();
    assert_eq!(v.get_ref(), &vec![1, 2, 3, 4, 5, 99, 7, 8]);
}

#[test]
fn facade_write_pushes_back_at_capacity() {
    let v = MemFile::new(vec![0; 10]);
    let mut wt = WritebackThread::new(v, 2);
    // capacity of a single dirty block
    let mut vf = wt.get_virtual_file(1, SEC, SEC);

    assert_eq!(vf.write(&mut wt, &[7, 7], 0), Some(2));
    // the next distinct block would exceed the bound: the call reports
    // that the writer must wait
    assert_eq!(vf.write(&mut wt, &[8, 8], 0), None);
    assert_eq!(wt.size(), 1);

    // a writeback completes; the retry succeeds
    wt.run_until(SEC);
    assert_eq!(vf.write(&mut wt, &[8, 8], SEC), Some(2));
    wt.run_until(3 * SEC);
    let v = wt.into_file();
    assert_eq!(&v.into_vec()[0..4], &[7, 7, 8, 8]);
}

#[test]
fn seek_variants_move_the_cursor() {
    let v = MemFile::new(vec![0; 10]);
    let mut wt = WritebackThread::new(v, 2);
    let mut vf = wt.get_virtual_file(10, 0, SEC);

    assert_eq!(vf.seek(&wt, SeekFrom::Start(7)), Some(7));
    assert_eq!(vf.seek(&wt, SeekFrom::Current(-3)), Some(4));
    assert_eq!(vf.seek(&wt, SeekFrom::Current(2)), Some(6));
    assert_eq!(vf.seek(&wt, SeekFrom::End(-2)), Some(8));
    assert_eq!(vf.seek(&wt, SeekFrom::End(0)), Some(10));
    // seeking before the start is refused and moves nothing
    assert_eq!(vf.seek(&wt, SeekFrom::Start(1)), Some(1));
    assert_eq!(vf.seek(&wt, SeekFrom::Current(-2)), None);
    assert_eq!(vf.read_exact2(&mut wt, 1), vec![0]);
}

#[test]
fn read_at_end_of_store_is_empty() {
    let v = MemFile::new(vec![3; 6]);
    let mut wt = WritebackThread::new(v, 2);
    let mut vf = wt.get_virtual_file(10, 0, SEC);

    assert_eq!(vf.seek(&wt, SeekFrom::End(0)), Some(6));
    assert_eq!(vf.read(&mut wt, 4), Vec::<u8>::new());
    assert_eq!(vf.read_exact2(&mut wt, 4), Vec::<u8>::new());
}

#[test]
fn tail_read_is_short_and_exact() {
    // five bytes, so the last block is a partial one
    let v = MemFile::new(vec![10, 11, 12, 13, 14]);
    let mut wt = WritebackThread::new(v, 2);
    let mut vf = wt.get_virtual_file(10, 0, SEC);

    // a read crossing the end returns what is there and stops
    assert_eq!(vf.seek(&wt, SeekFrom::Start(3)), Some(3));
    assert_eq!(vf.read_exact2(&mut wt, 4), vec![13, 14]);
    // the cursor advanced by what was read, no further
    assert_eq!(vf.read_exact2(&mut wt, 4), Vec::<u8>::new());
    assert_eq!(vf.seek(&wt, SeekFrom::Current(0)), Some(5));
}

#[test]
fn tail_read_serves_a_dirty_block_past_the_end() {
    let v = MemFile::new(vec![10, 11, 12, 13, 14]);
    let mut wt = WritebackThread::new(v, 2);
    let mut vf = wt.get_virtual_file(10, SEC, SEC);

    // dirty block 2 reaches one byte past the store's end
    wt.writeblock(2, vec![77, 88], 10, SEC, SEC, 0);

    // the tail read crosses the old end into the dirty block
    assert_eq!(vf.seek(&wt, SeekFrom::Start(3)), Some(3));
    assert_eq!(vf.read_exact2(&mut wt, 4), vec![13, 77, 88]);

    // once flushed, the store itself has grown to hold it
    wt.run_until(SEC);
    let v = wt.into_file();
    assert_eq!(v.get_ref(), &vec![10, 11, 12, 13, 77, 88]);
}

#[test]
fn flush_is_ignored() {
    let v = MemFile::new(vec![0; 10]);
    let mut wt = WritebackThread::new(v, 2);
    let mut vf = wt.get_virtual_file(10, 5 * SEC, 5 * SEC);

    write_all(&mut vf, &mut wt, &[1, 2], 0);
    vf.flush();
    // flushing forced nothing out: the block is still only cached
    assert_eq!(wt.size(), 1);
    let v = wt.into_file();
    assert_eq!(v.get_ref(), &vec![0; 10]);
}
