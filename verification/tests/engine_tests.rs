use outoforderfs::backing::MemFile;
use outoforderfs::block_count;
use outoforderfs::engine::{RunStep, WritebackThread};

const SEC: u64 = 1_000_000_000;

#[test]
fn test_writeback_thread() {
    let v = MemFile::new(vec![0; 10]);
    let mut wt = WritebackThread::new(v, 2);

    wt.writeblock(3, vec![33, 33], 10, 3 * SEC, 4 * SEC, 0);
    wt.writeblock(1, vec![5, 1], 10, SEC, SEC, 0);
    wt.writeblock(4, vec![7, 3], 10, SEC, SEC, 0);
    wt.writeblock(2, vec![2, 1], 10, SEC, SEC, 0);
    wt.writeblock(0, vec![22, 22], 10, 3 * SEC, 4 * SEC, 0);

    wt.run_until(2 * SEC);

    assert_eq!(wt.stop(), 2);

    let v = wt.into_file();
    assert_eq!(v.get_ref(), &vec![0, 0, 5, 1, 2, 1, 0, 0, 7, 3]);
}

#[test]
fn capacity_bound_blocks_fresh_blocks() {
    let v = MemFile::new(vec![0; 10]);
    let mut wt = WritebackThread::new(v, 2);

    // capacity 1: the first fresh block is admitted...
    assert!(wt.writeblock(0, vec![1, 1], 1, SEC, SEC, 0));
    // ...a second fresh block is refused while the cache is full...
    assert!(!wt.writeblock(1, vec![2, 2], 1, SEC, SEC, 0));
    // ...but overwriting the cached block is always possible.
    assert!(wt.writeblock(0, vec![3, 3], 1, SEC, SEC, 0));
    assert_eq!(wt.size(), 1);

    // once the writeback ran, there is room again
    wt.run_until(SEC);
    assert_eq!(wt.size(), 0);
    assert!(wt.writeblock(1, vec![2, 2], 1, SEC, SEC, 2 * SEC));
}

#[test]
fn degenerate_delay_is_exact() {
    let v = MemFile::new(vec![0; 10]);
    let mut wt = WritebackThread::new(v, 2);

    // mindelay == maxdelay: the sampled delay is exactly that value
    wt.writeblock(4, vec![8, 8], 10, 7 * SEC, 7 * SEC, 100);
    assert_eq!(wt.peek_deadline(), Some(100 + 7 * SEC));
}

#[test]
fn sampled_deadline_lies_in_bounds() {
    let v = MemFile::new(vec![0; 10]);
    let mut wt = WritebackThread::new(v, 2);

    wt.writeblock(2, vec![8, 8], 10, 3 * SEC, 4 * SEC, 50);
    let d = wt.peek_deadline().expect("one entry is scheduled");
    assert!(50 + 3 * SEC <= d && d <= 50 + 4 * SEC);
}

#[test]
fn overwrite_preserves_deadline() {
    let v = MemFile::new(vec![0; 10]);
    let mut wt = WritebackThread::new(v, 2);

    // first touch at t=0 with a fixed 10 s delay
    wt.writeblock(0, vec![1, 1], 10, 10 * SEC, 10 * SEC, 0);
    // overwrite at t=5 s: payload replaced, deadline untouched
    wt.writeblock(0, vec![9, 9], 10, 10 * SEC, 10 * SEC, 5 * SEC);
    assert_eq!(wt.peek_deadline(), Some(10 * SEC));

    // at t=10 s the block flushes with the newer payload
    wt.run_until(10 * SEC);
    assert_eq!(wt.size(), 0);
    let v = wt.into_file();
    assert_eq!(&v.into_vec()[0..2], &[9, 9]);
}

#[test]
fn checkblock_and_useblock_observe_the_cache() {
    let v = MemFile::new(vec![0; 10]);
    let mut wt = WritebackThread::new(v, 2);

    wt.writeblock(2, vec![6, 7], 10, SEC, SEC, 0);
    assert!(wt.checkblock(2));
    assert!(!wt.checkblock(3));
    assert_eq!(wt.useblock(2), Some(vec![6, 7]));
    assert_eq!(wt.useblock(3), None);

    wt.run_until(SEC);
    assert!(!wt.checkblock(2));
    assert_eq!(wt.useblock(2), None);
}

#[test]
fn ordering_is_deadline_then_block_index() {
    let v = MemFile::new(vec![0; 12]);
    let mut wt = WritebackThread::new(v, 2);

    // equal deadlines: ties break by ascending block index
    wt.writeblock(5, vec![5, 5], 10, SEC, SEC, 0);
    wt.writeblock(1, vec![1, 1], 10, SEC, SEC, 0);
    wt.writeblock(3, vec![3, 3], 10, SEC, SEC, 0);

    assert_eq!(wt.run_step(SEC), RunStep::Committed(1));
    assert_eq!(wt.run_step(SEC), RunStep::Committed(3));
    assert_eq!(wt.run_step(SEC), RunStep::Committed(5));
    assert_eq!(wt.run_step(SEC), RunStep::Idle);
}

#[test]
fn stop_reports_and_abandons_residue() {
    let v = MemFile::new(vec![0; 10]);
    let mut wt = WritebackThread::new(v, 2);

    wt.writeblock(0, vec![1, 1], 10, 5 * SEC, 5 * SEC, 0);
    wt.writeblock(1, vec![2, 2], 10, 5 * SEC, 5 * SEC, 0);
    wt.writeblock(2, vec![3, 3], 10, 5 * SEC, 5 * SEC, 0);

    assert_eq!(wt.stop(), 3);

    // a stopped engine commits nothing further
    assert_eq!(wt.run_step(10 * SEC), RunStep::Stopped);
    let v = wt.into_file();
    assert_eq!(v.get_ref(), &vec![0; 10]);
}

#[test]
fn many_blocks_never_exceed_capacity() {
    let v = MemFile::new(vec![0; 4000]);
    let mut wt = WritebackThread::new(v, 2);

    for b in 0..2000u64 {
        let payload = vec![(b % 251) as u8, (b % 241) as u8];
        loop {
            if wt.writeblock(b, payload.clone(), 10, 0, 0, 0) {
                break;
            }
            // full: let the engine drain, as the blocked writer would
            wt.run_until(0);
        }
        assert!(wt.size() <= 10);
    }
    wt.run_until(0);
    assert_eq!(wt.size(), 0);

    let v = wt.into_file().into_vec();
    for b in 0..2000usize {
        assert_eq!(v[2 * b], ((b % 251) as u8));
        assert_eq!(v[2 * b + 1], ((b % 241) as u8));
    }
}

#[test]
fn block_count_is_the_ceiling() {
    assert_eq!(block_count(10, 2), 5);
    assert_eq!(block_count(10, 4), 3);
    assert_eq!(block_count(1, 4), 1);
    assert_eq!(block_count(4, 4), 1);
    assert_eq!(block_count(5, 4), 2);
}
