use node_controller::codec::TransferHeader;
use node_controller::transfer::{
    begin_range, check_hash, failure_summary, file_hash, finish_range, plan_ranges, range_key,
    verify_file, BufferPool, FileTransferConfig, RangeCopy, RangeRecord, SendProgress,
    TransferDirection, TransferError, BUFFER_POOL_SIZE,
};

fn header(start: u64, end: u64, size: u64) -> TransferHeader {
    TransferHeader {
        file_id: "f".to_string(),
        file_name: "x.bin".to_string(),
        file_size: size,
        range_start: start,
        range_end: end,
        file_hash: "h".to_string(),
    }
}

fn assert_tiles(r: &[(u64, u64)], size: u64) {
    if size == 0 {
        assert!(r.is_empty());
        return;
    }
    assert_eq!(r[0].0, 0);
    assert_eq!(r[r.len() - 1].1, size);
    for w in r.windows(2) {
        assert_eq!(w[0].1, w[1].0);
    }
    for x in r {
        assert!(x.0 < x.1);
    }
}

#[test]
fn five_mib_in_two_streams() {
    let r = plan_ranges(5 * 1024 * 1024, 64 * 1024, 2);
    assert_eq!(r, vec![(0, 2621440), (2621440, 5242880)]);
}

#[test]
fn plans_tile_the_file_for_each_stream_count() {
    for &streams in &[1u64, 2, 4, 8] {
        for &size in &[0u64, 1, 63, 64, 65, 1000, 4096, 5 * 1024 * 1024 + 7] {
            let r = plan_ranges(size, 64, streams);
            assert!(r.len() as u64 <= streams);
            assert_tiles(&r, size);
        }
    }
}

#[test]
fn small_file_uses_fewer_streams() {
    assert_eq!(plan_ranges(100, 64, 8), vec![(0, 64), (64, 100)]);
    assert_eq!(plan_ranges(10, 64, 4), vec![(0, 10)]);
    assert_eq!(plan_ranges(0, 64, 4), vec![]);
    assert_eq!(plan_ranges(u64::MAX, 1 << 62, 3), vec![(0, 1 << 63), (1 << 63, u64::MAX)]);
}

#[test]
fn range_keys() {
    assert_eq!(range_key(0, 10), "0-10");
    assert_eq!(range_key(2621440, 5242880), "2621440-5242880");
    assert_eq!(range_key(u64::MAX, 7), "18446744073709551615-7");
}

#[test]
fn duplicate_delivery_is_counted_once() {
    let mut rec = RangeRecord::new(50);
    let (_, first) = begin_range(&mut rec, &header(0, 50, 50)).unwrap();
    assert!(first);
    assert!(finish_range(&mut rec, 0, 50));
    let (_, first2) = begin_range(&mut rec, &header(0, 50, 50)).unwrap();
    assert!(!first2);
    assert!(finish_range(&mut rec, 0, 50));
    assert_eq!(rec.entries().len(), 1);
    assert_eq!(rec.entries()[0], ("0-50".to_string(), true));
}

#[test]
fn verification_waits_for_every_recorded_range() {
    let mut rec = RangeRecord::new(100);
    begin_range(&mut rec, &header(0, 50, 100)).unwrap();
    begin_range(&mut rec, &header(50, 100, 100)).unwrap();
    assert!(!rec.is_complete());
    assert!(!finish_range(&mut rec, 0, 50));
    let snapshot: std::collections::HashMap<String, bool> =
        serde_json::from_str(&rec.to_json()).unwrap();
    assert_eq!(snapshot.get("50-100"), Some(&false));
    assert_eq!(snapshot.get("0-50"), Some(&true));
    assert!(finish_range(&mut rec, 50, 100));
    assert!(rec.is_complete());
}

#[test]
fn verification_waits_for_ranges_not_yet_opened() {
    let mut rec = RangeRecord::new(10);
    begin_range(&mut rec, &header(0, 5, 10)).unwrap();
    assert!(!finish_range(&mut rec, 0, 5));
    begin_range(&mut rec, &header(5, 10, 10)).unwrap();
    assert!(finish_range(&mut rec, 5, 10));
}

#[test]
fn overlapping_ranges_cover_the_file() {
    let mut rec = RangeRecord::new(10);
    assert!(!finish_range(&mut rec, 4, 10));
    assert!(finish_range(&mut rec, 0, 6));
}

#[test]
fn empty_file_is_complete_at_once() {
    let rec = RangeRecord::new(0);
    assert!(rec.is_complete());
    assert!(rec.is_empty());
    assert_eq!(rec.file_size(), 0);
    assert!(!RangeRecord::new(3).is_complete());
}

#[test]
fn stored_record_reads_back() {
    let mut rec = RangeRecord::new(9);
    rec.mark(0, 5, true);
    rec.mark(5, 9, false);
    let back: std::collections::HashMap<String, bool> = serde_json::from_str(&rec.to_json()).unwrap();
    let mut e: Vec<(String, bool)> = back.into_iter().collect();
    e.sort();
    assert_eq!(e, vec![("0-5".to_string(), true), ("5-9".to_string(), false)]);
    assert_eq!(RangeRecord::new(1).to_json(), "{}");
}

#[test]
fn bad_ranges_are_rejected() {
    let mut rec = RangeRecord::new(100);
    assert!(matches!(begin_range(&mut rec, &header(9, 3, 100)), Err(TransferError::InvalidRange)));
    assert!(matches!(begin_range(&mut rec, &header(0, 20, 10)), Err(TransferError::InvalidRange)));
    assert!(rec.is_empty());
    assert!(begin_range(&mut rec, &header(0, 10, 10)).is_ok());
}

#[test]
fn range_copy_reports_positions_and_early_close() {
    let mut c = RangeCopy::new(100, 250).unwrap();
    assert_eq!(c.next_read_len(64), 64);
    assert_eq!(c.record_read(64), Ok(164));
    assert_eq!(c.record_read(64), Ok(228));
    assert_eq!(c.remaining(), 22);
    assert_eq!(c.next_read_len(64), 22);
    assert_eq!(c.record_read(0), Err(TransferError::ConnectionClosedEarly));
    assert_eq!(c.record_read(22), Ok(250));
    assert!(c.is_finished());
    assert_eq!(c.position(), 250);
    assert!(RangeCopy::new(5, 4).is_none());
    let mut empty = RangeCopy::new(7, 7).unwrap();
    assert_eq!(empty.record_read(0), Ok(7));
}

#[test]
fn buffer_pool_is_bounded_and_never_empty_handed() {
    let mut pool = BufferPool::new(16);
    assert_eq!(pool.available(), BUFFER_POOL_SIZE);
    let mut taken = Vec::new();
    for _ in 0..10 {
        let b = pool.take();
        assert_eq!(b, vec![0u8; 16]);
        taken.push(b);
    }
    assert_eq!(pool.available(), 0);
    for mut b in taken {
        b[0] = 7;
        b.push(1);
        pool.give_back(b);
    }
    assert_eq!(pool.available(), BUFFER_POOL_SIZE);
    assert_eq!(pool.take(), vec![0u8; 16]);
    assert_eq!(pool.chunk_size(), 16);
}

#[test]
fn whole_file_hash() {
    assert_eq!(
        file_hash(b"abc"),
        "ba7816bf8f01cfea414140de5dae2223b00361a396177a9cb410ff61f20015ad"
    );
    assert_eq!(
        file_hash(b""),
        "e3b0c44298fc1c149afbf4c8996fb92427ae41e4649b934ca495991b7852b855"
    );
    let good = "ba7816bf8f01cfea414140de5dae2223b00361a396177a9cb410ff61f20015ad".to_string();
    assert_eq!(verify_file(b"abc", &good), Ok(()));
    assert_eq!(verify_file(b"abd", &good), Err(TransferError::HashMismatch));
    assert_eq!(check_hash(&"a".to_string(), &"b".to_string()), Err(TransferError::HashMismatch));
}

#[test]
fn failures_are_joined() {
    assert_eq!(failure_summary(&vec![]), None);
    let f = vec![(0u64, "refused".to_string()), (3u64, "reset".to_string())];
    assert_eq!(
        failure_summary(&f),
        Some("Stream 0 failed: refused, Stream 3 failed: reset".to_string())
    );
}

#[test]
fn send_progress_counts_to_the_total() {
    let mut p = SendProgress::new(10);
    assert!(p.in_progress());
    p.add(4);
    p.add(6);
    assert_eq!(p.sent, 10);
    assert!(!p.in_progress());
    p.add(u64::MAX);
    assert_eq!(p.sent, u64::MAX);
}

#[test]
fn config_defaults() {
    let c = FileTransferConfig::with_receive_dir("/tmp/r".to_string());
    assert_eq!(c.chunk_size, 1024 * 1024);
    assert_eq!(c.port, 7879);
    assert_eq!(c.concurrent_streams, 4);
    assert_eq!(c.receive_dir, "/tmp/r");
    assert_ne!(TransferDirection::Send, TransferDirection::Receive);
}

#[test]
fn ranges_rebuild_the_file_in_any_order() {
    let content: Vec<u8> = (0..5000u32).map(|i| (i * 7 % 251) as u8).collect();
    for &streams in &[1u64, 2, 4, 8] {
        let plan = plan_ranges(content.len() as u64, 64, streams);
        let mut file = vec![0u8; content.len()];
        for &(start, end) in plan.iter().rev() {
            file[start as usize..end as usize].copy_from_slice(&content[start as usize..end as usize]);
        }
        let (s0, e0) = plan[0];
        file[s0 as usize..e0 as usize].copy_from_slice(&content[s0 as usize..e0 as usize]);
        assert_eq!(file, content);
        assert_eq!(file_hash(&file), file_hash(&content));
    }
}
