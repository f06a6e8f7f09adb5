use lele_download::chunks::{
    accepts_byte_ranges, chunk_action, chunk_len, chunked_outcome, effective_resume, may_start,
    plan_chunks, probe_usable, progress_finished, range_header, resume_range_header, retry_delay_ms,
    single_total_size, use_single_stream, chunk_reply_ok, content_range_total, probe_total_size,
    ChunkAction, ChunkRange, ChunkedOutcome,
};

fn assert_tiles(total: u64, threads: usize) {
    let plan = plan_chunks(total, threads);
    assert!(plan.len() <= threads);
    if total == 0 {
        assert!(plan.is_empty());
        return;
    }
    assert_eq!(plan[0].start, 0);
    assert_eq!(plan[plan.len() - 1].end, total - 1);
    for (i, c) in plan.iter().enumerate() {
        assert_eq!(c.index, i);
        assert!(c.start <= c.end);
        if i + 1 < plan.len() {
            assert_eq!(plan[i + 1].start, c.end + 1);
        }
    }
    let sum: u64 = plan.iter().map(|c| c.end - c.start + 1).sum();
    assert_eq!(sum, total);
}

#[test]
fn plan_splits_evenly() {
    let plan = plan_chunks(16 * 1024 * 1024, 16);
    assert_eq!(plan.len(), 16);
    assert_eq!(plan[0], ChunkRange { index: 0, start: 0, end: 1024 * 1024 - 1 });
    assert_eq!(plan[15].end, 16 * 1024 * 1024 - 1);
}

#[test]
fn plan_uses_minimum_chunk_size() {
    // 600 KiB with 16 threads: 256 KiB chunks, only three of them used
    let plan = plan_chunks(600 * 1024, 16);
    assert_eq!(plan.len(), 3);
    assert_eq!(plan[1], ChunkRange { index: 1, start: 262144, end: 524287 });
    assert_eq!(plan[2], ChunkRange { index: 2, start: 524288, end: 600 * 1024 - 1 });
}

#[test]
fn plan_last_slot_takes_remainder() {
    let plan = plan_chunks(10 * 1024 * 1024 + 7, 3);
    assert_eq!(plan.len(), 3);
    assert_eq!(plan[2].end, 10 * 1024 * 1024 + 6);
}

#[test]
fn plan_tiles_many_sizes() {
    for threads in 1..=32usize {
        for total in [0u64, 1, 2, 262143, 262144, 262145, 524288, 1000000, 8388608, 123456789, 9999999999] {
            assert_tiles(total, threads);
        }
    }
}

#[test]
fn chunk_resume_actions() {
    let c = ChunkRange { index: 2, start: 1000, end: 1999 };
    assert_eq!(chunk_len(c), 1000);
    assert_eq!(chunk_action(c, 0), ChunkAction::Fetch { range_start: 1000 });
    assert_eq!(chunk_action(c, 250), ChunkAction::Fetch { range_start: 1250 });
    assert_eq!(chunk_action(c, 1000), ChunkAction::Complete { truncate_to: None });
    assert_eq!(chunk_action(c, 1500), ChunkAction::Complete { truncate_to: Some(1000) });
}

#[test]
fn range_headers() {
    assert_eq!(range_header(0, 0), "bytes=0-0");
    assert_eq!(range_header(1250, 1999), "bytes=1250-1999");
    assert_eq!(resume_range_header(0), None);
    assert_eq!(resume_range_header(4096), Some("bytes=4096-".to_string()));
    assert_eq!(range_header(u64::MAX - 1, u64::MAX), format!("bytes={}-{}", u64::MAX - 1, u64::MAX));
}

#[test]
fn single_stream_decisions() {
    assert_eq!(effective_resume(4096, 206), 4096);
    assert_eq!(effective_resume(4096, 200), 0);
    assert_eq!(effective_resume(0, 200), 0);
    assert_eq!(single_total_size(Some(100), 50), 150);
    assert_eq!(single_total_size(None, 50), 0);
    assert!(use_single_stream(false, 10 * 1024 * 1024));
    assert!(use_single_stream(true, 512 * 1024 - 1));
    assert!(!use_single_stream(true, 512 * 1024));
    assert!(accepts_byte_ranges(Some("bytes")));
    assert!(!accepts_byte_ranges(Some("none")));
    assert!(!accepts_byte_ranges(Some("Bytes")));
    assert!(!accepts_byte_ranges(None));
    assert!(probe_usable(200));
    assert!(probe_usable(206));
    assert!(!probe_usable(405));
    assert!(!probe_usable(302));
}

#[test]
fn multipart_endings() {
    assert_eq!(chunked_outcome(true, true), ChunkedOutcome::Interrupted);
    assert_eq!(chunked_outcome(true, false), ChunkedOutcome::Interrupted);
    assert_eq!(chunked_outcome(false, true), ChunkedOutcome::Merge);
    assert_eq!(chunked_outcome(false, false), ChunkedOutcome::Fail);
    assert!(progress_finished(10, 10));
    assert!(!progress_finished(9, 10));
    assert!(!progress_finished(0, 0));
}

#[test]
fn retry_and_concurrency() {
    assert_eq!(retry_delay_ms(0, 3), Some(500));
    assert_eq!(retry_delay_ms(2, 3), Some(1500));
    assert_eq!(retry_delay_ms(3, 3), None);
    assert!(may_start(2, 3));
    assert!(!may_start(3, 3));
    assert!(may_start(0, 0));
    assert!(!may_start(1, 0));
}

#[test]
fn plan_slots_and_bounds() {
    // 1,000,000 bytes over 16 slots: chunks of 262,144 bytes, four of them used
    let plan = plan_chunks(1_000_000, 16);
    assert_eq!(plan.len(), 4);
    for (i, c) in plan.iter().enumerate() {
        let i = i as u64;
        assert_eq!(c.start, i * 262_144);
        assert_eq!(c.end, ((i + 1) * 262_144 - 1).min(999_999));
    }
    assert_eq!(plan[3], ChunkRange { index: 3, start: 786_432, end: 999_999 });
}

#[test]
fn probe_size_from_content_range() {
    assert_eq!(content_range_total("bytes 0-0/12345"), Some(12345));
    assert_eq!(content_range_total("bytes */777"), Some(777));
    assert_eq!(content_range_total("bytes 0-0/*"), None);
    assert_eq!(content_range_total("bytes 0-0"), None);
    assert_eq!(content_range_total("bytes 0-0/"), None);
    assert_eq!(content_range_total("bytes 0-0/12a"), None);
    assert_eq!(content_range_total("bytes 0-0/18446744073709551615"), Some(u64::MAX));
    assert_eq!(content_range_total("bytes 0-0/18446744073709551616"), None);
    // a `Range: bytes=0-0` reply carries one byte but names the whole size
    assert_eq!(probe_total_size(Some(1), Some("bytes 0-0/1048576")), 1_048_576);
    assert_eq!(probe_total_size(Some(5000), None), 5000);
    assert_eq!(probe_total_size(Some(1), Some("bytes 0-0/*")), 1);
    assert_eq!(probe_total_size(None, None), 0);
}

#[test]
fn chunk_replies_must_be_partial() {
    assert_eq!(chunk_reply_ok(206, "206 Partial Content"), Ok(()));
    assert_eq!(
        chunk_reply_ok(200, "200 OK"),
        Err("分片下载未获得 206 响应 (status=200 OK)，无法多线程拼接".to_string())
    );
    assert!(chunk_reply_ok(416, "416 Range Not Satisfiable").is_err());
}
