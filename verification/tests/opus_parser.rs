use omi_persona::opus_parser::{
    is_valid_toc, segment_frames, OpusFrame, OpusFrameIter, ParseStats, ReadAction, ReadOutcome,
    FRAMES_PER_SEGMENT, MAX_FRAME_LEN, VALID_TOC_BYTES,
};

fn make_frame(toc: u8, body_len: usize) -> Vec<u8> {
    let mut f = vec![(body_len + 1) as u8, toc];
    f.extend(std::iter::repeat(0xAA).take(body_len));
    f
}

/// Parses a dump in chunks of the given size, up to its end.
fn parse_in_chunks(blob: &[u8], chunk: usize) -> (Vec<OpusFrame>, ParseStats) {
    let mut iter = OpusFrameIter::new();
    let mut frames = Vec::new();
    for part in blob.chunks(chunk) {
        assert_eq!(iter.on_read(ReadOutcome::Data(part.to_vec())), ReadAction::Parse);
        while let Some(f) = iter.next() {
            frames.push(f);
        }
        assert!(iter.needs_input());
    }
    assert_eq!(iter.on_read(ReadOutcome::Eof), ReadAction::End);
    (frames, iter.stats())
}

fn parse(blob: &[u8]) -> (Vec<OpusFrame>, ParseStats) {
    parse_in_chunks(blob, 64 * 1024)
}

fn ok_items(frames: Vec<OpusFrame>) -> Vec<Result<OpusFrame, String>> {
    frames.into_iter().map(Ok).collect()
}

#[test]
fn parses_wellformed_frames() {
    let mut blob = Vec::new();
    for &toc in &VALID_TOC_BYTES {
        blob.extend(make_frame(toc, 60));
    }
    let (frames, _) = parse(&blob);
    assert_eq!(frames.len(), 7);
    assert_eq!(frames[0].toc(), 0xb8);
    assert_eq!(frames[0].data.len(), 61);
}

#[test]
fn skips_zero_padding() {
    let mut blob = Vec::new();
    blob.extend(make_frame(0xb8, 50));
    blob.extend([0u8; 17]); // padding
    blob.extend(make_frame(0xfc, 40));
    let (frames, _) = parse(&blob);
    assert_eq!(frames.len(), 2);
    assert_eq!(frames[1].toc(), 0xfc);
    assert_eq!(frames[1].offset, 52 + 17);
}

#[test]
fn skips_bad_toc() {
    let mut blob = Vec::new();
    blob.extend(make_frame(0xb8, 50));
    // corrupt frame: valid length, invalid TOC
    blob.push(10u8); // len
    blob.push(0x00); // bad TOC
    blob.extend([0xFFu8; 9]);
    blob.extend(make_frame(0x78, 30));
    let (frames, stats) = parse(&blob);
    assert_eq!(frames.len(), 2);
    assert_eq!(stats.frames_skipped_bad_toc, 1);
    assert_eq!(stats.frames_ok, 2);
}

#[test]
fn skips_bad_length() {
    let mut blob = Vec::new();
    blob.extend(make_frame(0xb8, 50));
    // corrupt: length > MAX_FRAME_LEN → parser skips that many bytes
    blob.push(200u8);
    blob.extend([0x55u8; 200]);
    blob.extend(make_frame(0x7c, 20));
    let (frames, stats) = parse(&blob);
    assert_eq!(frames.len(), 2);
    assert_eq!(stats.frames_skipped_bad_len, 1);
}

#[test]
fn handles_truncated_final_frame() {
    let mut blob = Vec::new();
    blob.extend(make_frame(0xb8, 50));
    blob.push(80u8); // length says 80
    blob.extend([0xb0u8; 10]); // but only 10 bytes remain
    let (frames, stats) = parse(&blob);
    assert_eq!(frames.len(), 1); // truncated frame silently dropped
    assert_eq!(stats.bytes_read, blob.len() as u64);
}

#[test]
fn segments_correctly() {
    let mut blob = Vec::new();
    for _ in 0..250 {
        blob.extend(make_frame(0xb8, 60));
    }
    let (frames, _) = parse(&blob);
    let segs = segment_frames(ok_items(frames), 100);
    assert_eq!(segs.len(), 3);
    assert_eq!(segs[0].frames.len(), 100);
    assert_eq!(segs[1].frames.len(), 100);
    assert_eq!(segs[2].frames.len(), 50);
    assert_eq!(segs[0].start_offset, 0);
    // Each frame is 62 bytes on wire (1 len + 61 body)
    assert_eq!(segs[1].start_offset, 100 * 62);
}

#[test]
fn handles_10k_frames_fixture() {
    let toc_pool = VALID_TOC_BYTES;
    let mut blob = Vec::new();
    for i in 0..10_000 {
        let fl = 60 + (i % 21); // 60..80 bytes
        blob.push(fl as u8);
        blob.push(toc_pool[i % toc_pool.len()]);
        blob.extend(std::iter::repeat((i & 0xFF) as u8).take(fl - 1));
    }
    let (frames, stats) = parse(&blob);
    let count = frames.len();
    assert_eq!(count, 10_000);
    assert_eq!(stats.frames_ok, 10_000);
    assert_eq!(stats.frames_skipped_bad_len, 0);
    assert_eq!(stats.frames_skipped_bad_toc, 0);
}

#[test]
fn toc_bytes() {
    let valid: Vec<u8> = (0..=255u8).filter(|&b| is_valid_toc(b)).collect();
    assert_eq!(valid, vec![0x78, 0x7c, 0xb0, 0xb8, 0xbc, 0xf8, 0xfc]);
}

#[test]
fn chunking_does_not_matter() {
    let mut blob = Vec::new();
    blob.extend(make_frame(0xb8, 3));
    blob.extend([0u8; 5]);
    blob.push(161);
    blob.extend([7u8; 161]);
    blob.extend(make_frame(0x01, 4)); // bad TOC
    blob.extend(make_frame(0x7c, 159)); // longest frame
    blob.push(255);
    blob.extend([1u8; 20]); // cut short
    let (whole, whole_stats) = parse(&blob);
    assert_eq!(whole.len(), 2);
    assert_eq!(whole[1].data.len(), MAX_FRAME_LEN as usize);
    assert_eq!(whole[1].offset, 5 + 5 + 162 + 6);
    for chunk in [1, 2, 3, 7, 64, 200] {
        let (frames, stats) = parse_in_chunks(&blob, chunk);
        assert_eq!(stats, whole_stats);
        assert_eq!(frames.len(), whole.len());
        for (a, b) in frames.iter().zip(whole.iter()) {
            assert_eq!(a.data, b.data);
            assert_eq!(a.offset, b.offset);
        }
    }
    assert_eq!(
        whole_stats,
        ParseStats {
            bytes_read: blob.len() as u64,
            frames_ok: 2,
            frames_skipped_bad_len: 2,
            frames_skipped_bad_toc: 1,
        }
    );
}

#[test]
fn every_record_is_kept_or_counted() {
    let mut blob = Vec::new();
    for i in 0..500usize {
        let len = 1 + (i * 37) % 255;
        blob.push(len as u8);
        blob.push(if i % 3 == 0 { 0x11 } else { VALID_TOC_BYTES[i % 7] });
        blob.extend(std::iter::repeat(i as u8).take(len - 1));
        blob.extend(std::iter::repeat(0u8).take(i % 4));
    }
    let (frames, stats) = parse(&blob);
    assert_eq!(frames.len() as u64, stats.frames_ok);
    assert_eq!(
        stats.frames_ok + stats.frames_skipped_bad_len + stats.frames_skipped_bad_toc,
        500
    );
    assert_eq!(stats.bytes_read, blob.len() as u64);
}

#[test]
fn read_errors_drop_the_unfinished_frame() {
    let mut iter = OpusFrameIter::new();
    assert_eq!(iter.on_read(ReadOutcome::Data(vec![10, 0xb8, 1, 2])), ReadAction::Parse);
    assert!(iter.next().is_none());
    assert_eq!(iter.on_read(ReadOutcome::Interrupted), ReadAction::Retry);
    assert_eq!(iter.on_read(ReadOutcome::Failed), ReadAction::Fail);
    assert_eq!(iter.on_read(ReadOutcome::Data(vec![2, 0xfc, 9])), ReadAction::Parse);
    let f = iter.next().unwrap();
    assert_eq!((f.data, f.offset), (vec![0xfc, 9], 4));
    assert_eq!(iter.on_read(ReadOutcome::Data(Vec::new())), ReadAction::End);
    assert_eq!(iter.stats().bytes_read, 7);
    assert_eq!(ParseStats::default().bytes_read, 0);
}

#[test]
fn interrupted_reads_keep_the_unfinished_frame() {
    let mut iter = OpusFrameIter::new();
    iter.on_read(ReadOutcome::Data(vec![3, 0xb8]));
    assert!(iter.next().is_none());
    iter.on_read(ReadOutcome::Interrupted);
    iter.on_read(ReadOutcome::Data(vec![1, 2]));
    assert_eq!(iter.next().unwrap().data, vec![0xb8, 1, 2]);
}

#[test]
fn segments_stop_at_the_first_error_and_start_where_frames_do() {
    let mut blob = vec![0u8; 9];
    blob.extend(make_frame(0xb8, 1));
    blob.extend([0u8; 4]);
    blob.extend(make_frame(0xb8, 2));
    blob.extend(make_frame(0xb8, 3));
    let (frames, _) = parse(&blob);
    let mut items = ok_items(frames.clone());
    items.push(Err("read failed".to_string()));
    items.extend(ok_items(frames));
    let segs = segment_frames(items, 2);
    assert_eq!(segs.len(), 2);
    assert_eq!((segs[0].frames.len(), segs[0].start_offset), (2, 9));
    assert_eq!((segs[1].frames.len(), segs[1].start_offset), (1, 9 + 3 + 4 + 4));
}

#[test]
fn segments_of_no_frames_hold_one_each() {
    let mut blob = Vec::new();
    for _ in 0..3 {
        blob.extend(make_frame(0xb8, 1));
    }
    let (frames, _) = parse(&blob);
    assert_eq!(segment_frames(ok_items(frames.clone()), 0).len(), 3);
    assert_eq!(segment_frames(ok_items(frames), FRAMES_PER_SEGMENT).len(), 1);
    assert!(segment_frames(ok_items(Vec::new()), 5).is_empty());
}

/// A dump padded to blocks of 512 bytes, frames never crossing a block.
#[test]
fn parses_512_byte_blocks() {
    let mut blob: Vec<u8> = Vec::new();
    let mut offsets = Vec::new();
    for i in 0..2000usize {
        let frame = make_frame(VALID_TOC_BYTES[i % 7], 59 + i % 21);
        let left = 512 - blob.len() % 512;
        if frame.len() > left {
            blob.extend(std::iter::repeat(0u8).take(left));
        }
        offsets.push(blob.len() as u64);
        blob.extend(frame);
    }
    let (frames, stats) = parse_in_chunks(&blob, 4096);
    assert_eq!(frames.iter().map(|f| f.offset).collect::<Vec<_>>(), offsets);
    assert_eq!(stats.bytes_read, blob.len() as u64);
    let segs = segment_frames(ok_items(frames), 600);
    assert_eq!(segs.len(), 4);
    assert_eq!(segs[3].frames.len(), 200);
    assert_eq!(segs[2].start_offset, offsets[1200]);
}

#[test]
fn written_frames_come_back_and_segments_join_to_them() {
    let mut blob = Vec::new();
    let mut written: Vec<(Vec<u8>, u64)> = Vec::new();
    for i in 0..137usize {
        let mut data = vec![VALID_TOC_BYTES[(i * 3) % 7]];
        data.extend((0..(i * 11) % 160).map(|j| (i + j) as u8));
        written.push((data.clone(), blob.len() as u64));
        blob.push(data.len() as u8);
        blob.extend(data);
        blob.extend(std::iter::repeat(0u8).take((i * 5) % 9));
    }
    let (frames, stats) = parse_in_chunks(&blob, 100);
    let read: Vec<(Vec<u8>, u64)> = frames.iter().map(|f| (f.data.clone(), f.offset)).collect();
    assert_eq!(read, written);
    assert_eq!((stats.frames_skipped_bad_len, stats.frames_skipped_bad_toc), (0, 0));
    let joined: Vec<(Vec<u8>, u64)> = segment_frames(ok_items(frames), 25)
        .into_iter()
        .flat_map(|s| s.frames)
        .map(|f| (f.data, f.offset))
        .collect();
    assert_eq!(joined, written);
}
