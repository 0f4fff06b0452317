use videobackup::decode::{fit_payload, plan_batches, sort_by_index, DecodeRun, DecodeStep, Stats};
use videobackup::encode::{encode, encode_frame, frame_chunk, split_blocks, EncodeRun, EncodeStep};
use videobackup::error::EncodeError;
use videobackup::frame::read_frame;
use videobackup::layout::{blocks_per_frame, data_frames, layout, needed_frames, Layout};
use videobackup::metadata::Metadata;

#[test]
fn blocks_per_frame_formula() {
    assert_eq!(blocks_per_frame(128, 128, 2), 16);
    assert_eq!(blocks_per_frame(128, 128, 4), 32);
    assert_eq!(blocks_per_frame(3840, 2160, 2), 8100);
    assert_eq!(blocks_per_frame(3840, 2160, 4), 16200);
    assert_eq!(blocks_per_frame(50, 40, 2), 1);
    assert_eq!(blocks_per_frame(1023, 1, 2), 0);
    assert_eq!(blocks_per_frame(511, 1, 4), 0);
    assert_eq!(blocks_per_frame(2047, 1, 2), 1);
}

#[test]
fn layout_of_valid_parameters() {
    assert_eq!(
        layout(128, 128, 2, 16),
        Ok(Layout { blocks_per_frame: 16, content_bytes_per_block: 112, content_bytes_per_frame: 1792 })
    );
    assert_eq!(
        layout(3840, 2160, 4, 126),
        Ok(Layout { blocks_per_frame: 16200, content_bytes_per_block: 2, content_bytes_per_frame: 32400 })
    );
    assert_eq!(
        layout(2000, 1, 2, 1),
        Ok(Layout { blocks_per_frame: 1, content_bytes_per_block: 127, content_bytes_per_frame: 127 })
    );
}

#[test]
fn layout_names_what_is_wrong() {
    assert_eq!(layout(128, 128, 1, 16), Err(EncodeError::InvalidPalette));
    assert_eq!(layout(128, 128, 16, 0), Err(EncodeError::InvalidPalette));
    assert_eq!(layout(128, 128, 2, 0), Err(EncodeError::InvalidEccBytes));
    assert_eq!(layout(128, 128, 4, 127), Err(EncodeError::InvalidEccBytes));
    assert_eq!(layout(128, 128, 4, 255), Err(EncodeError::InvalidEccBytes));
    assert_eq!(layout(1999, 1, 2, 16), Err(EncodeError::InvalidFrameSize));
    assert_eq!(layout(0, 0, 2, 16), Err(EncodeError::InvalidFrameSize));
    assert_eq!(layout(usize::MAX, usize::MAX, 2, 16), Err(EncodeError::InvalidFrameSize));
}

#[test]
fn needed_frames_formula() {
    assert_eq!(data_frames(0, 1792), 1);
    assert_eq!(data_frames(1, 1792), 1);
    assert_eq!(data_frames(1792, 1792), 1);
    assert_eq!(data_frames(1793, 1792), 2);
    assert_eq!(data_frames(15872, 1792), 9);
    assert_eq!(needed_frames(0, 1792), 2);
    assert_eq!(needed_frames(6, 1792), 2);
    assert_eq!(needed_frames(15872, 1792), 10);
    assert_eq!(needed_frames(16128, 1792), 10);
    assert_eq!(needed_frames(16129, 1792), 11);
    assert_eq!(needed_frames(u64::MAX, 2), (1u64 << 63) + 1);
}

#[test]
fn frame_chunk_pads_behind_the_payload() {
    let payload = [1u8, 2, 3, 4, 5, 6, 7];
    assert_eq!(frame_chunk(&payload, 0, 3), vec![1, 2, 3]);
    assert_eq!(frame_chunk(&payload, 1, 3), vec![4, 5, 6]);
    assert_eq!(frame_chunk(&payload, 2, 3), vec![7, 0, 0]);
    assert_eq!(frame_chunk(&payload, 1, 7), vec![0, 0, 0, 0, 0, 0, 0]);
    assert_eq!(frame_chunk(&[], 0, 4), vec![0, 0, 0, 0]);
    assert_eq!(frame_chunk(&payload, 7, 0), Vec::<u8>::new());
}

#[test]
fn split_blocks_cuts_consecutive_pieces() {
    let content = [1u8, 2, 3, 4, 5, 6, 7];
    assert_eq!(split_blocks(&content, 2, 3), vec![vec![1, 2], vec![3, 4], vec![5, 6]]);
    assert_eq!(split_blocks(&content, 7, 1), vec![content.to_vec()]);
    assert_eq!(split_blocks(&content, 3, 0), Vec::<Vec<u8>>::new());
}

#[test]
fn frames_come_in_the_order_of_the_payload() {
    let payload: Vec<u8> = (0..6000u32).map(|k| (k % 251) as u8).collect();
    let frames = encode(&payload, b"order", 128, 128, 2, 16).unwrap();
    let geometry = layout(128, 128, 2, 16).unwrap();
    assert_eq!(frames.len(), 5);
    for index in 0..4 {
        let report = read_frame(&frames[index + 1], 2, 16, 16, index as u64);
        let start = index * 1792;
        let mut expected = payload[start..(start + 1792).min(6000)].to_vec();
        expected.resize(1792, 0);
        assert_eq!(report.content, expected);
        let alone = encode_frame(&payload, index, geometry, 128, 128, 2, 16);
        assert_eq!(alone.pixels(), frames[index + 1].pixels());
    }
}

#[test]
fn sort_by_index_orders_a_batch() {
    let items = vec![(7u64, "h"), (3, "d"), (5, "f"), (4, "e"), (6, "g")];
    let sorted = sort_by_index(items);
    assert_eq!(sorted, vec![(3, "d"), (4, "e"), (5, "f"), (6, "g"), (7, "h")]);
    assert_eq!(sort_by_index(Vec::<(u64, u8)>::new()), Vec::new());
    assert_eq!(sort_by_index(vec![(9u64, 1u8)]), vec![(9, 1)]);
    let mut repeated = sort_by_index(vec![(2u64, 'b'), (1, 'a'), (2, 'c'), (0, 'z')]);
    assert_eq!(repeated.iter().map(|item| item.0).collect::<Vec<u64>>(), vec![0, 1, 2, 2]);
    repeated.sort();
    assert_eq!(repeated, vec![(0, 'z'), (1, 'a'), (2, 'b'), (2, 'c')]);
}

#[test]
fn fit_payload_cuts_or_pads() {
    assert_eq!(fit_payload(vec![1, 2, 3, 4], 2), vec![1, 2]);
    assert_eq!(fit_payload(vec![1, 2, 3, 4], 4), vec![1, 2, 3, 4]);
    assert_eq!(fit_payload(vec![1, 2, 3, 4], 6), vec![1, 2, 3, 4, 0, 0]);
    assert_eq!(fit_payload(vec![1, 2, 3, 4], 0), Vec::<u8>::new());
    assert_eq!(fit_payload(Vec::new(), 3), vec![0, 0, 0]);
}

#[test]
fn plan_batches_covers_the_data_frames() {
    assert_eq!(plan_batches(10, 4), vec![(1, 4), (5, 4), (9, 1)]);
    assert_eq!(plan_batches(9, 4), vec![(1, 4), (5, 4)]);
    assert_eq!(plan_batches(2, 8), vec![(1, 1)]);
    assert_eq!(plan_batches(1, 8), Vec::<(u64, u64)>::new());
    assert_eq!(plan_batches(6, 1), vec![(1, 1), (2, 1), (3, 1), (4, 1), (5, 1)]);
    assert_eq!(plan_batches(8, 7), vec![(1, 7)]);
    assert_eq!(plan_batches(9, 7), vec![(1, 7), (8, 1)]);
}

#[test]
fn stats_sum_the_reports() {
    let frames = encode(&[7u8; 3000], b"s", 128, 128, 2, 16).unwrap();
    let mut stats = Stats::new();
    assert_eq!((stats.frames(), stats.exact_pixels(), stats.corrected()), (0, 0, 0));
    let mut first = frames[1].clone();
    first.set_pixel(0, 0, [1, 2, 3]);
    first.set_pixel(9, 0, [250, 250, 250]);
    let report = read_frame(&first, 2, 16, 16, 0);
    stats.absorb(&report);
    let report = read_frame(&frames[2], 2, 16, 16, 1);
    stats.absorb(&report);
    assert_eq!(stats.frames(), 2);
    assert_eq!(stats.exact_pixels(), 2 * 128 * 128 - 2);
    assert_eq!(stats.estimated_pixels(), 2);
    assert_eq!(stats.corrected(), 1);
    assert_eq!(stats.unrecoverable_blocks(), 0);
}

#[test]
fn encode_run_of_a_short_payload() {
    let mut run = EncodeRun::new(1792, 4);
    assert_eq!(run.metadata_emitted(), EncodeStep::ReadBatch { bytes: 7168 });
    assert_eq!(run.batch_read(6), EncodeStep::EmitFrames { first: 0, count: 1, last: true });
}

#[test]
fn encode_run_of_an_empty_payload_emits_one_frame() {
    let mut run = EncodeRun::new(1792, 4);
    run.metadata_emitted();
    assert_eq!(run.batch_read(0), EncodeStep::EmitFrames { first: 0, count: 1, last: true });
}

#[test]
fn encode_run_over_several_batches() {
    let mut run = EncodeRun::new(1792, 4);
    run.metadata_emitted();
    assert_eq!(run.batch_read(7168), EncodeStep::EmitFrames { first: 0, count: 4, last: false });
    assert_eq!(run.batch_read(7168), EncodeStep::EmitFrames { first: 4, count: 4, last: false });
    assert_eq!(run.batch_read(1793), EncodeStep::EmitFrames { first: 8, count: 2, last: true });
}

#[test]
fn encode_run_adds_no_frame_after_whole_batches() {
    let mut run = EncodeRun::new(1792, 2);
    run.metadata_emitted();
    assert_eq!(run.batch_read(3584), EncodeStep::EmitFrames { first: 0, count: 2, last: false });
    assert_eq!(run.batch_read(0), EncodeStep::EmitFrames { first: 2, count: 0, last: true });
    let mut run = EncodeRun::new(1792, 4);
    run.metadata_emitted();
    assert_eq!(run.batch_read(3584), EncodeStep::EmitFrames { first: 0, count: 2, last: true });
}

#[test]
fn decode_run_follows_the_plan() {
    let meta = Metadata {
        encoding_version: 3,
        palette_size: 2,
        pixel_size: 1,
        payload_size: 15872,
        payload_crc32: 0xABCD_EF01,
        ecc_bytes: 16,
        file_name: b"n".to_vec(),
    };
    let mut run = DecodeRun::new(10, 4);
    let mut steps = vec![run.metadata_read(&meta)];
    while let DecodeStep::ExtractBatch { .. } = steps[steps.len() - 1] {
        steps.push(run.batch_done());
    }
    assert_eq!(
        steps,
        vec![
            DecodeStep::ExtractBatch { start: 1, count: 4 },
            DecodeStep::ExtractBatch { start: 5, count: 4 },
            DecodeStep::ExtractBatch { start: 9, count: 1 },
            DecodeStep::Truncate { length: 15872 },
        ]
    );
    let planned: Vec<DecodeStep> =
        plan_batches(10, 4).iter().map(|b| DecodeStep::ExtractBatch { start: b.0, count: b.1 }).collect();
    assert_eq!(steps[..3], planned[..]);
    assert_eq!(run.truncated(), DecodeStep::VerifyChecksum { expected: 0xABCD_EF01 });
    assert!(!run.verified(0xABCD_EF00));
    let mut again = DecodeRun::new(1, 4);
    assert_eq!(again.metadata_read(&meta), DecodeStep::Truncate { length: 15872 });
    assert!(again.verified(0xABCD_EF01));
}

#[test]
fn streamed_batches_make_the_frames_of_the_whole_payload() {
    for &len in [0usize, 1, 1792, 5376, 5377, 10000, 10752].iter() {
        let payload: Vec<u8> = (0..len).map(|k| (k * 31 % 253) as u8).collect();
        let whole = encode(&payload, b"stream", 128, 128, 2, 16).unwrap();
        let geometry = layout(128, 128, 2, 16).unwrap();
        let mut run = EncodeRun::new(geometry.content_bytes_per_frame, 3);
        let capacity = match run.metadata_emitted() {
            EncodeStep::ReadBatch { bytes } => bytes,
            _ => unreachable!(),
        };
        assert_eq!(capacity, 5376);
        let mut offset = 0;
        let mut emitted = 0;
        loop {
            let n = (len - offset).min(capacity);
            let mut buffer = vec![0u8; capacity];
            buffer[..n].copy_from_slice(&payload[offset..offset + n]);
            offset += n;
            match run.batch_read(n) {
                EncodeStep::EmitFrames { first, count, last } => {
                    assert_eq!(first, emitted);
                    for k in 0..count {
                        let chunk = frame_chunk(&buffer, k, geometry.content_bytes_per_frame);
                        let blocks = split_blocks(&chunk, geometry.content_bytes_per_block, geometry.blocks_per_frame);
                        let frame = videobackup::frame::prepare_build_image(blocks, 128, 128, 2, 16);
                        assert_eq!(frame.pixels(), whole[(first as usize) + k + 1].pixels());
                    }
                    emitted += count as u64;
                    if last {
                        break;
                    }
                },
                _ => unreachable!(),
            }
        }
        assert_eq!(emitted as usize + 1, whole.len());
        assert_eq!(emitted + 1, needed_frames(len as u64, geometry.content_bytes_per_frame));
    }
}
