use videobackup::bits::{pack, unpack};
use videobackup::block::{content_of, BlockCodec, BlockError};
use videobackup::common::{zero_vec, BLOCK_SIZE, ENCODING_VERSION};
use videobackup::crc::{crc32, crc32_chunks, Crc32};
use videobackup::frame::{build_frame, prepare_build_image, read_frame, read_raw_frame};
use videobackup::metadata::{build_metadata_frame, encode_metadata, parse_metadata, read_metadata, Metadata};
use videobackup::palette::{bits_per_pixel, color_distance, palette, try_read_pixel};
use videobackup::raster::Raster;

fn sample(len: usize, seed: u64) -> Vec<u8> {
    let mut state = seed;
    let mut out = Vec::with_capacity(len);
    for _ in 0..len {
        state = state.wrapping_mul(6364136223846793005).wrapping_add(1442695040888963407);
        out.push((state >> 33) as u8);
    }
    out
}

#[test]
fn zero_vec_is_all_zero() {
    assert_eq!(zero_vec(0), Vec::<u8>::new());
    assert_eq!(zero_vec(5), vec![0u8, 0, 0, 0, 0]);
    assert_eq!(zero_vec(1024 * 1024).len(), 1024 * 1024);
}

#[test]
fn format_constants() {
    assert_eq!(BLOCK_SIZE, 128);
    assert_eq!(ENCODING_VERSION, 3);
    assert_eq!(videobackup::metadata::METADATA_SIZE, 250);
    assert_eq!(videobackup::metadata::HEADER_SIZE, 218);
    assert_eq!(videobackup::metadata::METADATA_ECC, 32);
    assert_eq!(videobackup::metadata::MAX_NAME_LEN, 200);
}

#[test]
fn pack_one_bit_most_significant_first() {
    assert_eq!(pack(&[0b1010_0110], 1), vec![1, 0, 1, 0, 0, 1, 1, 0]);
    assert_eq!(pack(&[0x80, 0x01], 1), vec![1, 0, 0, 0, 0, 0, 0, 0, 0, 0, 0, 0, 0, 0, 0, 1]);
    assert_eq!(pack(&[], 1), Vec::<u8>::new());
}

#[test]
fn pack_two_bits_most_significant_pair_first() {
    assert_eq!(pack(&[0b11_10_01_00], 2), vec![3, 2, 1, 0]);
    assert_eq!(pack(&[0x1B, 0xFF], 2), vec![0, 1, 2, 3, 3, 3, 3, 3]);
}

#[test]
fn unpack_joins_groups_and_drops_the_rest() {
    assert_eq!(unpack(&[1, 0, 1, 0, 0, 1, 1, 0], 1), vec![0b1010_0110]);
    assert_eq!(unpack(&[3, 2, 1, 0], 2), vec![0b11_10_01_00]);
    assert_eq!(unpack(&[1, 1, 1, 1, 1, 1, 1, 1, 1, 1, 1], 1), vec![0xFF]);
    assert_eq!(unpack(&[3, 3, 3], 2), Vec::<u8>::new());
    // Only the low bits of an index count.
    assert_eq!(unpack(&[3, 2, 1, 0, 0, 0, 0, 0], 1), vec![0b1010_0000]);
}

#[test]
fn bit_packing_involution() {
    let bytes: Vec<u8> = (0..=255u8).collect();
    assert_eq!(unpack(&pack(&bytes, 1), 1), bytes);
    assert_eq!(unpack(&pack(&bytes, 2), 2), bytes);
    let other = sample(1000, 1);
    assert_eq!(unpack(&pack(&other, 1), 1), other);
    assert_eq!(unpack(&pack(&other, 2), 2), other);
}

#[test]
fn palettes_of_the_format() {
    assert_eq!(palette(2), vec![[0, 0, 0], [255, 255, 255]]);
    assert_eq!(palette(4), vec![[0, 0, 0], [255, 0, 0], [0, 255, 0], [0, 0, 255]]);
    assert_eq!(bits_per_pixel(2), Some(1));
    assert_eq!(bits_per_pixel(4), Some(2));
    assert_eq!(bits_per_pixel(3), None);
    assert_eq!(bits_per_pixel(0), None);
    assert_eq!(bits_per_pixel(256), None);
}

#[test]
fn squared_distance_formula() {
    assert_eq!(color_distance([0, 0, 0], [255, 255, 255]), 195075);
    assert_eq!(color_distance([10, 20, 30], [13, 16, 30]), 9 + 16);
    assert_eq!(color_distance([1, 2, 3], [1, 2, 3]), 0);
    assert_eq!(color_distance([255, 0, 7], [0, 255, 0]), 65025 + 65025 + 49);
}

#[test]
fn palette_idempotence() {
    for colors in [2u16, 4] {
        let entries = palette(colors);
        for (i, entry) in entries.iter().enumerate() {
            assert_eq!(try_read_pixel(*entry, &entries), (i, true));
        }
    }
}

#[test]
fn snap_returns_the_nearest_entry() {
    let four = palette(4);
    assert_eq!(try_read_pixel([200, 30, 40], &four), (1, false));
    assert_eq!(try_read_pixel([30, 200, 40], &four), (2, false));
    assert_eq!(try_read_pixel([30, 40, 200], &four), (3, false));
    assert_eq!(try_read_pixel([30, 40, 50], &four), (0, false));
    let two = palette(2);
    assert_eq!(try_read_pixel([127, 127, 127], &two), (0, false));
    assert_eq!(try_read_pixel([128, 128, 128], &two), (1, false));
    assert_eq!(try_read_pixel([1, 0, 0], &two), (0, false));
}

#[test]
fn snap_breaks_ties_by_lower_index() {
    let four = palette(4);
    // Equally far from red, green and blue, and farther from black.
    assert_eq!(try_read_pixel([200, 200, 200], &four), (1, false));
    // Equally far from black and red.
    let entries = vec![[0, 0, 0], [254, 0, 0]];
    assert_eq!(try_read_pixel([127, 0, 0], &entries), (0, false));
    // The first of two equal entries wins.
    let twice = vec![[9, 9, 9], [9, 9, 9]];
    assert_eq!(try_read_pixel([9, 9, 9], &twice), (0, true));
}

#[test]
fn pixel_far_from_a_small_palette_still_snaps() {
    let single = vec![[0, 0, 0]];
    assert_eq!(try_read_pixel([255, 255, 255], &single), (0, false));
    let two = palette(2);
    assert_eq!(try_read_pixel([255, 0, 0], &two), (0, false));
    assert_eq!(try_read_pixel([0, 255, 255], &two), (1, false));
}

#[test]
fn crc32_known_values() {
    assert_eq!(crc32(b""), 0x0000_0000);
    assert_eq!(crc32(b"hello\n"), 0x363A_3020);
    assert_eq!(crc32(b"123456789"), 0xCBF4_3926);
}

#[test]
fn crc32_over_chunks_is_crc32_of_the_stream() {
    let data = sample(5000, 21);
    let chunks = vec![data[..1].to_vec(), Vec::new(), data[1..4096].to_vec(), data[4096..].to_vec()];
    assert_eq!(crc32_chunks(&chunks), crc32(&data));
    assert_eq!(crc32_chunks(&Vec::new()), 0);
    let mut running = Crc32::new();
    running.update(&data[..100]);
    running.update(&data[100..]);
    assert_eq!(running.finalize(), crc32(&data));
    assert_ne!(crc32(&data[..4999]), crc32(&data));
}

#[test]
fn block_encode_appends_the_parity() {
    let data: Vec<u8> = (0..30u8).collect();
    let codec = BlockCodec::new(38, 8);
    let block = codec.encode(&data);
    assert_eq!(block.len(), 38);
    assert_eq!(block[..30], data[..]);
    assert_eq!(block[30..], [99, 26, 219, 193, 9, 94, 186, 143]);
    assert_eq!(codec.content_bytes(), 30);
    assert_eq!(codec.block_bytes(), 38);
}

#[test]
fn block_round_trip_clean() {
    let codec = BlockCodec::new(128, 16);
    let content = sample(112, 2);
    let block = codec.encode(&content);
    let outcome = codec.decode(&block);
    assert_eq!(outcome, Ok((block.clone(), 0)));
    assert_eq!(content_of(&block, &outcome, 112), content);
}

#[test]
fn block_round_trip_with_errors_up_to_half_the_suffix() {
    for &ecc in [2usize, 4, 16, 32, 126].iter() {
        let codec = BlockCodec::new(128, ecc);
        let content = sample(128 - ecc, ecc as u64);
        let block = codec.encode(&content);
        for errors in 0..=(ecc / 2) {
            let mut received = block.clone();
            for k in 0..errors {
                let at = (k * 2 + 1) % 128;
                received[at] ^= 0x5A;
            }
            let outcome = codec.decode(&received);
            match &outcome {
                Ok((fixed, count)) => {
                    assert_eq!(fixed, &block);
                    assert_eq!(*count, errors);
                    assert!(*count <= ecc / 2);
                },
                Err(_) => panic!("{} errors must be corrected with {} suffix bytes", errors, ecc),
            }
            assert_eq!(content_of(&received, &outcome, 128 - ecc), content);
        }
    }
}

#[test]
fn block_beyond_repair_passes_its_content_prefix_through() {
    let codec = BlockCodec::new(128, 4);
    let content = sample(124, 77);
    let block = codec.encode(&content);
    let mut received = block.clone();
    for k in 0..8 {
        received[10 + 7 * k] ^= 0xFF;
    }
    let outcome = codec.decode(&received);
    assert_eq!(outcome, Err(BlockError::Unrecoverable));
    assert_eq!(content_of(&received, &outcome, 124), received[..124].to_vec());
}

#[test]
fn content_of_both_outcomes() {
    let block = vec![1u8, 2, 3, 4, 5, 6];
    let fixed = vec![9u8, 8, 7, 6, 5, 4];
    assert_eq!(content_of(&block, &Ok((fixed, 2)), 4), vec![9, 8, 7, 6]);
    assert_eq!(content_of(&block, &Err(BlockError::Unrecoverable), 4), vec![1, 2, 3, 4]);
    assert_eq!(content_of(&block, &Err(BlockError::Unrecoverable), 0), Vec::<u8>::new());
}

#[test]
fn raster_positions_are_row_major() {
    let pixels: Vec<[u8; 3]> = (0..6u8).map(|k| [k, k, k]).collect();
    let mut raster = Raster::new(3, 2, pixels.clone()).unwrap();
    assert_eq!(raster.width(), 3);
    assert_eq!(raster.height(), 2);
    assert_eq!(raster.pixel(0, 0), [0, 0, 0]);
    assert_eq!(raster.pixel(2, 0), [2, 2, 2]);
    assert_eq!(raster.pixel(0, 1), [3, 3, 3]);
    assert_eq!(raster.pixel(2, 1), [5, 5, 5]);
    raster.set_pixel(1, 1, [7, 8, 9]);
    assert_eq!(raster.pixels()[4], [7, 8, 9]);
    assert_eq!(raster.pixels()[3], [3, 3, 3]);
    assert!(Raster::new(3, 2, pixels[..5].to_vec()).is_none());
    assert!(Raster::new(usize::MAX, 2, pixels.clone()).is_none());
    assert!(Raster::new(0, 7, Vec::new()).is_some());
    let same = Raster::from_pixels(2, 3, pixels.clone());
    assert_eq!(same.pixel(1, 2), [5, 5, 5]);
}

#[test]
fn build_frame_paints_bits_and_pads_with_black() {
    let frame = build_frame(&[0b1100_0001], 4, 3, 2);
    let w = [255u8, 255, 255];
    let b = [0u8, 0, 0];
    assert_eq!(frame.pixels(), &vec![w, w, b, b, b, b, b, w, b, b, b, b]);
    assert_eq!(frame.pixel(3, 1), w);
    let four = build_frame(&[0b00_01_10_11], 3, 2, 4);
    assert_eq!(
        four.pixels(),
        &vec![[0, 0, 0], [255, 0, 0], [0, 255, 0], [0, 0, 255], [0, 0, 0], [0, 0, 0]]
    );
}

#[test]
fn read_raw_frame_counts_exact_and_estimated() {
    let mut frame = build_frame(&[0xA5, 0x3C], 5, 4, 2);
    let raw = read_raw_frame(&frame, 2);
    assert_eq!(raw.bytes, vec![0xA5, 0x3C]);
    assert_eq!((raw.exact_pixels, raw.estimated_pixels), (20, 0));
    assert_eq!((raw.width, raw.height), (5, 4));
    frame.set_pixel(0, 0, [250, 240, 230]);
    frame.set_pixel(1, 0, [130, 130, 130]);
    let raw = read_raw_frame(&frame, 2);
    assert_eq!(raw.bytes, vec![0xE5, 0x3C]);
    assert_eq!((raw.exact_pixels, raw.estimated_pixels), (18, 2));
}

#[test]
fn frame_of_blocks_round_trip() {
    let blocks: Vec<Vec<u8>> = (0..16).map(|j| sample(112, j)).collect();
    let content: Vec<u8> = blocks.concat();
    let frame = prepare_build_image(blocks.clone(), 128, 128, 2, 16);
    assert_eq!((frame.width(), frame.height()), (128, 128));
    let raw = read_raw_frame(&frame, 2);
    let codec = BlockCodec::new(128, 16);
    for (j, block) in blocks.iter().enumerate() {
        assert_eq!(raw.bytes[j * 128..(j + 1) * 128].to_vec(), codec.encode(block));
    }
    let report = read_frame(&frame, 2, 16, 16, 5);
    assert_eq!(report.content, content);
    assert_eq!((report.exact_pixels, report.estimated_pixels), (128 * 128, 0));
    assert_eq!((report.corrected, report.unrecoverable_blocks), (0, 0));
    assert!(report.damaged.is_empty());
}

#[test]
fn read_frame_reports_damage_with_its_byte_range() {
    let blocks: Vec<Vec<u8>> = (0..16).map(|j| sample(124, 100 + j)).collect();
    let mut frame = prepare_build_image(blocks.clone(), 128, 128, 2, 4);
    // Flip ten bytes of block 6 and one byte of block 9.
    for k in 0..10 {
        let byte = 6 * 128 + 3 + 11 * k;
        for bit in 0..8 {
            let pixel = byte * 8 + bit;
            let old = frame.pixel(pixel % 128, pixel / 128);
            frame.set_pixel(pixel % 128, pixel / 128, if old == [0, 0, 0] { [255, 255, 255] } else { [0, 0, 0] });
        }
    }
    let pixel = (9 * 128 + 50) * 8;
    let old = frame.pixel(pixel % 128, pixel / 128);
    frame.set_pixel(pixel % 128, pixel / 128, if old == [0, 0, 0] { [255, 255, 255] } else { [0, 0, 0] });
    let report = read_frame(&frame, 2, 4, 16, 7);
    assert_eq!(report.unrecoverable_blocks, 1);
    assert_eq!(report.corrected, 1);
    let base = 7u128 * 16 * 124;
    assert_eq!(report.damaged, vec![(base + 6 * 124, base + 7 * 124)]);
    assert_eq!(report.content.len(), 16 * 124);
    for (j, block) in blocks.iter().enumerate() {
        if j != 6 {
            assert_eq!(&report.content[j * 124..(j + 1) * 124], &block[..]);
        }
    }
}

#[test]
fn header_layout_byte_for_byte() {
    let meta = Metadata {
        encoding_version: 3,
        palette_size: 4,
        pixel_size: 1,
        payload_size: 0x0102_0304_0506_0708,
        payload_crc32: 0xDEAD_BEEF,
        ecc_bytes: 16,
        file_name: b"a.txt".to_vec(),
    };
    let block = encode_metadata(&meta).unwrap();
    assert_eq!(block.len(), 250);
    assert_eq!(block[0..2], [0, 3]);
    assert_eq!(block[2..4], [0, 4]);
    assert_eq!(block[4], 1);
    assert_eq!(block[5..13], [1, 2, 3, 4, 5, 6, 7, 8]);
    assert_eq!(block[13..17], [0xDE, 0xAD, 0xBE, 0xEF]);
    assert_eq!(block[17], 16);
    assert_eq!(block[18..23], *b"a.txt");
    assert!(block[23..218].iter().all(|b| *b == 0));
    let codec = BlockCodec::new(250, 32);
    assert_eq!(codec.encode(&block[..218]), block);
}

#[test]
fn header_round_trip() {
    let meta = Metadata {
        encoding_version: 3,
        palette_size: 2,
        pixel_size: 1,
        payload_size: u64::MAX - 5,
        payload_crc32: 0x0000_00FF,
        ecc_bytes: 126,
        file_name: "Übung\0mitte.bin".as_bytes().to_vec(),
    };
    let block = encode_metadata(&meta).unwrap();
    let parsed = parse_metadata(&block);
    assert_eq!(parsed.encoding_version, 3);
    assert_eq!(parsed.palette_size, 2);
    assert_eq!(parsed.pixel_size, 1);
    assert_eq!(parsed.payload_size, u64::MAX - 5);
    assert_eq!(parsed.payload_crc32, 0xFF);
    assert_eq!(parsed.ecc_bytes, 126);
    assert_eq!(parsed.file_name, meta.file_name);
}

#[test]
fn header_name_loses_only_trailing_zero_bytes() {
    let mut block = vec![0u8; 250];
    block[18..24].copy_from_slice(b"ab\0cd\0");
    assert_eq!(parse_metadata(&block).file_name, b"ab\0cd".to_vec());
    let empty = vec![0u8; 218];
    assert_eq!(parse_metadata(&empty).file_name, Vec::<u8>::new());
    let mut full = vec![0u8; 218];
    for b in full[18..218].iter_mut() {
        *b = b'z';
    }
    assert_eq!(parse_metadata(&full).file_name, vec![b'z'; 200]);
}

#[test]
fn header_restored_after_16_byte_errors() {
    let meta = Metadata {
        encoding_version: 3,
        palette_size: 4,
        pixel_size: 1,
        payload_size: 123456789,
        payload_crc32: 0x1234_5678,
        ecc_bytes: 16,
        file_name: b"archive.tar".to_vec(),
    };
    let block = encode_metadata(&meta).unwrap();
    let codec = BlockCodec::new(250, 32);
    for position in [0usize, 4, 17, 100, 217, 218, 249] {
        let mut received = block.clone();
        received[position] ^= 0x01;
        assert_eq!(codec.decode(&received), Ok((block.clone(), 1)));
    }
    let mut received = block.clone();
    for k in 0..16 {
        received[k * 15] ^= 0xA5;
    }
    assert_eq!(codec.decode(&received), Ok((block.clone(), 16)));

    let mut frame = build_metadata_frame(&meta, 64, 64).unwrap();
    for k in 0..16 {
        let byte = k * 15;
        for bit in 0..8 {
            let pixel = byte * 8 + bit;
            let old = frame.pixel(pixel % 64, pixel / 64);
            frame.set_pixel(pixel % 64, pixel / 64, if old == [0, 0, 0] { [255, 255, 255] } else { [0, 0, 0] });
        }
    }
    let read = read_metadata(&frame).unwrap();
    assert_eq!(read.payload_size, 123456789);
    assert_eq!(read.payload_crc32, 0x1234_5678);
    assert_eq!(read.file_name, b"archive.tar".to_vec());
    assert_eq!(read.palette_size, 4);
}
