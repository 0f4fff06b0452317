use videobackup::decode::decode;
use videobackup::encode::encode;
use videobackup::error::{DecodeError, EncodeError};
use videobackup::metadata::{build_metadata_frame, Metadata};
use videobackup::raster::Raster;

fn pseudo_random(len: usize, seed: u64) -> Vec<u8> {
    let mut state = seed;
    let mut out = Vec::with_capacity(len);
    for _ in 0..len {
        state = state.wrapping_mul(6364136223846793005).wrapping_add(1442695040888963407);
        out.push((state >> 33) as u8);
    }
    out
}

fn invert_byte(frame: &mut Raster, byte_index: usize) {
    let width = frame.width();
    for bit in 0..8 {
        let pixel = byte_index * 8 + bit;
        let (x, y) = (pixel % width, pixel / width);
        let old = frame.pixel(x, y);
        let new = if old == [0, 0, 0] { [255, 255, 255] } else { [0, 0, 0] };
        frame.set_pixel(x, y, new);
    }
}

#[test]
fn tiny_text_round_trip() {
    let payload = b"hello\n";
    let frames = encode(payload, b"hello.txt", 128, 128, 2, 16).unwrap();
    assert_eq!(frames.len(), 2);
    let decoded = decode(&frames).unwrap();
    assert_eq!(decoded.payload.len(), 6);
    assert_eq!(decoded.payload, vec![0x68, 0x65, 0x6C, 0x6C, 0x6F, 0x0A]);
    assert_eq!(decoded.metadata.payload_crc32, 0x363A3020);
    assert_eq!(decoded.metadata.payload_size, 6);
    assert_eq!(decoded.metadata.file_name, b"hello.txt".to_vec());
    assert!(decoded.checksum_ok);
}

#[test]
fn exact_multiple_payload() {
    let payload = vec![0xABu8; 15872];
    let frames = encode(&payload, b"ab.bin", 128, 128, 2, 16).unwrap();
    assert_eq!(frames.len(), 10);
    let decoded = decode(&frames).unwrap();
    assert_eq!(decoded.payload, payload);
    assert!(decoded.checksum_ok);
    assert_eq!(decoded.stats.frames(), 9);
}

#[test]
fn payload_of_whole_frames_gets_no_extra_frame() {
    let payload = pseudo_random(1792 * 3, 7);
    let frames = encode(&payload, b"whole", 128, 128, 2, 16).unwrap();
    assert_eq!(frames.len(), 4);
    let decoded = decode(&frames).unwrap();
    assert_eq!(decoded.payload, payload);
    let one_more = pseudo_random(1792 * 3 + 1, 7);
    assert_eq!(encode(&one_more, b"whole", 128, 128, 2, 16).unwrap().len(), 5);
}

#[test]
fn empty_file() {
    let frames = encode(&[], b"empty", 128, 128, 2, 16).unwrap();
    assert_eq!(frames.len(), 2);
    assert!(frames[1].pixels().iter().all(|p| *p == [0, 0, 0] || *p == [255, 255, 255]));
    let decoded = decode(&frames).unwrap();
    assert_eq!(decoded.payload.len(), 0);
    assert_eq!(decoded.metadata.payload_size, 0);
    assert_eq!(decoded.metadata.payload_crc32, 0x0000_0000);
    assert!(decoded.checksum_ok);
    assert_eq!(decoded.stats.frames(), 1);
}

#[test]
fn empty_file_data_frame_carries_zero_content() {
    let frames = encode(&[], b"empty", 128, 128, 2, 16).unwrap();
    let report = videobackup::frame::read_frame(&frames[1], 2, 16, 16, 0);
    assert_eq!(report.content, vec![0u8; 1792]);
    assert_eq!(report.corrected, 0);
    assert_eq!(report.unrecoverable_blocks, 0);
}

#[test]
fn single_byte_corruption_tolerance() {
    let payload = pseudo_random(10 * 1024, 42);
    let mut frames = encode(&payload, b"random.bin", 128, 128, 2, 16).unwrap();
    // One pixel inside the third block of the second data frame turns into a
    // colour outside the palette, nearest to white.
    let pixel = (2 * 128 + 5) * 8 + 3;
    let (x, y) = (pixel % 128, pixel / 128);
    let before = frames[2].pixel(x, y);
    frames[2].set_pixel(x, y, [200, 190, 210]);
    let decoded = decode(&frames).unwrap();
    assert!(decoded.stats.estimated_pixels() >= 1);
    assert_eq!(decoded.stats.estimated_pixels(), 1);
    assert_eq!(decoded.payload, payload);
    assert!(decoded.checksum_ok);
    assert_eq!(decoded.stats.unrecoverable_blocks(), 0);
    let expected_corrections = if before == [255, 255, 255] { 0 } else { 1 };
    assert_eq!(decoded.stats.corrected(), expected_corrections);
}

#[test]
fn flipped_byte_is_corrected() {
    let payload = pseudo_random(10 * 1024, 43);
    let mut frames = encode(&payload, b"random.bin", 128, 128, 2, 16).unwrap();
    invert_byte(&mut frames[1], 4 * 128 + 17);
    let decoded = decode(&frames).unwrap();
    assert_eq!(decoded.payload, payload);
    assert_eq!(decoded.stats.corrected(), 1);
    assert_eq!(decoded.stats.unrecoverable_blocks(), 0);
    assert_eq!(decoded.stats.estimated_pixels(), 0);
    assert!(decoded.checksum_ok);
}

#[test]
fn unrecoverable_block() {
    let payload = pseudo_random(5000, 99);
    let mut frames = encode(&payload, b"damaged.bin", 128, 128, 2, 4).unwrap();
    // Content per block is 124 bytes, per frame 16 * 124 = 1984 bytes.
    // Eight bytes of block 3 of data frame 1 are flipped.
    for k in 0..8 {
        invert_byte(&mut frames[2], 3 * 128 + 10 + 7 * k);
    }
    let decoded = decode(&frames).unwrap();
    let start = 1984 + 3 * 124;
    let end = 1984 + 4 * 124;
    assert_eq!(decoded.stats.unrecoverable_blocks(), 1);
    assert_eq!(decoded.damaged, vec![(start as u128, end as u128)]);
    assert_eq!(decoded.payload.len(), payload.len());
    assert_ne!(decoded.payload, payload);
    assert!(!decoded.checksum_ok);
    for i in 0..payload.len() {
        if i < start || i >= end {
            assert_eq!(decoded.payload[i], payload[i]);
        }
    }
    let differing = (start..end).filter(|&i| decoded.payload[i] != payload[i]).count();
    assert_eq!(differing, 8);
}

#[test]
fn version_guard() {
    let meta = Metadata {
        encoding_version: videobackup::common::ENCODING_VERSION + 1,
        palette_size: 2,
        pixel_size: 1,
        payload_size: 6,
        payload_crc32: 0x363A3020,
        ecc_bytes: 16,
        file_name: b"hello.txt".to_vec(),
    };
    let first = build_metadata_frame(&meta, 128, 128).unwrap();
    let frames = vec![first];
    match decode(&frames) {
        Err(DecodeError::VersionMismatch { found }) => assert_eq!(found, 4),
        _ => panic!("a header of another version must be refused"),
    }
}

#[test]
fn older_version_is_refused_too() {
    let meta = Metadata {
        encoding_version: 2,
        palette_size: 2,
        pixel_size: 1,
        payload_size: 0,
        payload_crc32: 0,
        ecc_bytes: 16,
        file_name: Vec::new(),
    };
    let frames = vec![build_metadata_frame(&meta, 128, 128).unwrap()];
    assert!(matches!(decode(&frames), Err(DecodeError::VersionMismatch { found: 2 })));
}

#[test]
fn name_of_200_bytes_is_accepted_and_201_rejected() {
    let name = vec![b'n'; 200];
    let frames = encode(b"x", &name, 128, 128, 2, 16).unwrap();
    assert_eq!(decode(&frames).unwrap().metadata.file_name, name);
    let longer = vec![b'n'; 201];
    assert!(matches!(encode(b"x", &longer, 128, 128, 2, 16), Err(EncodeError::NameTooLong)));
}

#[test]
fn ecc_bytes_zero_is_invalid_and_126_valid() {
    assert!(matches!(encode(b"x", b"n", 128, 128, 2, 0), Err(EncodeError::InvalidEccBytes)));
    assert!(matches!(encode(b"x", b"n", 128, 128, 2, 127), Err(EncodeError::InvalidEccBytes)));
    let payload = pseudo_random(100, 5);
    let frames = encode(&payload, b"n", 128, 128, 2, 126).unwrap();
    // Two content bytes per block, 16 blocks per frame.
    assert_eq!(frames.len(), 1 + 4);
    let decoded = decode(&frames).unwrap();
    assert_eq!(decoded.payload, payload);
    assert_eq!(decoded.metadata.ecc_bytes, 126);
}

#[test]
fn invalid_parameters_are_named() {
    assert!(matches!(encode(b"x", b"n", 128, 128, 3, 16), Err(EncodeError::InvalidPalette)));
    assert!(matches!(encode(b"x", b"n", 128, 128, 3, 0), Err(EncodeError::InvalidPalette)));
    assert!(matches!(encode(b"x", b"n", 40, 49, 2, 16), Err(EncodeError::InvalidFrameSize)));
    assert!(matches!(encode(b"x", b"n", usize::MAX, 2, 2, 16), Err(EncodeError::InvalidFrameSize)));
    assert!(encode(b"x", b"n", 40, 50, 2, 16).is_ok());
    let long = vec![b'n'; 300];
    assert!(matches!(encode(b"x", &long, 128, 128, 3, 0), Err(EncodeError::NameTooLong)));
}

#[test]
fn four_colour_round_trip() {
    let payload = pseudo_random(9000, 11);
    let frames = encode(&payload, b"four.bin", 128, 128, 4, 16).unwrap();
    // 32 blocks per frame, 112 content bytes each.
    assert_eq!(frames.len(), 1 + 3);
    let decoded = decode(&frames).unwrap();
    assert_eq!(decoded.payload, payload);
    assert_eq!(decoded.metadata.palette_size, 4);
    assert!(decoded.checksum_ok);
    assert_eq!(decoded.stats.exact_pixels(), 3 * 128 * 128);
    assert_eq!(decoded.stats.estimated_pixels(), 0);
    assert_eq!(decoded.stats.corrected(), 0);
}

#[test]
fn clean_channel_round_trip_over_sizes_and_parameters() {
    for (i, &len) in [0usize, 1, 111, 112, 113, 1791, 1792, 1793, 4000].iter().enumerate() {
        for &(width, height, colors, ecc) in
            [(128usize, 128usize, 2u16, 16u8), (100, 30, 4, 1), (64, 64, 2, 126), (50, 40, 4, 32)].iter()
        {
            let payload = pseudo_random(len, i as u64);
            let frames = encode(&payload, b"file.dat", width, height, colors, ecc).unwrap();
            let decoded = decode(&frames).unwrap();
            assert_eq!(decoded.payload, payload);
            assert_eq!(decoded.payload.len() as u64, decoded.metadata.payload_size);
            assert!(decoded.checksum_ok);
            assert_eq!(decoded.stats.corrected(), 0);
            assert_eq!(decoded.stats.unrecoverable_blocks(), 0);
            assert_eq!(decoded.stats.estimated_pixels(), 0);
            assert!(decoded.damaged.is_empty());
            assert_eq!(decoded.metadata.file_name, b"file.dat".to_vec());
        }
    }
}

#[test]
fn header_frame_is_two_colour_whatever_the_palette() {
    let frames = encode(b"abc", b"n", 128, 128, 4, 16).unwrap();
    assert!(frames[0].pixels().iter().all(|p| *p == [0, 0, 0] || *p == [255, 255, 255]));
    assert!(frames[1].pixels().iter().any(|p| *p == [255, 0, 0] || *p == [0, 255, 0] || *p == [0, 0, 255]));
}

#[test]
fn missing_frames_leave_the_length_and_fail_the_checksum() {
    let payload = pseudo_random(5000, 3);
    let mut frames = encode(&payload, b"short", 128, 128, 2, 16).unwrap();
    assert_eq!(frames.len(), 4);
    frames.pop();
    let decoded = decode(&frames).unwrap();
    assert_eq!(decoded.payload.len(), 5000);
    assert_eq!(decoded.payload[..3584], payload[..3584]);
    assert!(decoded.payload[3584..].iter().all(|b| *b == 0));
    assert!(!decoded.checksum_ok);
}

#[test]
fn unrecoverable_header_is_fatal() {
    let mut frames = encode(b"hello\n", b"hello.txt", 128, 128, 2, 16).unwrap();
    for k in 0..40 {
        invert_byte(&mut frames[0], 3 + 5 * k);
    }
    assert!(matches!(decode(&frames), Err(DecodeError::MetadataUnrecoverable)));
}

#[test]
fn malformed_header_is_refused() {
    let meta = Metadata {
        encoding_version: 3,
        palette_size: 8,
        pixel_size: 1,
        payload_size: 0,
        payload_crc32: 0,
        ecc_bytes: 16,
        file_name: Vec::new(),
    };
    let frames = vec![build_metadata_frame(&meta, 128, 128).unwrap()];
    assert!(matches!(decode(&frames), Err(DecodeError::MalformedHeader)));
    let meta = Metadata { palette_size: 2, ecc_bytes: 0, ..meta };
    let frames = vec![build_metadata_frame(&meta, 128, 128).unwrap()];
    assert!(matches!(decode(&frames), Err(DecodeError::MalformedHeader)));
    let meta = Metadata { ecc_bytes: 127, ..meta };
    let frames = vec![build_metadata_frame(&meta, 128, 128).unwrap()];
    assert!(matches!(decode(&frames), Err(DecodeError::MalformedHeader)));
}
