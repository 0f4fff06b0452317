//! The clean channel: what was encoded decodes to what went in.

use crate::common::BLOCK_SIZE;
use crate::decode::{decode_spec, fit_spec, video_content, video_damaged, video_stats, DecodedView, StatsView};
use crate::encode::{data_frame_spec, encode_error, encoded_frames, frame_payload, header_for};
use crate::error::DecodeError;
use crate::frame::{corrected_symbols, damaged_ranges, encode_blocks, exact_count, frame_content, lemma_encode_blocks_len, lemma_frame_content_encoded, lemma_read_built_frame, raw_bytes, unrecoverable_count};
use crate::layout::{blocks_per_frame_spec, content_per_frame_spec, data_frames_spec, lemma_data_frames_cover, lemma_layout_bounds, params_error};
use crate::metadata::lemma_read_metadata_frame;
use vstd::prelude::*;

verus! {

/// The totals of a decode of `frames` data frames of `pixels` pixels each in
/// which every pixel was exact and no block needed correction.
pub open spec fn clean_stats(frames: nat, pixels: nat) -> StatsView {
    StatsView {
        frames,
        exact_pixels: frames * pixels,
        estimated_pixels: 0,
        corrected: 0,
        unrecoverable_blocks: 0,
    }
}

/// A data frame read back as it was built yields the content it was built
/// from; all its pixels are exact and none of its blocks needs correction.
pub proof fn lemma_read_data_frame(payload: Seq<u8>, width: nat, height: nat, colors: u16, ecc_bytes: u8, index: int, base: int)
    requires
        params_error(width, height, colors, ecc_bytes) is None,
    ensures
        ({
            let pixels = data_frame_spec(payload, width, height, colors, ecc_bytes, index).pixels;
            let raw = raw_bytes(pixels, colors);
            let blocks: int = blocks_per_frame_spec(width, height, colors) as int;
            &&& pixels.len() == width * height
            &&& frame_content(raw, ecc_bytes as nat, blocks) == frame_payload(
                payload,
                content_per_frame_spec(width, height, colors, ecc_bytes),
                index,
            )
            &&& exact_count(pixels, colors, pixels.len() as int) == width * height
            &&& corrected_symbols(raw, ecc_bytes as nat, blocks) == 0
            &&& unrecoverable_count(raw, ecc_bytes as nat, blocks) == 0
            &&& damaged_ranges(raw, ecc_bytes as nat, base, blocks) == Seq::<(u128, u128)>::empty()
        }),
{
    let blocks: int = blocks_per_frame_spec(width, height, colors) as int;
    let size: nat = content_per_frame_spec(width, height, colors, ecc_bytes);
    let content = frame_payload(payload, size, index);
    let bytes = encode_blocks(content, ecc_bytes as nat, blocks);
    let pixels = data_frame_spec(payload, width, height, colors, ecc_bytes, index).pixels;
    let raw = raw_bytes(pixels, colors);
    lemma_layout_bounds(width, height, colors, ecc_bytes);
    assert(blocks * (BLOCK_SIZE - ecc_bytes) == size);
    lemma_encode_blocks_len(content, ecc_bytes as nat, blocks);
    lemma_read_built_frame(bytes, colors, width * height);
    let tail = raw.subrange(bytes.len() as int, raw.len() as int);
    assert(raw =~= bytes + tail);
    lemma_frame_content_encoded(content, ecc_bytes as nat, blocks, tail, base);
    assert(content.subrange(0, blocks * (BLOCK_SIZE - ecc_bytes)) =~= content);
}

/// The data frames of an encoded payload, read back in order, yield the
/// payload padded with zero bytes to whole frames.
pub proof fn lemma_read_data_frames(payload: Seq<u8>, file_name: Seq<u8>, width: nat, height: nat, colors: u16, ecc_bytes: u8, m: int)
    requires
        params_error(width, height, colors, ecc_bytes) is None,
        0 <= m <= data_frames_spec(
            payload.len(),
            content_per_frame_spec(width, height, colors, ecc_bytes),
        ),
    ensures
        ({
            let frames = encoded_frames(payload, file_name, width, height, colors, ecc_bytes);
            let blocks: nat = blocks_per_frame_spec(width, height, colors);
            let size: nat = content_per_frame_spec(width, height, colors, ecc_bytes);
            &&& video_content(frames, colors, ecc_bytes, blocks, m) == fit_spec(
                payload,
                (m * size) as nat,
            )
            &&& video_stats(frames, colors, ecc_bytes, blocks, m) == clean_stats(
                m as nat,
                width * height,
            )
            &&& video_damaged(frames, colors, ecc_bytes, blocks, m) == Seq::<(u128, u128)>::empty()
        }),
    decreases m,
{
    let frames = encoded_frames(payload, file_name, width, height, colors, ecc_bytes);
    let blocks: nat = blocks_per_frame_spec(width, height, colors);
    let size: nat = content_per_frame_spec(width, height, colors, ecc_bytes);
    let pixels: nat = width * height;
    if m == 0 {
        assert(m * size == 0 && m * pixels == 0) by (nonlinear_arith)
            requires
                m == 0,
        ;
        assert(fit_spec(payload, 0) =~= Seq::<u8>::empty());
    } else {
        lemma_read_data_frames(payload, file_name, width, height, colors, ecc_bytes, m - 1);
        let base: int = (m - 1) * (blocks * (BLOCK_SIZE - ecc_bytes));
        lemma_read_data_frame(payload, width, height, colors, ecc_bytes, m - 1, base);
        assert(frames[m] == data_frame_spec(payload, width, height, colors, ecc_bytes, m - 1));
        assert((m - 1) * size + size == m * size && 0 <= (m - 1) * size && (m - 1) * pixels + pixels
            == m * pixels) by (nonlinear_arith)
            requires
                m >= 1,
        ;
        let before = fit_spec(payload, ((m - 1) * size) as nat);
        let piece = frame_payload(payload, size, m - 1);
        assert(before + piece =~= fit_spec(payload, (m * size) as nat));
        assert(video_damaged(frames, colors, ecc_bytes, blocks, m) =~= Seq::<(u128, u128)>::empty());
    }
}

/// Round trip over a clean channel: for every payload that fits in memory and
/// every set of parameters that `encode` accepts, decoding the frames that
/// encoding gives yields the payload, byte for byte, under the header it was
/// encoded with; every pixel is read exactly, no block needs correction and the
/// checksum matches. The file name must not end in a zero byte, which a header
/// could not tell from its padding.
pub proof fn lemma_round_trip(payload: Seq<u8>, file_name: Seq<u8>, width: nat, height: nat, colors: u16, ecc_bytes: u8)
    requires
        encode_error(file_name, width, height, colors, ecc_bytes) is None,
        payload.len() <= usize::MAX,
        file_name.len() > 0 ==> file_name.last() != 0,
    ensures
        decode_spec(encoded_frames(payload, file_name, width, height, colors, ecc_bytes)) == Ok::<
            DecodedView,
            DecodeError,
        >(
            DecodedView {
                metadata: header_for(payload, file_name, colors, ecc_bytes),
                payload,
                stats: clean_stats(
                    data_frames_spec(
                        payload.len(),
                        content_per_frame_spec(width, height, colors, ecc_bytes),
                    ),
                    width * height,
                ),
                damaged: Seq::<(u128, u128)>::empty(),
                checksum_ok: true,
            },
        ),
{
    let frames = encoded_frames(payload, file_name, width, height, colors, ecc_bytes);
    let meta = header_for(payload, file_name, colors, ecc_bytes);
    let size: nat = content_per_frame_spec(width, height, colors, ecc_bytes);
    let n: int = data_frames_spec(payload.len(), size) as int;
    lemma_layout_bounds(width, height, colors, ecc_bytes);
    lemma_data_frames_cover(payload.len(), size);
    lemma_read_metadata_frame(meta, width, height);
    lemma_read_data_frames(payload, file_name, width, height, colors, ecc_bytes, n);
    assert(frames.len() == n + 1);
    assert(frames[0].width == width && frames[0].height == height);
    assert(fit_spec(fit_spec(payload, (n * size) as nat), payload.len()) =~= payload);
}

} // verus!
