//! The geometry of an encoded payload: how many blocks a frame holds, how many
//! payload bytes that makes, and how many frames a payload needs.

use crate::bits::pixels_per_byte;
use crate::common::BLOCK_SIZE;
use crate::error::EncodeError;
use crate::frame::valid_ecc_bytes;
use crate::metadata::METADATA_PIXELS;
use crate::palette::{bits_for, valid_colors};
use vstd::arithmetic::div_mod::{lemma_fundamental_div_mod, lemma_mod_bound};
use vstd::prelude::*;

verus! {

/// Blocks that a frame of `width` by `height` pixels carries:
/// `floor(width * height * bits_per_pixel / 8 / 128)`.
pub open spec fn blocks_per_frame_spec(width: nat, height: nat, colors: u16) -> nat {
    (width * height * bits_for(colors) / 8 / (BLOCK_SIZE as int)) as nat
}

/// Payload bytes that one block carries.
pub open spec fn content_per_block_spec(ecc_bytes: u8) -> nat {
    (BLOCK_SIZE - ecc_bytes) as nat
}

/// Payload bytes that one frame carries.
pub open spec fn content_per_frame_spec(width: nat, height: nat, colors: u16, ecc_bytes: u8) -> nat {
    blocks_per_frame_spec(width, height, colors) * content_per_block_spec(ecc_bytes)
}

/// Data frames that a payload of `payload_size` bytes needs: the payload
/// divided by the content of a frame, rounded up, and one frame for the empty
/// payload.
pub open spec fn data_frames_spec(payload_size: nat, content_per_frame: nat) -> nat {
    if payload_size == 0 {
        1
    } else {
        ((payload_size - 1) / (content_per_frame as int) + 1) as nat
    }
}

/// Frames of the whole video: the data frames and the header frame before them.
pub open spec fn needed_frames_spec(payload_size: nat, content_per_frame: nat) -> nat {
    data_frames_spec(payload_size, content_per_frame) + 1
}

/// What is wrong with a set of parameters, if anything.
pub open spec fn params_error(width: nat, height: nat, colors: u16, ecc_bytes: u8) -> Option<EncodeError> {
    if !valid_colors(colors) {
        Some(EncodeError::InvalidPalette)
    } else if !valid_ecc_bytes(ecc_bytes) {
        Some(EncodeError::InvalidEccBytes)
    } else if width * height < METADATA_PIXELS || width * height > usize::MAX {
        Some(EncodeError::InvalidFrameSize)
    } else {
        None
    }
}

/// The geometry that follows from a set of parameters.
#[derive(Clone, Copy, Debug, PartialEq, Eq, Structural)]
pub struct Layout {
    /// Blocks in every data frame.
    pub blocks_per_frame: usize,
    /// Payload bytes in every block.
    pub content_bytes_per_block: usize,
    /// Payload bytes in every frame.
    pub content_bytes_per_frame: usize,
}

impl Layout {
    /// The layout is the one of the given parameters.
    pub open spec fn matches(self, width: nat, height: nat, colors: u16, ecc_bytes: u8) -> bool {
        &&& self.blocks_per_frame == blocks_per_frame_spec(width, height, colors)
        &&& self.content_bytes_per_block == content_per_block_spec(ecc_bytes)
        &&& self.content_bytes_per_frame == content_per_frame_spec(width, height, colors, ecc_bytes)
    }
}

/// The blocks of a frame fit its pixels, and a frame that can carry the header
/// carries at least one block of at least two payload bytes.
pub proof fn lemma_layout_bounds(width: nat, height: nat, colors: u16, ecc_bytes: u8)
    requires
        params_error(width, height, colors, ecc_bytes) is None,
    ensures
        blocks_per_frame_spec(width, height, colors) >= 1,
        blocks_per_frame_spec(width, height, colors) * BLOCK_SIZE * pixels_per_byte(
            bits_for(colors),
        ) <= width * height,
        2 <= content_per_block_spec(ecc_bytes) <= 127,
        content_per_frame_spec(width, height, colors, ecc_bytes) >= 2,
        content_per_frame_spec(width, height, colors, ecc_bytes) <= blocks_per_frame_spec(
            width,
            height,
            colors,
        ) * BLOCK_SIZE,
{
    let pixels: int = (width * height) as int;
    let blocks: int = blocks_per_frame_spec(width, height, colors) as int;
    let size: int = content_per_block_spec(ecc_bytes) as int;
    if colors == 2 {
        assert(blocks == pixels * 1 / 8 / 128);
    } else {
        assert(blocks == pixels * 2 / 8 / 128);
    }
    assert(blocks * size >= 2 && blocks * size <= blocks * 128) by (nonlinear_arith)
        requires
            blocks >= 1,
            2 <= size <= 127,
    ;
}

/// The data frames of a payload hold all of it, and the last of them is needed.
pub proof fn lemma_data_frames_cover(payload_size: nat, content_per_frame: nat)
    requires
        content_per_frame > 0,
    ensures
        data_frames_spec(payload_size, content_per_frame) >= 1,
        payload_size <= data_frames_spec(payload_size, content_per_frame) * content_per_frame,
        payload_size > 0 ==> (data_frames_spec(payload_size, content_per_frame) - 1)
            * content_per_frame < payload_size,
        data_frames_spec(payload_size, content_per_frame) <= payload_size + 1,
{
    let size: int = content_per_frame as int;
    if payload_size > 0 {
        let last: int = payload_size - 1;
        let full: int = last / size;
        lemma_fundamental_div_mod(last, size);
        lemma_mod_bound(last, size);
        assert((full + 1) * size == size * full + size) by (nonlinear_arith);
        assert(full * size == size * full) by (nonlinear_arith);
        assert(full <= last) by (nonlinear_arith)
            requires
                last == size * full + last % size,
                0 <= last % size,
                size >= 1,
                full >= 0,
        ;
        assert(full >= 0) by (nonlinear_arith)
            requires
                last == size * full + last % size,
                last % size < size,
                last >= 0,
                size >= 1,
        ;
    } else {
        assert(1 * content_per_frame == content_per_frame) by (nonlinear_arith);
    }
}

/// Blocks that a frame of `width` by `height` pixels carries.
pub fn blocks_per_frame(width: usize, height: usize, colors: u16) -> (blocks: usize)
    requires
        valid_colors(colors),
        width * height <= usize::MAX,
    ensures
        blocks == blocks_per_frame_spec(width as nat, height as nat, colors),
{
    let pixels: usize = width * height;
    if colors == 2 {
        assert(pixels * 1 / 8 / 128 == pixels / 1024);
        pixels / 1024
    } else {
        assert(pixels * 2 / 8 / 128 == pixels / 512);
        pixels / 512
    }
}

/// Checks a set of parameters and derives the geometry from it.
///
/// Fails with `InvalidPalette` unless `colors` is 2 or 4, else with
/// `InvalidEccBytes` unless `ecc_bytes` is between 1 and 126, else with
/// `InvalidFrameSize` unless the frame has at least the 2000 pixels that the
/// header needs and no more than can be addressed.
pub fn layout(width: usize, height: usize, colors: u16, ecc_bytes: u8) -> (outcome: Result<Layout, EncodeError>)
    ensures
        outcome matches Ok(geometry) ==> params_error(
            width as nat,
            height as nat,
            colors,
            ecc_bytes,
        ) is None && geometry.matches(width as nat, height as nat, colors, ecc_bytes),
        outcome matches Err(error) ==> params_error(width as nat, height as nat, colors, ecc_bytes)
            == Some(error),
{
    if colors != 2 && colors != 4 {
        return Err(EncodeError::InvalidPalette);
    }
    if ecc_bytes < 1 || ecc_bytes > 126 {
        return Err(EncodeError::InvalidEccBytes);
    }
    let pixels: usize = match width.checked_mul(height) {
        Some(pixels) => pixels,
        None => {
            return Err(EncodeError::InvalidFrameSize);
        },
    };
    if pixels < METADATA_PIXELS {
        return Err(EncodeError::InvalidFrameSize);
    }
    proof {
        lemma_layout_bounds(width as nat, height as nat, colors, ecc_bytes);
    }
    let blocks: usize = blocks_per_frame(width, height, colors);
    let content_bytes_per_block: usize = BLOCK_SIZE - ecc_bytes as usize;
    Ok(
        Layout {
            blocks_per_frame: blocks,
            content_bytes_per_block,
            content_bytes_per_frame: blocks * content_bytes_per_block,
        },
    )
}

/// Data frames that a payload of `payload_size` bytes needs.
pub fn data_frames(payload_size: u64, content_bytes_per_frame: usize) -> (frames: u64)
    requires
        content_bytes_per_frame > 0,
    ensures
        frames == data_frames_spec(payload_size as nat, content_bytes_per_frame as nat),
{
    if payload_size == 0 {
        1
    } else {
        proof {
            lemma_data_frames_cover(payload_size as nat, content_bytes_per_frame as nat);
        }
        (payload_size - 1) / (content_bytes_per_frame as u64) + 1
    }
}

/// Frames of the whole video for a payload of `payload_size` bytes: its data
/// frames and the header frame.
pub fn needed_frames(payload_size: u64, content_bytes_per_frame: usize) -> (frames: u64)
    requires
        content_bytes_per_frame >= 2,
    ensures
        frames == needed_frames_spec(payload_size as nat, content_bytes_per_frame as nat),
{
    proof {
        if payload_size > 0 {
            let size: int = content_bytes_per_frame as int;
            let last: int = payload_size - 1;
            lemma_fundamental_div_mod(last, size);
            lemma_mod_bound(last, size);
            assert(2 * (last / size) <= last) by (nonlinear_arith)
                requires
                    last == size * (last / size) + last % size,
                    0 <= last % size,
                    size >= 2,
                    last >= 0,
            ;
        }
    }
    data_frames(payload_size, content_bytes_per_frame) + 1
}

} // verus!
