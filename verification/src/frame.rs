//! Frames: blocks rendered as raster images and read back from them.
//!
//! On the way out the blocks of a frame are laid end to end, cut into palette
//! indices and painted in row-major order; the pixels left over keep palette
//! entry 0. On the way back every pixel is snapped to the nearest palette entry,
//! the indices are joined into bytes, and each block of 128 bytes goes through
//! the block codec.

use crate::bits::{lemma_pack_in_range, lemma_unpack_pack_prefix, pack, pack_spec, pixels_per_byte, unpack, unpack_spec};
use crate::block::{content_of, content_spec, corrected_spec, lemma_decode_encoded, lemma_encoded_is_codeword, parity_spec, BlockCodec};
use crate::common::{joined, BLOCK_SIZE};
use crate::palette::{bits_for, lemma_snap_own_palette, nearest_index, palette, palette_spec, same_color, try_read_pixel, valid_colors};
use crate::raster::{Raster, RasterView};
use vstd::prelude::*;
use vstd::slice::slice_subrange;

verus! {

/// The suffix lengths that a data block may have: at least one byte of
/// protection, at least two bytes of content.
pub open spec fn valid_ecc_bytes(ecc_bytes: u8) -> bool {
    1 <= ecc_bytes <= 126
}

/// The pixels of a frame of `count` pixels that carries `bytes`: the palette
/// entries of the packed bytes, then palette entry 0.
pub open spec fn frame_pixels(bytes: Seq<u8>, colors: u16, count: nat) -> Seq<[u8; 3]> {
    Seq::new(
        count,
        |k: int|
            if k < pack_spec(bytes, bits_for(colors)).len() {
                palette_spec(colors)[pack_spec(bytes, bits_for(colors))[k] as int]
            } else {
                palette_spec(colors)[0]
            },
    )
}

/// The palette index that every pixel snaps to.
pub open spec fn snapped(pixels: Seq<[u8; 3]>, colors: u16) -> Seq<u8> {
    Seq::new(pixels.len(), |k: int| nearest_index(pixels[k], palette_spec(colors)) as u8)
}

/// Among the first `n` pixels, those that are a palette entry exactly.
pub open spec fn exact_count(pixels: Seq<[u8; 3]>, colors: u16, n: int) -> nat
    decreases n,
{
    if n <= 0 {
        0
    } else {
        let entry = palette_spec(colors)[nearest_index(pixels[n - 1], palette_spec(colors))];
        exact_count(pixels, colors, n - 1) + if same_color(pixels[n - 1], entry) {
            1nat
        } else {
            0nat
        }
    }
}

/// The bytes that the pixels of a frame carry.
pub open spec fn raw_bytes(pixels: Seq<[u8; 3]>, colors: u16) -> Seq<u8> {
    unpack_spec(snapped(pixels, colors), bits_for(colors))
}

/// Content block `j` of the content of a frame.
pub open spec fn block_content(content: Seq<u8>, ecc_len: nat, j: int) -> Seq<u8> {
    content.subrange(j * (BLOCK_SIZE - ecc_len), (j + 1) * (BLOCK_SIZE - ecc_len))
}

/// The first `n` content blocks of `content`, each followed by its suffix.
pub open spec fn encode_blocks(content: Seq<u8>, ecc_len: nat, n: int) -> Seq<u8>
    decreases n,
{
    if n <= 0 {
        Seq::empty()
    } else {
        encode_blocks(content, ecc_len, n - 1) + (block_content(content, ecc_len, n - 1)
            + parity_spec(block_content(content, ecc_len, n - 1), ecc_len))
    }
}

/// Received block `i` of the bytes of a frame.
pub open spec fn block_at(raw: Seq<u8>, i: int) -> Seq<u8> {
    raw.subrange(i * BLOCK_SIZE, (i + 1) * BLOCK_SIZE)
}

/// The content of the first `n` received blocks: of each block the corrected
/// content, or its raw content prefix where correction fails.
pub open spec fn frame_content(raw: Seq<u8>, ecc_len: nat, n: int) -> Seq<u8>
    decreases n,
{
    if n <= 0 {
        Seq::empty()
    } else {
        frame_content(raw, ecc_len, n - 1) + content_spec(block_at(raw, n - 1), ecc_len)
    }
}

/// Symbols corrected in the first `n` received blocks.
pub open spec fn corrected_symbols(raw: Seq<u8>, ecc_len: nat, n: int) -> nat
    decreases n,
{
    if n <= 0 {
        0
    } else {
        corrected_symbols(raw, ecc_len, n - 1) + match corrected_spec(block_at(raw, n - 1), ecc_len) {
            Some(corrected) => corrected.1,
            None => 0nat,
        }
    }
}

/// Blocks among the first `n` received blocks that cannot be corrected.
pub open spec fn unrecoverable_count(raw: Seq<u8>, ecc_len: nat, n: int) -> nat
    decreases n,
{
    if n <= 0 {
        0
    } else {
        unrecoverable_count(raw, ecc_len, n - 1) + if corrected_spec(block_at(raw, n - 1), ecc_len) is None {
            1nat
        } else {
            0nat
        }
    }
}

/// The byte ranges `[start, end)` of the payload that the unrecoverable blocks
/// among the first `n` stand for, where the content of the frame starts at
/// byte `base` of the payload.
pub open spec fn damaged_ranges(raw: Seq<u8>, ecc_len: nat, base: int, n: int) -> Seq<(u128, u128)>
    decreases n,
{
    if n <= 0 {
        Seq::empty()
    } else if corrected_spec(block_at(raw, n - 1), ecc_len) is None {
        damaged_ranges(raw, ecc_len, base, n - 1).push(
            (
                (base + (n - 1) * (BLOCK_SIZE - ecc_len)) as u128,
                (base + n * (BLOCK_SIZE - ecc_len)) as u128,
            ),
        )
    } else {
        damaged_ranges(raw, ecc_len, base, n - 1)
    }
}

/// Chunks of one size laid end to end can be cut apart again.
pub proof fn lemma_joined_uniform(chunks: Seq<Vec<u8>>, size: nat, n: int)
    requires
        0 <= n <= chunks.len(),
        forall|j: int| 0 <= j < n ==> (#[trigger] chunks[j])@.len() == size,
    ensures
        joined(chunks, n).len() == n * size,
        forall|j: int|
            0 <= j < n ==> joined(chunks, n).subrange(j * size, (j + 1) * size)
                == (#[trigger] chunks[j])@,
    decreases n,
{
    if n == 0 {
        assert(n * size == 0) by (nonlinear_arith)
            requires
                n == 0,
        ;
    } else {
        lemma_joined_uniform(chunks, size, n - 1);
        let shorter = joined(chunks, n - 1);
        let whole = joined(chunks, n);
        assert(chunks[n - 1]@.len() == size);
        assert(whole == shorter + chunks[n - 1]@);
        assert((n - 1) * size + size == n * size) by (nonlinear_arith);
        assert forall|j: int| 0 <= j < n implies whole.subrange(j * size, (j + 1) * size)
            == (#[trigger] chunks[j])@ by {
            assert(0 <= j * size && (j + 1) * size <= n * size && (j + 1) * size == j * size + size)
                by (nonlinear_arith)
                requires
                    0 <= j < n,
            ;
            if j < n - 1 {
                assert((j + 1) * size <= (n - 1) * size) by (nonlinear_arith)
                    requires
                        j < n - 1,
                ;
                assert(whole.subrange(j * size, (j + 1) * size) =~= shorter.subrange(
                    j * size,
                    (j + 1) * size,
                ));
            } else {
                assert(whole.subrange(j * size, (j + 1) * size) =~= chunks[j]@);
            }
        }
    }
}

/// `n` encoded blocks are `n` times 128 bytes long.
pub proof fn lemma_encode_blocks_len(content: Seq<u8>, ecc_len: nat, n: int)
    requires
        0 < ecc_len < BLOCK_SIZE,
        0 <= n,
        n * (BLOCK_SIZE - ecc_len) <= content.len(),
    ensures
        encode_blocks(content, ecc_len, n).len() == n * BLOCK_SIZE,
    decreases n,
{
    if n > 0 {
        let size: int = BLOCK_SIZE - ecc_len;
        assert((n - 1) * size + size == n * size && 0 <= (n - 1) * size) by (nonlinear_arith)
            requires
                n > 0,
                size > 0,
        ;
        lemma_encode_blocks_len(content, ecc_len, n - 1);
        lemma_encoded_is_codeword(block_content(content, ecc_len, n - 1), ecc_len);
    }
}

/// What was encoded block by block is read back block by block: the content
/// comes out as it went in, nothing is corrected and nothing is lost, whatever
/// bytes follow the encoded blocks.
pub proof fn lemma_frame_content_encoded(content: Seq<u8>, ecc_len: nat, n: int, tail: Seq<u8>, base: int)
    requires
        0 < ecc_len < BLOCK_SIZE,
        0 <= n,
        n * (BLOCK_SIZE - ecc_len) <= content.len(),
    ensures
        frame_content(encode_blocks(content, ecc_len, n) + tail, ecc_len, n) == content.subrange(
            0,
            n * (BLOCK_SIZE - ecc_len),
        ),
        corrected_symbols(encode_blocks(content, ecc_len, n) + tail, ecc_len, n) == 0,
        unrecoverable_count(encode_blocks(content, ecc_len, n) + tail, ecc_len, n) == 0,
        damaged_ranges(encode_blocks(content, ecc_len, n) + tail, ecc_len, base, n) == Seq::<
            (u128, u128),
        >::empty(),
    decreases n,
{
    let size: int = BLOCK_SIZE - ecc_len;
    let raw = encode_blocks(content, ecc_len, n) + tail;
    if n > 0 {
        let lo: int = (n - 1) * size;
        let hi: int = n * size;
        assert(lo + size == hi && 0 <= lo) by (nonlinear_arith)
            requires
                n > 0,
                size > 0,
                lo == (n - 1) * size,
                hi == n * size,
        ;
        assert((n - 1 + 1) * size == hi);
        let piece = block_content(content, ecc_len, n - 1);
        assert(piece == content.subrange(lo, hi));
        let block = piece + parity_spec(piece, ecc_len);
        let before = encode_blocks(content, ecc_len, n - 1);
        lemma_encode_blocks_len(content, ecc_len, n - 1);
        lemma_encoded_is_codeword(piece, ecc_len);
        lemma_decode_encoded(piece, ecc_len);
        lemma_frame_content_encoded(content, ecc_len, n - 1, block + tail, base);
        assert(encode_blocks(content, ecc_len, n) == before + block);
        assert(raw =~= before + (block + tail));
        assert(before.len() == (n - 1) * BLOCK_SIZE);
        assert(block.len() == BLOCK_SIZE);
        assert(block_at(raw, n - 1) =~= block);
        assert(content_spec(block, ecc_len) == piece);
        assert(corrected_spec(block, ecc_len) == Some((block, 0nat)));
        assert(content.subrange(0, lo) + piece =~= content.subrange(0, hi));
    } else {
        assert(n * size == 0) by (nonlinear_arith)
            requires
                n == 0,
        ;
        assert(content.subrange(0, 0) =~= Seq::<u8>::empty());
    }
}

/// A frame read back as it was built carries the bytes it was built from, in
/// front of whatever the pixels left over add, and all its pixels are exact.
pub proof fn lemma_read_built_frame(bytes: Seq<u8>, colors: u16, count: nat)
    requires
        valid_colors(colors),
        bytes.len() * pixels_per_byte(bits_for(colors)) <= count,
    ensures
        raw_bytes(frame_pixels(bytes, colors, count), colors).len() >= bytes.len(),
        raw_bytes(frame_pixels(bytes, colors, count), colors).subrange(0, bytes.len() as int)
            == bytes,
        exact_count(frame_pixels(bytes, colors, count), colors, count as int) == count,
{
    let bits: u8 = bits_for(colors);
    let packed = pack_spec(bytes, bits);
    let pixels = frame_pixels(bytes, colors, count);
    let tail = Seq::new((count - packed.len()) as nat, |k: int| 0u8);
    assert forall|k: int| 0 <= k < count implies snapped(pixels, colors)[k] == (packed + tail)[k] by {
        lemma_built_pixel(bytes, colors, count, k);
    }
    assert(snapped(pixels, colors) =~= packed + tail);
    lemma_unpack_pack_prefix(bytes, tail, bits);
    lemma_built_exact(bytes, colors, count, count as int);
}

/// Pixel `k` of a built frame is the palette entry of its index, so it snaps
/// to that index and is exact.
proof fn lemma_built_pixel(bytes: Seq<u8>, colors: u16, count: nat, k: int)
    requires
        valid_colors(colors),
        0 <= k < count,
    ensures
        nearest_index(frame_pixels(bytes, colors, count)[k], palette_spec(colors)) == (if k
            < pack_spec(bytes, bits_for(colors)).len() {
            pack_spec(bytes, bits_for(colors))[k] as int
        } else {
            0int
        }),
        same_color(
            frame_pixels(bytes, colors, count)[k],
            palette_spec(colors)[nearest_index(
                frame_pixels(bytes, colors, count)[k],
                palette_spec(colors),
            )],
        ),
{
    let packed = pack_spec(bytes, bits_for(colors));
    if k < packed.len() {
        lemma_pack_in_range(bytes, bits_for(colors), k);
        lemma_snap_own_palette(colors, packed[k] as int);
    } else {
        lemma_snap_own_palette(colors, 0);
    }
}

proof fn lemma_built_exact(bytes: Seq<u8>, colors: u16, count: nat, n: int)
    requires
        valid_colors(colors),
        0 <= n <= count,
    ensures
        exact_count(frame_pixels(bytes, colors, count), colors, n) == n,
    decreases n,
{
    if n > 0 {
        lemma_built_exact(bytes, colors, count, n - 1);
        lemma_built_pixel(bytes, colors, count, n - 1);
    }
}

/// Paints `bytes` into a frame of `width` by `height` pixels: pixel `k` of the
/// packed bytes lands at column `k mod width` of row `k / width`, and the
/// pixels that are left keep palette entry 0.
pub fn build_frame(bytes: &[u8], width: usize, height: usize, colors: u16) -> (frame: Raster)
    requires
        valid_colors(colors),
        width * height <= usize::MAX,
        bytes.len() * pixels_per_byte(bits_for(colors)) <= width * height,
    ensures
        frame.wf(),
        frame@ == (RasterView {
            width: width as nat,
            height: height as nat,
            pixels: frame_pixels(bytes@, colors, (width * height) as nat),
        }),
{
    let total: usize = width * height;
    let bits: u8 = if colors == 2 { 1 } else { 2 };
    let indices = pack(bytes, bits);
    let entries = palette(colors);
    let mut pixels: Vec<[u8; 3]> = Vec::with_capacity(total);
    let mut k: usize = 0;
    while k < total
        invariant
            valid_colors(colors),
            bits == bits_for(colors),
            k <= total,
            indices@ == pack_spec(bytes@, bits),
            entries@ == palette_spec(colors),
            pixels@ == frame_pixels(bytes@, colors, total as nat).subrange(0, k as int),
        decreases total - k,
    {
        let index: usize = if k < indices.len() {
            proof {
                lemma_pack_in_range(bytes@, bits, k as int);
            }
            indices[k] as usize
        } else {
            0
        };
        pixels.push(entries[index]);
        assert(pixels@ =~= frame_pixels(bytes@, colors, total as nat).subrange(0, k + 1));
        k += 1;
    }
    assert(pixels@ =~= frame_pixels(bytes@, colors, total as nat));
    Raster::from_pixels(width, height, pixels)
}

/// The bytes that the pixels of a frame carry, with the count of the pixels that
/// were palette entries exactly and of those that had to be estimated.
#[derive(Clone, Debug)]
pub struct RawFrame {
    pub bytes: Vec<u8>,
    pub exact_pixels: usize,
    pub estimated_pixels: usize,
    pub width: usize,
    pub height: usize,
}

/// Reads the pixels of a frame: snaps each to the nearest palette entry and
/// joins the indices into bytes. Pixels behind the last whole byte are dropped.
pub fn read_raw_frame(frame: &Raster, colors: u16) -> (raw: RawFrame)
    requires
        frame.wf(),
        valid_colors(colors),
    ensures
        raw.bytes@ == raw_bytes(frame@.pixels, colors),
        raw.exact_pixels == exact_count(frame@.pixels, colors, frame@.pixels.len() as int),
        raw.exact_pixels + raw.estimated_pixels == frame@.pixels.len(),
        raw.width == frame@.width,
        raw.height == frame@.height,
{
    let entries = palette(colors);
    let bits: u8 = if colors == 2 { 1 } else { 2 };
    let pixels = frame.pixels();
    let mut indices: Vec<u8> = Vec::with_capacity(pixels.len());
    let mut exact: usize = 0;
    let mut estimated: usize = 0;
    let mut k: usize = 0;
    while k < pixels.len()
        invariant
            valid_colors(colors),
            k <= pixels.len(),
            entries@ == palette_spec(colors),
            indices@ == snapped(pixels@, colors).subrange(0, k as int),
            exact == exact_count(pixels@, colors, k as int),
            exact + estimated == k,
        decreases pixels.len() - k,
    {
        let found = try_read_pixel(pixels[k], &entries);
        indices.push(found.0 as u8);
        if found.1 {
            exact += 1;
        } else {
            estimated += 1;
        }
        assert(indices@ =~= snapped(pixels@, colors).subrange(0, k + 1));
        k += 1;
    }
    assert(indices@ =~= snapped(pixels@, colors));
    let bytes = unpack(indices.as_slice(), bits);
    RawFrame {
        bytes,
        exact_pixels: exact,
        estimated_pixels: estimated,
        width: frame.width(),
        height: frame.height(),
    }
}

/// Builds the frame of a list of content blocks: appends to every block its
/// error-correction suffix, lays the blocks end to end and paints them.
pub fn prepare_build_image(bytes: Vec<Vec<u8>>, width: usize, height: usize, colors: u16, ecc_bytes: u8) -> (frame: Raster)
    requires
        valid_colors(colors),
        valid_ecc_bytes(ecc_bytes),
        forall|j: int| 0 <= j < bytes@.len() ==> (#[trigger] bytes@[j])@.len() == BLOCK_SIZE - ecc_bytes,
        width * height <= usize::MAX,
        bytes@.len() * BLOCK_SIZE * pixels_per_byte(bits_for(colors)) <= width * height,
    ensures
        frame.wf(),
        frame@ == (RasterView {
            width: width as nat,
            height: height as nat,
            pixels: frame_pixels(
                encode_blocks(joined(bytes@, bytes@.len() as int), ecc_bytes as nat, bytes@.len() as int),
                colors,
                (width * height) as nat,
            ),
        }),
{
    let ghost content = joined(bytes@, bytes@.len() as int);
    let ghost size: nat = (BLOCK_SIZE - ecc_bytes) as nat;
    proof {
        lemma_joined_uniform(bytes@, size, bytes@.len() as int);
    }
    let codec = BlockCodec::new(BLOCK_SIZE, ecc_bytes as usize);
    let mut bytes_for_frame: Vec<u8> = Vec::new();
    let mut j: usize = 0;
    while j < bytes.len()
        invariant
            valid_ecc_bytes(ecc_bytes),
            codec.wf(),
            codec.block_len() == BLOCK_SIZE,
            codec.ecc_len() == ecc_bytes,
            size == BLOCK_SIZE - ecc_bytes,
            content == joined(bytes@, bytes@.len() as int),
            content.len() == bytes@.len() * size,
            forall|i: int| 0 <= i < bytes@.len() ==> (#[trigger] bytes@[i])@.len() == size,
            forall|i: int|
                0 <= i < bytes@.len() ==> content.subrange(i * size, (i + 1) * size)
                    == (#[trigger] bytes@[i])@,
            j <= bytes.len(),
            bytes_for_frame@ == encode_blocks(content, ecc_bytes as nat, j as int),
            bytes_for_frame@.len() == j * BLOCK_SIZE,
        decreases bytes.len() - j,
    {
        let block = codec.encode(bytes[j].as_slice());
        assert(block_content(content, ecc_bytes as nat, j as int) == bytes@[j as int]@);
        bytes_for_frame.extend_from_slice(block.as_slice());
        assert(bytes_for_frame@ =~= encode_blocks(content, ecc_bytes as nat, j + 1));
        j += 1;
    }
    build_frame(bytes_for_frame.as_slice(), width, height, colors)
}

/// What reading one data frame gives.
#[derive(Clone, Debug)]
pub struct FrameReport {
    /// The content bytes of the frame, block after block.
    pub content: Vec<u8>,
    /// Pixels that were palette entries exactly.
    pub exact_pixels: usize,
    /// Pixels that were snapped to the nearest palette entry.
    pub estimated_pixels: usize,
    /// Symbols that the block codec corrected.
    pub corrected: u64,
    /// Blocks that the block codec gave up.
    pub unrecoverable_blocks: u64,
    /// The payload byte range `[start, end)` of every block that was given up.
    pub damaged: Vec<(u128, u128)>,
}

/// Reads data frame `number`: reads the bytes off its pixels and decodes the
/// first `blocks_per_frame` blocks. A block that cannot be corrected passes its
/// raw content prefix through and is reported with the byte range of the
/// payload that it stands for.
pub fn read_frame(frame: &Raster, colors: u16, ecc_count: u8, blocks_per_frame: usize, number: u64) -> (report: FrameReport)
    requires
        frame.wf(),
        valid_colors(colors),
        valid_ecc_bytes(ecc_count),
        blocks_per_frame * BLOCK_SIZE * pixels_per_byte(bits_for(colors)) <= frame@.pixels.len(),
    ensures
        report.content@ == frame_content(
            raw_bytes(frame@.pixels, colors),
            ecc_count as nat,
            blocks_per_frame as int,
        ),
        report.exact_pixels == exact_count(frame@.pixels, colors, frame@.pixels.len() as int),
        report.exact_pixels + report.estimated_pixels == frame@.pixels.len(),
        report.corrected == corrected_symbols(
            raw_bytes(frame@.pixels, colors),
            ecc_count as nat,
            blocks_per_frame as int,
        ),
        report.unrecoverable_blocks == unrecoverable_count(
            raw_bytes(frame@.pixels, colors),
            ecc_count as nat,
            blocks_per_frame as int,
        ),
        2 * report.corrected <= ecc_count * blocks_per_frame,
        report.unrecoverable_blocks <= blocks_per_frame,
        report.damaged@ == damaged_ranges(
            raw_bytes(frame@.pixels, colors),
            ecc_count as nat,
            number * (blocks_per_frame * (BLOCK_SIZE - ecc_count)),
            blocks_per_frame as int,
        ),
{
    let content_bytes_per_block: usize = BLOCK_SIZE - ecc_count as usize;
    let raw = read_raw_frame(frame, colors);
    let ghost bytes = raw_bytes(frame@.pixels, colors);
    assert(bytes.len() >= blocks_per_frame * BLOCK_SIZE) by {
        let count: int = snapped(frame@.pixels, colors).len() as int;
        let need: int = blocks_per_frame * BLOCK_SIZE;
        let per_byte: int = pixels_per_byte(bits_for(colors));
        assert(need * per_byte <= count);
        assert(bytes.len() == count / per_byte);
        assert(count / per_byte >= need) by (nonlinear_arith)
            requires
                need * per_byte <= count,
                per_byte == 8 || per_byte == 4,
        ;
    }
    assert(raw.bytes.len() >= blocks_per_frame * BLOCK_SIZE);
    assert(blocks_per_frame * content_bytes_per_block <= blocks_per_frame * BLOCK_SIZE)
        by (nonlinear_arith)
        requires
            content_bytes_per_block <= BLOCK_SIZE,
    ;
    let content_bytes_per_frame: usize = blocks_per_frame * content_bytes_per_block;
    assert(number * content_bytes_per_frame <= 0xffff_ffff_ffff_ffff * 0xffff_ffff_ffff_ffff)
        by (nonlinear_arith)
        requires
            number <= 0xffff_ffff_ffff_ffff,
            content_bytes_per_frame <= 0xffff_ffff_ffff_ffff,
    ;
    let base: u128 = (number as u128) * (content_bytes_per_frame as u128);
    let codec = BlockCodec::new(BLOCK_SIZE, ecc_count as usize);
    let mut content: Vec<u8> = Vec::new();
    let mut corrected: u64 = 0;
    let mut unrecoverable_blocks: u64 = 0;
    let mut damaged: Vec<(u128, u128)> = Vec::new();
    let mut i: usize = 0;
    while i < blocks_per_frame
        invariant
            valid_ecc_bytes(ecc_count),
            codec.wf(),
            codec.block_len() == BLOCK_SIZE,
            codec.ecc_len() == ecc_count,
            content_bytes_per_block == BLOCK_SIZE - ecc_count,
            content_bytes_per_frame == blocks_per_frame * content_bytes_per_block,
            base == number * content_bytes_per_frame,
            base <= 0xffff_ffff_ffff_ffff * 0xffff_ffff_ffff_ffff,
            raw.bytes@ == bytes,
            raw.bytes.len() >= blocks_per_frame * BLOCK_SIZE,
            i <= blocks_per_frame,
            content@ == frame_content(bytes, ecc_count as nat, i as int),
            corrected == corrected_symbols(bytes, ecc_count as nat, i as int),
            2 * corrected <= ecc_count * i,
            corrected <= 63 * i,
            unrecoverable_blocks == unrecoverable_count(bytes, ecc_count as nat, i as int),
            unrecoverable_blocks <= i,
            damaged@ == damaged_ranges(bytes, ecc_count as nat, base as int, i as int),
        decreases blocks_per_frame - i,
    {
        let current_block = slice_subrange(raw.bytes.as_slice(), i * BLOCK_SIZE, (i + 1) * BLOCK_SIZE);
        assert(current_block@ == block_at(bytes, i as int));
        let outcome = codec.decode(current_block);
        let piece = content_of(current_block, &outcome, content_bytes_per_block);
        content.extend_from_slice(piece.as_slice());
        match outcome {
            Ok((_, count)) => {
                assert(ecc_count * (i + 1) == ecc_count * i + ecc_count) by (nonlinear_arith);
                corrected = corrected + count as u64;
            },
            Err(_) => {
                assert(ecc_count * (i + 1) == ecc_count * i + ecc_count) by (nonlinear_arith);
                assert((i + 1) * content_bytes_per_block <= blocks_per_frame
                    * content_bytes_per_block && 0 <= i * content_bytes_per_block) by (nonlinear_arith)
                    requires
                        0 <= i < blocks_per_frame,
                ;
                assert((i + 1) * content_bytes_per_block == i * content_bytes_per_block
                    + content_bytes_per_block) by (nonlinear_arith);
                let start: u128 = base + (i * content_bytes_per_block) as u128;
                damaged.push((start, start + content_bytes_per_block as u128));
                unrecoverable_blocks = unrecoverable_blocks + 1;
            },
        }
        assert(content@ =~= frame_content(bytes, ecc_count as nat, i + 1));
        i += 1;
    }
    FrameReport {
        content,
        exact_pixels: raw.exact_pixels,
        estimated_pixels: raw.estimated_pixels,
        corrected,
        unrecoverable_blocks,
        damaged,
    }
}

} // verus!
