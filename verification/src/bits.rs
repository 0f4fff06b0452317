//! Bit packing: bytes to palette indices and back.
//!
//! A byte is cut into groups of `bits_per_pixel` bits, most significant group
//! first, and every group becomes the palette index of one pixel. With one bit
//! per pixel bits 7 down to 0 become pixels 0 to 7; with two bits per pixel the
//! bit pairs (7:6), (5:4), (3:2), (1:0) become pixels 0 to 3.

use vstd::prelude::*;

verus! {

/// The pixel depths that the format knows: one or two bits per pixel.
pub open spec fn valid_bits(bits_per_pixel: u8) -> bool {
    bits_per_pixel == 1 || bits_per_pixel == 2
}

/// Number of pixels that carry one byte.
pub open spec fn pixels_per_byte(bits_per_pixel: u8) -> int {
    if bits_per_pixel == 1 {
        8
    } else {
        4
    }
}

/// Mask that keeps the low `bits_per_pixel` bits.
pub open spec fn pixel_mask(bits_per_pixel: u8) -> u8 {
    if bits_per_pixel == 1 {
        1
    } else {
        3
    }
}

/// Position of the lowest bit of pixel `k` inside its byte.
pub open spec fn pixel_shift(bits_per_pixel: u8, k: int) -> u8 {
    if bits_per_pixel == 1 {
        (7 - k) as u8
    } else {
        (6 - 2 * k) as u8
    }
}

/// Palette index carried by pixel `k` of byte `b`.
pub open spec fn pixel_of_byte(b: u8, bits_per_pixel: u8, k: int) -> u8 {
    (b >> pixel_shift(bits_per_pixel, k)) & pixel_mask(bits_per_pixel)
}

/// The pixels of one byte, in order.
pub open spec fn byte_pixels(b: u8, bits_per_pixel: u8) -> Seq<u8> {
    Seq::new(pixels_per_byte(bits_per_pixel) as nat, |k: int| pixel_of_byte(b, bits_per_pixel, k))
}

/// The byte whose first `n` pixels are the first `n` entries of `window`
/// and whose remaining bits are zero.
pub open spec fn join_pixels(window: Seq<u8>, bits_per_pixel: u8, n: int) -> u8
    decreases n,
{
    if n <= 0 {
        0u8
    } else {
        join_pixels(window, bits_per_pixel, n - 1) | ((window[n - 1] & pixel_mask(bits_per_pixel))
            << pixel_shift(bits_per_pixel, n - 1))
    }
}

/// Palette indices of `bytes`: pixel `j` is pixel `j mod p` of byte `j / p`,
/// where `p` is the number of pixels per byte.
pub open spec fn pack_spec(bytes: Seq<u8>, bits_per_pixel: u8) -> Seq<u8> {
    Seq::new(
        (bytes.len() * pixels_per_byte(bits_per_pixel)) as nat,
        |j: int|
            pixel_of_byte(
                bytes[j / pixels_per_byte(bits_per_pixel)],
                bits_per_pixel,
                j % pixels_per_byte(bits_per_pixel),
            ),
    )
}

/// Bytes carried by `pixels`: byte `i` joins the `p` pixels from `i * p` on.
/// Pixels behind the last whole byte are dropped.
pub open spec fn unpack_spec(pixels: Seq<u8>, bits_per_pixel: u8) -> Seq<u8> {
    Seq::new(
        (pixels.len() as int / pixels_per_byte(bits_per_pixel)) as nat,
        |i: int|
            join_pixels(
                pixels.subrange(
                    i * pixels_per_byte(bits_per_pixel),
                    (i + 1) * pixels_per_byte(bits_per_pixel),
                ),
                bits_per_pixel,
                pixels_per_byte(bits_per_pixel),
            ),
    )
}

/// Every pixel that `pack_spec` gives is an index below `2^bits_per_pixel`.
pub proof fn lemma_pack_in_range(bytes: Seq<u8>, bits_per_pixel: u8, j: int)
    requires
        valid_bits(bits_per_pixel),
        0 <= j < pack_spec(bytes, bits_per_pixel).len(),
    ensures
        pack_spec(bytes, bits_per_pixel)[j] <= pixel_mask(bits_per_pixel),
{
    let b: u8 = bytes[j / pixels_per_byte(bits_per_pixel)];
    let s: u8 = pixel_shift(bits_per_pixel, j % pixels_per_byte(bits_per_pixel));
    assert(((b >> s) & 1u8) <= 1u8) by (bit_vector);
    assert(((b >> s) & 3u8) <= 3u8) by (bit_vector);
}

proof fn lemma_join_one_bit(b: u8)
    ensures
        join_pixels(byte_pixels(b, 1), 1, 8) == b,
{
    let w = byte_pixels(b, 1);
    reveal_with_fuel(join_pixels, 9);
    assert(w[0] == (b >> 7u8) & 1u8);
    assert(w[1] == (b >> 6u8) & 1u8);
    assert(w[2] == (b >> 5u8) & 1u8);
    assert(w[3] == (b >> 4u8) & 1u8);
    assert(w[4] == (b >> 3u8) & 1u8);
    assert(w[5] == (b >> 2u8) & 1u8);
    assert(w[6] == (b >> 1u8) & 1u8);
    assert(w[7] == (b >> 0u8) & 1u8);
    assert((0u8 | ((((b >> 7u8) & 1u8) & 1u8) << 7u8) | ((((b >> 6u8) & 1u8) & 1u8) << 6u8) | ((((b
        >> 5u8) & 1u8) & 1u8) << 5u8) | ((((b >> 4u8) & 1u8) & 1u8) << 4u8) | ((((b >> 3u8) & 1u8)
        & 1u8) << 3u8) | ((((b >> 2u8) & 1u8) & 1u8) << 2u8) | ((((b >> 1u8) & 1u8) & 1u8) << 1u8)
        | ((((b >> 0u8) & 1u8) & 1u8) << 0u8)) == b) by (bit_vector);
}

proof fn lemma_join_two_bits(b: u8)
    ensures
        join_pixels(byte_pixels(b, 2), 2, 4) == b,
{
    let w = byte_pixels(b, 2);
    reveal_with_fuel(join_pixels, 5);
    assert(w[0] == (b >> 6u8) & 3u8);
    assert(w[1] == (b >> 4u8) & 3u8);
    assert(w[2] == (b >> 2u8) & 3u8);
    assert(w[3] == (b >> 0u8) & 3u8);
    assert((0u8 | ((((b >> 6u8) & 3u8) & 3u8) << 6u8) | ((((b >> 4u8) & 3u8) & 3u8) << 4u8) | ((((b
        >> 2u8) & 3u8) & 3u8) << 2u8) | ((((b >> 0u8) & 3u8) & 3u8) << 0u8)) == b) by (bit_vector);
}

/// Joining the pixels of a byte gives the byte back.
pub proof fn lemma_join_byte_pixels(b: u8, bits_per_pixel: u8)
    requires
        valid_bits(bits_per_pixel),
    ensures
        join_pixels(byte_pixels(b, bits_per_pixel), bits_per_pixel, pixels_per_byte(bits_per_pixel))
            == b,
{
    if bits_per_pixel == 1 {
        lemma_join_one_bit(b);
    } else {
        lemma_join_two_bits(b);
    }
}

/// The pixels that carry byte `i` of a packed buffer are the pixels of that byte,
/// whatever follows the packed pixels.
pub proof fn lemma_pack_window(bytes: Seq<u8>, tail: Seq<u8>, bits_per_pixel: u8, i: int)
    requires
        valid_bits(bits_per_pixel),
        0 <= i < bytes.len(),
    ensures
        (pack_spec(bytes, bits_per_pixel) + tail).subrange(
            i * pixels_per_byte(bits_per_pixel),
            (i + 1) * pixels_per_byte(bits_per_pixel),
        ) == byte_pixels(bytes[i], bits_per_pixel),
{
    let p: int = pixels_per_byte(bits_per_pixel);
    let packed = pack_spec(bytes, bits_per_pixel);
    let window = (packed + tail).subrange(i * p, (i + 1) * p);
    assert(packed.len() == bytes.len() * p);
    assert((i + 1) * p <= packed.len());
    assert forall|k: int| 0 <= k < p implies window[k] == byte_pixels(bytes[i], bits_per_pixel)[k] by {
        assert(window[k] == packed[i * p + k]);
        assert((i * p + k) / p == i);
        assert((i * p + k) % p == k);
    }
    assert(window =~= byte_pixels(bytes[i], bits_per_pixel));
}

/// Unpacking what was packed gives the bytes back, also where further pixels
/// follow the packed ones: the first `bytes.len()` bytes that come out are `bytes`.
pub proof fn lemma_unpack_pack_prefix(bytes: Seq<u8>, tail: Seq<u8>, bits_per_pixel: u8)
    requires
        valid_bits(bits_per_pixel),
    ensures
        unpack_spec(pack_spec(bytes, bits_per_pixel) + tail, bits_per_pixel).len() >= bytes.len(),
        unpack_spec(pack_spec(bytes, bits_per_pixel) + tail, bits_per_pixel).subrange(
            0,
            bytes.len() as int,
        ) == bytes,
{
    let p: int = pixels_per_byte(bits_per_pixel);
    let pixels = pack_spec(bytes, bits_per_pixel) + tail;
    let out = unpack_spec(pixels, bits_per_pixel);
    assert(pixels.len() == bytes.len() * p + tail.len());
    assert(pixels.len() as int / p >= bytes.len());
    assert forall|i: int| 0 <= i < bytes.len() implies out[i] == bytes[i] by {
        lemma_pack_window(bytes, tail, bits_per_pixel, i);
        lemma_join_byte_pixels(bytes[i], bits_per_pixel);
    }
    assert(out.subrange(0, bytes.len() as int) =~= bytes);
}

/// Packing is undone by unpacking: `unpack(pack(bytes)) == bytes` for every byte
/// sequence and both pixel depths.
pub proof fn lemma_unpack_pack(bytes: Seq<u8>, bits_per_pixel: u8)
    requires
        valid_bits(bits_per_pixel),
    ensures
        unpack_spec(pack_spec(bytes, bits_per_pixel), bits_per_pixel) == bytes,
{
    let p: int = pixels_per_byte(bits_per_pixel);
    let packed = pack_spec(bytes, bits_per_pixel);
    lemma_unpack_pack_prefix(bytes, Seq::empty(), bits_per_pixel);
    assert(packed + Seq::<u8>::empty() =~= packed);
    assert(packed.len() == bytes.len() * p);
    assert(packed.len() as int / p == bytes.len());
    assert(unpack_spec(packed, bits_per_pixel) =~= unpack_spec(packed, bits_per_pixel).subrange(
        0,
        bytes.len() as int,
    ));
}

/// Cuts every byte into palette indices, most significant bits first.
pub fn pack(bytes: &[u8], bits_per_pixel: u8) -> (pixels: Vec<u8>)
    requires
        valid_bits(bits_per_pixel),
        bytes.len() * pixels_per_byte(bits_per_pixel) <= usize::MAX,
    ensures
        pixels@ == pack_spec(bytes@, bits_per_pixel),
{
    let per_byte: usize = if bits_per_pixel == 1 { 8 } else { 4 };
    let mask: u8 = if bits_per_pixel == 1 { 1 } else { 3 };
    let mut pixels: Vec<u8> = Vec::new();
    let mut i: usize = 0;
    while i < bytes.len()
        invariant
            valid_bits(bits_per_pixel),
            per_byte == pixels_per_byte(bits_per_pixel),
            mask == pixel_mask(bits_per_pixel),
            i <= bytes.len(),
            pixels@ == pack_spec(bytes@.subrange(0, i as int), bits_per_pixel),
        decreases bytes.len() - i,
    {
        let b: u8 = bytes[i];
        let ghost before = pixels@;
        let mut k: usize = 0;
        while k < per_byte
            invariant
                valid_bits(bits_per_pixel),
                per_byte == pixels_per_byte(bits_per_pixel),
                mask == pixel_mask(bits_per_pixel),
                k <= per_byte,
                pixels@ == before + byte_pixels(b, bits_per_pixel).subrange(0, k as int),
            decreases per_byte - k,
        {
            let shift: u8 = if bits_per_pixel == 1 { (7 - k) as u8 } else { (6 - 2 * k) as u8 };
            pixels.push((b >> shift) & mask);
            k += 1;
        }
        proof {
            let done = bytes@.subrange(0, i as int);
            let next = bytes@.subrange(0, i + 1);
            assert(byte_pixels(b, bits_per_pixel).subrange(0, per_byte as int) =~= byte_pixels(
                b,
                bits_per_pixel,
            ));
            assert forall|j: int| 0 <= j < (i + 1) * per_byte implies pixels@[j] == pack_spec(
                next,
                bits_per_pixel,
            )[j] by {
                if j < i * per_byte {
                    assert(j / (per_byte as int) < i);
                    assert(pixels@[j] == pack_spec(done, bits_per_pixel)[j]);
                } else {
                    assert(j / (per_byte as int) == i);
                    assert(j % (per_byte as int) == j - i * per_byte);
                }
            }
            assert(pixels@ =~= pack_spec(next, bits_per_pixel));
        }
        i += 1;
    }
    assert(bytes@.subrange(0, i as int) =~= bytes@);
    pixels
}

/// Joins palette indices into bytes, the first pixel of each group in the top
/// bits. Of every index only the low `bits_per_pixel` bits count, and pixels
/// behind the last whole byte are dropped.
pub fn unpack(pixels: &[u8], bits_per_pixel: u8) -> (bytes: Vec<u8>)
    requires
        valid_bits(bits_per_pixel),
    ensures
        bytes@ == unpack_spec(pixels@, bits_per_pixel),
{
    let per_byte: usize = if bits_per_pixel == 1 { 8 } else { 4 };
    let mask: u8 = if bits_per_pixel == 1 { 1 } else { 3 };
    let count: usize = pixels.len() / per_byte;
    let mut bytes: Vec<u8> = Vec::with_capacity(count);
    let mut i: usize = 0;
    while i < count
        invariant
            valid_bits(bits_per_pixel),
            per_byte == pixels_per_byte(bits_per_pixel),
            mask == pixel_mask(bits_per_pixel),
            count == pixels.len() / per_byte,
            i <= count,
            bytes@ == unpack_spec(pixels@, bits_per_pixel).subrange(0, i as int),
        decreases count - i,
    {
        let base: usize = i * per_byte;
        let ghost window = pixels@.subrange(base as int, base + per_byte);
        let mut current: u8 = 0;
        let mut k: usize = 0;
        while k < per_byte
            invariant
                valid_bits(bits_per_pixel),
                per_byte == pixels_per_byte(bits_per_pixel),
                mask == pixel_mask(bits_per_pixel),
                k <= per_byte,
                base + per_byte <= pixels.len(),
                window == pixels@.subrange(base as int, base + per_byte),
                current == join_pixels(window, bits_per_pixel, k as int),
            decreases per_byte - k,
        {
            let shift: u8 = if bits_per_pixel == 1 { (7 - k) as u8 } else { (6 - 2 * k) as u8 };
            assert(window[k as int] == pixels@[base + k]);
            current = current | ((pixels[base + k] & mask) << shift);
            k += 1;
        }
        bytes.push(current);
        i += 1;
    }
    assert(bytes@ =~= unpack_spec(pixels@, bits_per_pixel));
    bytes
}

} // verus!
