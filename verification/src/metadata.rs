//! The metadata header: the first block of every encoded payload.
//!
//! The header is 250 bytes long. Its first 218 bytes hold the fields, every
//! integer big-endian; the last 32 bytes are the Reed-Solomon suffix over the
//! first 218.
//!
//! | offset | length | field |
//! |---|---|---|
//! | 0 | 2 | encoding version |
//! | 2 | 2 | palette size |
//! | 4 | 1 | pixel size |
//! | 5 | 8 | payload size in bytes |
//! | 13 | 4 | CRC-32 of the payload |
//! | 17 | 1 | error-correction bytes per data block |
//! | 18 | 200 | file name, padded with zero bytes |
//! | 218 | 32 | Reed-Solomon suffix |

use crate::block::{corrected_spec, lemma_decode_encoded, lemma_encoded_is_codeword, parity_spec, BlockCodec};
use crate::common::{zeros, ENCODING_VERSION};
use crate::error::{DecodeError, EncodeError};
use crate::frame::{build_frame, frame_pixels, lemma_read_built_frame, raw_bytes, read_raw_frame, valid_ecc_bytes};
use crate::palette::valid_colors;
use crate::raster::{Raster, RasterView};
use vstd::prelude::*;
use vstd::slice::slice_subrange;

verus! {

/// Length of the header block.
pub const METADATA_SIZE: usize = 250;

/// Length of the fields of the header, which its suffix protects.
pub const HEADER_SIZE: usize = 218;

/// Length of the Reed-Solomon suffix of the header.
pub const METADATA_ECC: usize = 32;

/// Longest file name that the header holds, in bytes.
pub const MAX_NAME_LEN: usize = 200;

/// Offset of the file name in the header.
pub const NAME_OFFSET: usize = 18;

/// Pixels that a frame needs to carry the header at one bit per pixel.
pub const METADATA_PIXELS: usize = 2000;

/// The fields of a header.
pub struct MetadataView {
    pub encoding_version: u16,
    pub palette_size: u16,
    pub pixel_size: u8,
    pub payload_size: u64,
    pub payload_crc32: u32,
    pub ecc_bytes: u8,
    pub file_name: Seq<u8>,
}

/// The description of an encoded payload that travels in the first frame.
#[derive(Clone, Debug)]
pub struct Metadata {
    /// Version of the frame format.
    pub encoding_version: u16,
    /// Number of colours of the palette of the data frames, 2 or 4.
    pub palette_size: u16,
    /// Reserved; always written as 1.
    pub pixel_size: u8,
    /// Length of the payload in bytes.
    pub payload_size: u64,
    /// CRC-32 of the payload.
    pub payload_crc32: u32,
    /// Error-correction bytes in every data block.
    pub ecc_bytes: u8,
    /// Name of the file that the payload came from, in UTF-8.
    pub file_name: Vec<u8>,
}

impl View for Metadata {
    type V = MetadataView;

    open spec fn view(&self) -> MetadataView {
        MetadataView {
            encoding_version: self.encoding_version,
            palette_size: self.palette_size,
            pixel_size: self.pixel_size,
            payload_size: self.payload_size,
            payload_crc32: self.payload_crc32,
            ecc_bytes: self.ecc_bytes,
            file_name: self.file_name@,
        }
    }
}

impl MetadataView {
    /// The name fits the header and does not end in a zero byte, so that it
    /// can be told from its padding.
    pub open spec fn wf(self) -> bool {
        &&& self.file_name.len() <= MAX_NAME_LEN
        &&& self.file_name.len() > 0 ==> self.file_name.last() != 0
    }
}

/// The two bytes of `value`, most significant first.
pub open spec fn be16(value: u16) -> Seq<u8> {
    seq![(value / 256) as u8, (value % 256) as u8]
}

/// The four bytes of `value`, most significant first.
pub open spec fn be32(value: u32) -> Seq<u8> {
    seq![
        (value / 16777216) as u8,
        (value / 65536 % 256) as u8,
        (value / 256 % 256) as u8,
        (value % 256) as u8,
    ]
}

/// The eight bytes of `value`, most significant first.
pub open spec fn be64(value: u64) -> Seq<u8> {
    be32((value / 4294967296) as u32) + be32((value % 4294967296) as u32)
}

/// The number that two bytes spell, most significant first.
pub open spec fn from_be16(bytes: Seq<u8>) -> u16 {
    (bytes[0] * 256 + bytes[1]) as u16
}

/// The number that four bytes spell, most significant first.
pub open spec fn from_be32(bytes: Seq<u8>) -> u32 {
    (bytes[0] * 16777216 + bytes[1] * 65536 + bytes[2] * 256 + bytes[3]) as u32
}

/// The number that eight bytes spell, most significant first.
pub open spec fn from_be64(bytes: Seq<u8>) -> u64 {
    (from_be32(bytes.subrange(0, 4)) * 4294967296 + from_be32(bytes.subrange(4, 8))) as u64
}

/// `bytes` without the zero bytes at its end.
pub open spec fn strip_trailing_zeros(bytes: Seq<u8>) -> Seq<u8>
    decreases bytes.len(),
{
    if bytes.len() > 0 && bytes.last() == 0 {
        strip_trailing_zeros(bytes.drop_last())
    } else {
        bytes
    }
}

/// The 218 bytes of the fields of a header.
pub open spec fn header_bytes(meta: MetadataView) -> Seq<u8> {
    be16(meta.encoding_version) + be16(meta.palette_size) + seq![meta.pixel_size] + be64(
        meta.payload_size,
    ) + be32(meta.payload_crc32) + seq![meta.ecc_bytes] + meta.file_name + zeros(
        (MAX_NAME_LEN - meta.file_name.len()) as nat,
    )
}

/// The 250 bytes of a header: its fields and their Reed-Solomon suffix.
pub open spec fn metadata_block(meta: MetadataView) -> Seq<u8> {
    header_bytes(meta) + parity_spec(header_bytes(meta), METADATA_ECC as nat)
}

/// The fields that the first 218 bytes of `bytes` spell.
pub open spec fn parse_header(bytes: Seq<u8>) -> MetadataView {
    MetadataView {
        encoding_version: from_be16(bytes.subrange(0, 2)),
        palette_size: from_be16(bytes.subrange(2, 4)),
        pixel_size: bytes[4],
        payload_size: from_be64(bytes.subrange(5, 13)),
        payload_crc32: from_be32(bytes.subrange(13, 17)),
        ecc_bytes: bytes[17],
        file_name: strip_trailing_zeros(bytes.subrange(NAME_OFFSET as int, HEADER_SIZE as int)),
    }
}

/// The frame of `width` by `height` pixels that carries a header: always in
/// the two-colour palette, whatever the palette of the data frames.
pub open spec fn metadata_frame_spec(meta: MetadataView, width: nat, height: nat) -> RasterView {
    RasterView { width, height, pixels: frame_pixels(metadata_block(meta), 2, width * height) }
}

/// What reading a header off the pixels of a first frame gives.
pub open spec fn read_metadata_spec(pixels: Seq<[u8; 3]>) -> Result<MetadataView, DecodeError> {
    let block = raw_bytes(pixels, 2).subrange(0, METADATA_SIZE as int);
    match corrected_spec(block, METADATA_ECC as nat) {
        None => Err(DecodeError::MetadataUnrecoverable),
        Some(corrected) => {
            let meta = parse_header(corrected.0);
            if meta.encoding_version != ENCODING_VERSION {
                Err(DecodeError::VersionMismatch { found: meta.encoding_version })
            } else if !valid_colors(meta.palette_size) || !valid_ecc_bytes(meta.ecc_bytes) {
                Err(DecodeError::MalformedHeader)
            } else {
                Ok(meta)
            }
        },
    }
}

/// Spelling a number in two bytes and reading it back gives the number.
pub proof fn lemma_be16_round_trip(value: u16)
    ensures
        be16(value).len() == 2,
        from_be16(be16(value)) == value,
{
    assert(value / 256 < 256 && (value / 256) * 256 + value % 256 == value) by (bit_vector);
}

/// Spelling a number in four bytes and reading it back gives the number.
pub proof fn lemma_be32_round_trip(value: u32)
    ensures
        be32(value).len() == 4,
        from_be32(be32(value)) == value,
{
    assert(value / 16777216 < 256) by (bit_vector);
    assert((value / 16777216) * 16777216 + (value / 65536 % 256) * 65536 + (value / 256 % 256) * 256
        + value % 256 == value) by (bit_vector);
    let bytes = be32(value);
    assert(bytes[0] == value / 16777216);
    assert(bytes[1] == value / 65536 % 256);
    assert(bytes[2] == value / 256 % 256);
    assert(bytes[3] == value % 256);
}

/// Spelling a number in eight bytes and reading it back gives the number.
pub proof fn lemma_be64_round_trip(value: u64)
    ensures
        be64(value).len() == 8,
        from_be64(be64(value)) == value,
{
    let high: u32 = (value / 4294967296) as u32;
    let low: u32 = (value % 4294967296) as u32;
    lemma_be32_round_trip(high);
    lemma_be32_round_trip(low);
    assert(be64(value).subrange(0, 4) =~= be32(high));
    assert(be64(value).subrange(4, 8) =~= be32(low));
}

/// Zero padding behind a name that does not end in a zero byte is stripped
/// again, and nothing else is.
pub proof fn lemma_strip_padding(name: Seq<u8>, padding: nat)
    requires
        name.len() > 0 ==> name.last() != 0,
    ensures
        strip_trailing_zeros(name + zeros(padding)) == name,
    decreases padding,
{
    let padded = name + zeros(padding);
    if padding == 0 {
        assert(padded =~= name);
    } else {
        assert(padded.last() == 0);
        assert(padded.drop_last() =~= name + zeros((padding - 1) as nat));
        lemma_strip_padding(name, (padding - 1) as nat);
    }
}

/// The fields of a header are 218 bytes long.
pub proof fn lemma_header_len(meta: MetadataView)
    requires
        meta.file_name.len() <= MAX_NAME_LEN,
    ensures
        header_bytes(meta).len() == HEADER_SIZE,
        metadata_block(meta).len() == METADATA_SIZE,
{
    lemma_encoded_is_codeword(header_bytes(meta), METADATA_ECC as nat);
}

/// Parsing the bytes of a header yields the fields that went in.
pub proof fn lemma_parse_header_bytes(meta: MetadataView, tail: Seq<u8>)
    requires
        meta.wf(),
    ensures
        parse_header(header_bytes(meta) + tail) == meta,
{
    let bytes = header_bytes(meta) + tail;
    let padding = zeros((MAX_NAME_LEN - meta.file_name.len()) as nat);
    lemma_header_len(meta);
    lemma_be16_round_trip(meta.encoding_version);
    lemma_be16_round_trip(meta.palette_size);
    lemma_be64_round_trip(meta.payload_size);
    lemma_be32_round_trip(meta.payload_crc32);
    lemma_strip_padding(meta.file_name, (MAX_NAME_LEN - meta.file_name.len()) as nat);
    assert(bytes.subrange(0, 2) =~= be16(meta.encoding_version));
    assert(bytes.subrange(2, 4) =~= be16(meta.palette_size));
    assert(bytes[4] == meta.pixel_size);
    assert(bytes.subrange(5, 13) =~= be64(meta.payload_size));
    assert(bytes.subrange(13, 17) =~= be32(meta.payload_crc32));
    assert(bytes[17] == meta.ecc_bytes);
    assert(bytes.subrange(NAME_OFFSET as int, HEADER_SIZE as int) =~= meta.file_name + padding);
}

/// A header frame read back as it was built yields the header that went in,
/// provided the header is of this version and names a palette and a suffix
/// length that the format knows.
pub proof fn lemma_read_metadata_frame(meta: MetadataView, width: nat, height: nat)
    requires
        meta.wf(),
        meta.encoding_version == ENCODING_VERSION,
        valid_colors(meta.palette_size),
        valid_ecc_bytes(meta.ecc_bytes),
        width * height >= METADATA_PIXELS,
    ensures
        read_metadata_spec(metadata_frame_spec(meta, width, height).pixels) == Ok::<
            MetadataView,
            DecodeError,
        >(meta),
{
    let block = metadata_block(meta);
    let pixels = metadata_frame_spec(meta, width, height).pixels;
    lemma_header_len(meta);
    lemma_read_built_frame(block, 2, width * height);
    assert(raw_bytes(pixels, 2).subrange(0, METADATA_SIZE as int) == block);
    lemma_decode_encoded(header_bytes(meta), METADATA_ECC as nat);
    lemma_encoded_is_codeword(header_bytes(meta), METADATA_ECC as nat);
    lemma_parse_header_bytes(meta, parity_spec(header_bytes(meta), METADATA_ECC as nat));
}

fn push_be16(buffer: &mut Vec<u8>, value: u16)
    ensures
        final(buffer)@ == old(buffer)@ + be16(value),
{
    buffer.push((value / 256) as u8);
    buffer.push((value % 256) as u8);
    assert(buffer@ =~= old(buffer)@ + be16(value));
}

fn push_be32(buffer: &mut Vec<u8>, value: u32)
    ensures
        final(buffer)@ == old(buffer)@ + be32(value),
{
    buffer.push((value / 16777216) as u8);
    buffer.push((value / 65536 % 256) as u8);
    buffer.push((value / 256 % 256) as u8);
    buffer.push((value % 256) as u8);
    assert(buffer@ =~= old(buffer)@ + be32(value));
}

fn push_be64(buffer: &mut Vec<u8>, value: u64)
    ensures
        final(buffer)@ == old(buffer)@ + be64(value),
{
    push_be32(buffer, (value / 4294967296) as u32);
    push_be32(buffer, (value % 4294967296) as u32);
    assert(buffer@ =~= old(buffer)@ + be64(value));
}

fn read_be16(bytes: &[u8], at: usize) -> (value: u16)
    requires
        at + 2 <= bytes.len(),
    ensures
        value == from_be16(bytes@.subrange(at as int, at + 2)),
{
    (bytes[at] as u16) * 256 + bytes[at + 1] as u16
}

fn read_be32(bytes: &[u8], at: usize) -> (value: u32)
    requires
        at + 4 <= bytes.len(),
    ensures
        value == from_be32(bytes@.subrange(at as int, at + 4)),
{
    (bytes[at] as u32) * 16777216 + (bytes[at + 1] as u32) * 65536 + (bytes[at + 2] as u32) * 256
        + bytes[at + 3] as u32
}

fn read_be64(bytes: &[u8], at: usize) -> (value: u64)
    requires
        at + 8 <= bytes.len(),
    ensures
        value == from_be64(bytes@.subrange(at as int, at + 8)),
{
    let high: u32 = read_be32(bytes, at);
    let low: u32 = read_be32(bytes, at + 4);
    assert(bytes@.subrange(at as int, at + 8).subrange(0, 4) =~= bytes@.subrange(at as int, at + 4));
    assert(bytes@.subrange(at as int, at + 8).subrange(4, 8) =~= bytes@.subrange(at + 4, at + 8));
    (high as u64) * 4294967296 + low as u64
}

/// Writes the 250 bytes of a header, or fails with `NameTooLong` where the
/// file name is longer than 200 bytes.
pub fn encode_metadata(meta: &Metadata) -> (outcome: Result<Vec<u8>, EncodeError>)
    ensures
        meta@.file_name.len() <= MAX_NAME_LEN ==> (outcome matches Ok(block) && block@
            == metadata_block(meta@)),
        meta@.file_name.len() > MAX_NAME_LEN ==> outcome == Err::<Vec<u8>, EncodeError>(
            EncodeError::NameTooLong,
        ),
{
    if meta.file_name.len() > MAX_NAME_LEN {
        return Err(EncodeError::NameTooLong);
    }
    let mut block: Vec<u8> = Vec::with_capacity(METADATA_SIZE);
    push_be16(&mut block, meta.encoding_version);
    push_be16(&mut block, meta.palette_size);
    block.push(meta.pixel_size);
    push_be64(&mut block, meta.payload_size);
    push_be32(&mut block, meta.payload_crc32);
    block.push(meta.ecc_bytes);
    block.extend_from_slice(meta.file_name.as_slice());
    let mut padding: usize = MAX_NAME_LEN - meta.file_name.len();
    let ghost named = block@;
    while padding > 0
        invariant
            padding <= MAX_NAME_LEN - meta.file_name.len(),
            block@ == named + zeros((MAX_NAME_LEN - meta.file_name.len() - padding) as nat),
        decreases padding,
    {
        block.push(0);
        padding -= 1;
        assert(block@ =~= named + zeros((MAX_NAME_LEN - meta.file_name.len() - padding) as nat));
    }
    assert(block@ =~= header_bytes(meta@));
    proof {
        lemma_header_len(meta@);
    }
    let codec = BlockCodec::new(METADATA_SIZE, METADATA_ECC);
    Ok(codec.encode(block.as_slice()))
}

/// Reads the fields off the first 218 bytes of a header block. Zero bytes at
/// the end of the name field are padding and are left out of the name.
pub fn parse_metadata(block: &[u8]) -> (meta: Metadata)
    requires
        block.len() >= HEADER_SIZE,
    ensures
        meta@ == parse_header(block@),
{
    let mut end: usize = HEADER_SIZE;
    let ghost field = block@.subrange(NAME_OFFSET as int, HEADER_SIZE as int);
    while end > NAME_OFFSET && block[end - 1] == 0
        invariant
            NAME_OFFSET <= end <= HEADER_SIZE <= block.len(),
            field == block@.subrange(NAME_OFFSET as int, HEADER_SIZE as int),
            strip_trailing_zeros(field) == strip_trailing_zeros(
                block@.subrange(NAME_OFFSET as int, end as int),
            ),
        decreases end,
    {
        assert(block@.subrange(NAME_OFFSET as int, end as int).drop_last() =~= block@.subrange(
            NAME_OFFSET as int,
            end - 1,
        ));
        end -= 1;
    }
    let name = slice_subrange(block, NAME_OFFSET, end);
    let mut file_name: Vec<u8> = Vec::with_capacity(end - NAME_OFFSET);
    file_name.extend_from_slice(name);
    assert(file_name@ =~= name@);
    Metadata {
        encoding_version: read_be16(block, 0),
        palette_size: read_be16(block, 2),
        pixel_size: block[4],
        payload_size: read_be64(block, 5),
        payload_crc32: read_be32(block, 13),
        ecc_bytes: block[17],
        file_name,
    }
}

/// Paints a header into the first frame of a video, in the two-colour palette.
/// Fails with `NameTooLong` where the file name is longer than 200 bytes.
pub fn build_metadata_frame(meta: &Metadata, width: usize, height: usize) -> (outcome: Result<Raster, EncodeError>)
    requires
        METADATA_PIXELS <= width * height <= usize::MAX,
    ensures
        meta@.file_name.len() <= MAX_NAME_LEN ==> (outcome matches Ok(frame) && frame.wf()
            && frame@ == metadata_frame_spec(meta@, width as nat, height as nat)),
        meta@.file_name.len() > MAX_NAME_LEN ==> (outcome matches Err(error) && error
            == EncodeError::NameTooLong),
{
    match encode_metadata(meta) {
        Ok(block) => {
            proof {
                lemma_header_len(meta@);
            }
            Ok(build_frame(block.as_slice(), width, height, 2))
        },
        Err(error) => Err(error),
    }
}

/// Reads the header off the first frame of a video: reads the frame in the
/// two-colour palette, corrects the first 250 bytes and parses them.
///
/// Fails with `MetadataUnrecoverable` where the block cannot be corrected,
/// with `VersionMismatch` where the header is of another version of the format,
/// and with `MalformedHeader` where it names a palette size other than 2 and 4
/// or a suffix length outside 1 to 126.
pub fn read_metadata(frame: &Raster) -> (outcome: Result<Metadata, DecodeError>)
    requires
        frame.wf(),
        frame@.pixels.len() >= METADATA_PIXELS,
    ensures
        outcome matches Ok(meta) ==> read_metadata_spec(frame@.pixels) == Ok::<
            MetadataView,
            DecodeError,
        >(meta@),
        outcome matches Err(error) ==> read_metadata_spec(frame@.pixels) == Err::<
            MetadataView,
            DecodeError,
        >(error),
{
    let raw = read_raw_frame(frame, 2);
    assert(raw.bytes@.len() >= METADATA_SIZE);
    let block = slice_subrange(raw.bytes.as_slice(), 0, METADATA_SIZE);
    let codec = BlockCodec::new(METADATA_SIZE, METADATA_ECC);
    match codec.decode(block) {
        Err(_) => Err(DecodeError::MetadataUnrecoverable),
        Ok((corrected, _)) => {
            let meta = parse_metadata(corrected.as_slice());
            if meta.encoding_version != ENCODING_VERSION {
                Err(DecodeError::VersionMismatch { found: meta.encoding_version })
            } else if (meta.palette_size != 2 && meta.palette_size != 4) || meta.ecc_bytes < 1
                || meta.ecc_bytes > 126 {
                Err(DecodeError::MalformedHeader)
            } else {
                Ok(meta)
            }
        },
    }
}

} // verus!
