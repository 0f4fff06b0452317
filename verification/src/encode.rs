//! The encode pipeline: from a payload to the frames of a video.
//!
//! The payload is padded with zero bytes to a whole number of frames and cut
//! into content blocks; each block gets its suffix, the blocks of a frame are
//! painted into a raster, and the header frame goes in front. `encode` does all
//! of it for a payload in memory. A caller that streams a file hands the
//! batches it reads to an `EncodeRun`, which decides how many frames each batch
//! makes and when the video is complete.

use crate::common::{joined, BLOCK_SIZE, ENCODING_VERSION};
use crate::crc::{crc32, crc32_ieee};
use crate::decode::fit_spec;
use crate::error::EncodeError;
use crate::frame::{encode_blocks, frame_pixels, prepare_build_image};
use crate::layout::{blocks_per_frame_spec, content_per_frame_spec, data_frames, data_frames_spec, layout, lemma_data_frames_cover, lemma_layout_bounds, needed_frames_spec, params_error, Layout};
use crate::metadata::{build_metadata_frame, metadata_frame_spec, Metadata, MetadataView, MAX_NAME_LEN};
use crate::raster::{views, Raster, RasterView};
use vstd::arithmetic::div_mod::{lemma_fundamental_div_mod, lemma_fundamental_div_mod_converse, lemma_mod_bound, lemma_mod_multiples_basic};
use vstd::prelude::*;
use vstd::slice::{slice_subrange, slice_to_vec};

verus! {

/// The content of data frame `index`: `size` bytes of the payload from byte
/// `index * size` on, with zero bytes where the payload has ended.
pub open spec fn frame_payload(payload: Seq<u8>, size: nat, index: int) -> Seq<u8> {
    Seq::new(
        size,
        |k: int|
            if index * size + k < payload.len() {
                payload[index * size + k]
            } else {
                0u8
            },
    )
}

/// Data frame `index` of the video of a payload.
pub open spec fn data_frame_spec(payload: Seq<u8>, width: nat, height: nat, colors: u16, ecc_bytes: u8, index: int) -> RasterView {
    RasterView {
        width,
        height,
        pixels: frame_pixels(
            encode_blocks(
                frame_payload(
                    payload,
                    content_per_frame_spec(width, height, colors, ecc_bytes),
                    index,
                ),
                ecc_bytes as nat,
                blocks_per_frame_spec(width, height, colors) as int,
            ),
            colors,
            width * height,
        ),
    }
}

/// The header of the video of a payload.
pub open spec fn header_for(payload: Seq<u8>, file_name: Seq<u8>, colors: u16, ecc_bytes: u8) -> MetadataView {
    MetadataView {
        encoding_version: ENCODING_VERSION,
        palette_size: colors,
        pixel_size: 1,
        payload_size: payload.len() as u64,
        payload_crc32: crc32_ieee(payload),
        ecc_bytes,
        file_name,
    }
}

/// Why a payload cannot be encoded, if it cannot: the name is checked first,
/// then the parameters.
pub open spec fn encode_error(file_name: Seq<u8>, width: nat, height: nat, colors: u16, ecc_bytes: u8) -> Option<EncodeError> {
    if file_name.len() > MAX_NAME_LEN {
        Some(EncodeError::NameTooLong)
    } else {
        params_error(width, height, colors, ecc_bytes)
    }
}

/// The frames of the video of a payload: the header frame, then the data
/// frames in the order of the payload bytes they carry.
pub open spec fn encoded_frames(payload: Seq<u8>, file_name: Seq<u8>, width: nat, height: nat, colors: u16, ecc_bytes: u8) -> Seq<RasterView> {
    Seq::new(
        needed_frames_spec(
            payload.len(),
            content_per_frame_spec(width, height, colors, ecc_bytes),
        ),
        |i: int|
            if i == 0 {
                metadata_frame_spec(
                    header_for(payload, file_name, colors, ecc_bytes),
                    width,
                    height,
                )
            } else {
                data_frame_spec(payload, width, height, colors, ecc_bytes, i - 1)
            },
    )
}

/// Consecutive pieces of one size, laid end to end, are the front of what they
/// were cut from.
pub proof fn lemma_joined_split(chunks: Seq<Vec<u8>>, content: Seq<u8>, size: nat, n: int)
    requires
        0 <= n <= chunks.len(),
        n * size <= content.len(),
        forall|j: int|
            0 <= j < n ==> (#[trigger] chunks[j])@ == content.subrange(j * size, (j + 1) * size),
    ensures
        joined(chunks, n) == content.subrange(0, n * size),
    decreases n,
{
    if n == 0 {
        assert(n * size == 0) by (nonlinear_arith)
            requires
                n == 0,
        ;
        assert(content.subrange(0, 0) =~= Seq::<u8>::empty());
    } else {
        assert((n - 1) * size + size == n * size && 0 <= (n - 1) * size) by (nonlinear_arith)
            requires
                n > 0,
        ;
        assert((n - 1 + 1) * size == n * size);
        lemma_joined_split(chunks, content, size, n - 1);
        assert(chunks[n - 1]@ == content.subrange((n - 1) * size, n * size));
        assert(joined(chunks, n) =~= content.subrange(0, n * size));
    }
}

/// Frames cut from a batch are the frames of the payload: where a zeroed
/// buffer of `capacity` bytes holds the `bytes` payload bytes behind the first
/// `first` whole frames, and the batch is full or ends with the payload, frame
/// `k` of the buffer is frame `first + k` of the payload.
pub proof fn lemma_batch_frame(payload: Seq<u8>, size: nat, first: int, bytes: nat, capacity: nat, k: int)
    requires
        0 <= first,
        0 <= k,
        bytes <= capacity,
        first * size + bytes <= payload.len(),
        bytes == capacity || first * size + bytes == payload.len(),
        (k + 1) * size <= capacity,
    ensures
        frame_payload(
            fit_spec(payload.subrange(first * size, first * size + bytes), capacity),
            size,
            k,
        ) == frame_payload(payload, size, first + k),
{
    let buffer = fit_spec(payload.subrange(first * size, first * size + bytes), capacity);
    assert((first + k) * size == first * size + k * size && (k + 1) * size == k * size + size && 0
        <= k * size && 0 <= first * size) by (nonlinear_arith)
        requires
            0 <= first,
            0 <= k,
    ;
    assert forall|j: int| 0 <= j < size implies frame_payload(buffer, size, k)[j] == frame_payload(
        payload,
        size,
        first + k,
    )[j] by {
        if k * size + j < bytes {
            assert(buffer[k * size + j] == payload[first * size + (k * size + j)]);
        }
    }
    assert(frame_payload(buffer, size, k) =~= frame_payload(payload, size, first + k));
}

/// Copies out the content of data frame `index`: `size` bytes of the payload
/// from byte `index * size` on, padded with zero bytes behind the payload's end.
pub fn frame_chunk(payload: &[u8], index: usize, size: usize) -> (chunk: Vec<u8>)
    requires
        index * size <= payload.len(),
    ensures
        chunk@ == frame_payload(payload@, size as nat, index as int),
{
    let start: usize = index * size;
    let available: usize = payload.len() - start;
    let mut chunk: Vec<u8> = Vec::with_capacity(size);
    let mut k: usize = 0;
    while k < size
        invariant
            start == index * size,
            start + available == payload.len(),
            k <= size,
            chunk@ == frame_payload(payload@, size as nat, index as int).subrange(0, k as int),
        decreases size - k,
    {
        let byte: u8 = if k < available { payload[start + k] } else { 0 };
        chunk.push(byte);
        assert(chunk@ =~= frame_payload(payload@, size as nat, index as int).subrange(0, k + 1));
        k += 1;
    }
    assert(chunk@ =~= frame_payload(payload@, size as nat, index as int));
    chunk
}

/// Cuts the first `count` blocks of `block_len` bytes out of `content`.
pub fn split_blocks(content: &[u8], block_len: usize, count: usize) -> (blocks: Vec<Vec<u8>>)
    requires
        count * block_len <= content.len(),
    ensures
        blocks@.len() == count,
        forall|j: int|
            0 <= j < count ==> (#[trigger] blocks@[j])@ == content@.subrange(
                j * block_len,
                (j + 1) * block_len,
            ),
{
    let mut blocks: Vec<Vec<u8>> = Vec::with_capacity(count);
    let mut j: usize = 0;
    while j < count
        invariant
            count * block_len <= content.len(),
            j <= count,
            blocks@.len() == j,
            forall|i: int|
                0 <= i < j ==> (#[trigger] blocks@[i])@ == content@.subrange(
                    i * block_len,
                    (i + 1) * block_len,
                ),
        decreases count - j,
    {
        assert((j + 1) * block_len <= count * block_len && (j + 1) * block_len == j * block_len
            + block_len && 0 <= j * block_len) by (nonlinear_arith)
            requires
                0 <= j < count,
        ;
        let block = slice_to_vec(slice_subrange(content, j * block_len, (j + 1) * block_len));
        blocks.push(block);
        j += 1;
    }
    blocks
}

/// Builds data frame `index` of the video of `payload`.
pub fn encode_frame(payload: &[u8], index: usize, geometry: Layout, width: usize, height: usize, colors: u16, ecc_bytes: u8) -> (frame: Raster)
    requires
        params_error(width as nat, height as nat, colors, ecc_bytes) is None,
        geometry.matches(width as nat, height as nat, colors, ecc_bytes),
        index * geometry.content_bytes_per_frame <= payload.len(),
    ensures
        frame.wf(),
        frame@ == data_frame_spec(
            payload@,
            width as nat,
            height as nat,
            colors,
            ecc_bytes,
            index as int,
        ),
{
    proof {
        lemma_layout_bounds(width as nat, height as nat, colors, ecc_bytes);
    }
    let chunk = frame_chunk(payload, index, geometry.content_bytes_per_frame);
    let blocks = split_blocks(
        chunk.as_slice(),
        geometry.content_bytes_per_block,
        geometry.blocks_per_frame,
    );
    proof {
        let size: nat = geometry.content_bytes_per_block as nat;
        let count: int = geometry.blocks_per_frame as int;
        lemma_joined_split(blocks@, chunk@, size, count);
        assert(chunk@.subrange(0, count * size) =~= chunk@);
        assert forall|j: int| 0 <= j < blocks@.len() implies (#[trigger] blocks@[j])@.len()
            == BLOCK_SIZE - ecc_bytes by {
            assert((j + 1) * size <= count * size && (j + 1) * size == j * size + size && 0 <= j
                * size) by (nonlinear_arith)
                requires
                    0 <= j < count,
            ;
        }
    }
    prepare_build_image(blocks, width, height, colors, ecc_bytes)
}

/// Encodes a payload into the frames of a video: the header frame, then the
/// data frames in the order of the payload.
///
/// Fails with `NameTooLong` where the file name is longer than 200 bytes, and
/// else where the parameters are at fault: with `InvalidPalette` unless
/// `colors` is 2 or 4, with `InvalidEccBytes` unless `ecc_bytes` is between 1
/// and 126, with `InvalidFrameSize` unless a frame has at least 2000 pixels.
pub fn encode(payload: &[u8], file_name: &[u8], width: usize, height: usize, colors: u16, ecc_bytes: u8) -> (outcome: Result<Vec<Raster>, EncodeError>)
    ensures
        outcome matches Ok(frames) ==> encode_error(
            file_name@,
            width as nat,
            height as nat,
            colors,
            ecc_bytes,
        ) is None && views(frames@) == encoded_frames(
            payload@,
            file_name@,
            width as nat,
            height as nat,
            colors,
            ecc_bytes,
        ),
        outcome matches Ok(frames) ==> forall|i: int|
            0 <= i < frames@.len() ==> (#[trigger] frames@[i]).wf(),
        outcome matches Err(error) ==> encode_error(
            file_name@,
            width as nat,
            height as nat,
            colors,
            ecc_bytes,
        ) == Some(error),
{
    if file_name.len() > MAX_NAME_LEN {
        return Err(EncodeError::NameTooLong);
    }
    let geometry = match layout(width, height, colors, ecc_bytes) {
        Ok(geometry) => geometry,
        Err(error) => {
            return Err(error);
        },
    };
    proof {
        lemma_layout_bounds(width as nat, height as nat, colors, ecc_bytes);
        lemma_data_frames_cover(payload@.len(), geometry.content_bytes_per_frame as nat);
    }
    let ghost expected = encoded_frames(
        payload@,
        file_name@,
        width as nat,
        height as nat,
        colors,
        ecc_bytes,
    );
    let meta = Metadata {
        encoding_version: ENCODING_VERSION,
        palette_size: colors,
        pixel_size: 1,
        payload_size: payload.len() as u64,
        payload_crc32: crc32(payload),
        ecc_bytes,
        file_name: slice_to_vec(file_name),
    };
    assert(meta@ == header_for(payload@, file_name@, colors, ecc_bytes));
    let first = match build_metadata_frame(&meta, width, height) {
        Ok(first) => first,
        Err(error) => {
            return Err(error);
        },
    };
    let count: usize = data_frames(payload.len() as u64, geometry.content_bytes_per_frame) as usize;
    let mut frames: Vec<Raster> = Vec::new();
    frames.push(first);
    let mut i: usize = 0;
    while i < count
        invariant
            params_error(width as nat, height as nat, colors, ecc_bytes) is None,
            geometry.matches(width as nat, height as nat, colors, ecc_bytes),
            geometry.content_bytes_per_frame >= 2,
            count == data_frames_spec(payload@.len(), geometry.content_bytes_per_frame as nat),
            payload@.len() > 0 ==> (count - 1) * geometry.content_bytes_per_frame < payload@.len(),
            expected == encoded_frames(
                payload@,
                file_name@,
                width as nat,
                height as nat,
                colors,
                ecc_bytes,
            ),
            i <= count,
            frames@.len() == i + 1,
            forall|k: int| 0 <= k <= i ==> (#[trigger] frames@[k]).wf() && frames@[k]@ == expected[k],
        decreases count - i,
    {
        assert(i * geometry.content_bytes_per_frame <= payload@.len()) by (nonlinear_arith)
            requires
                0 <= i < count,
                payload@.len() > 0 ==> (count - 1) * geometry.content_bytes_per_frame
                    < payload@.len(),
                payload@.len() == 0 ==> count == 1,
                geometry.content_bytes_per_frame >= 0,
        ;
        let frame = encode_frame(payload, i, geometry, width, height, colors, ecc_bytes);
        frames.push(frame);
        i += 1;
    }
    assert(views(frames@) =~= expected);
    Ok(frames)
}

/// Where an encode run stands.
#[derive(Clone, Copy, Debug, PartialEq, Eq, Structural)]
pub enum EncodePhase {
    /// Nothing has been written.
    Init,
    /// The header frame is out; batches of data frames follow.
    MetadataEmitted,
    /// The last batch is out; the container can be closed.
    Finalized,
}

/// What the caller of an encode run does next.
#[derive(Clone, Copy, Debug, PartialEq, Eq, Structural)]
pub enum EncodeStep {
    /// Read up to `bytes` payload bytes into a zeroed buffer and report how
    /// many came.
    ReadBatch { bytes: usize },
    /// Build `count` frames from the buffer, frame `k` of them from the bytes
    /// from `k` times the content of a frame on, and append them to the video
    /// in this order as data frames `first`, `first + 1` and so on. Then read
    /// the next batch, or close the container if `last` is set.
    EmitFrames { first: u64, count: usize, last: bool },
}

/// The decisions of an encode run over a payload that is read batch by batch.
pub struct EncodeRun {
    phase: EncodePhase,
    content_bytes_per_frame: usize,
    workers: usize,
    bytes_read: u64,
    frames_emitted: u64,
}

impl EncodeRun {
    /// Where the run stands.
    pub closed spec fn phase(&self) -> EncodePhase {
        self.phase
    }

    /// Payload bytes that one frame carries.
    pub closed spec fn content_per_frame(&self) -> nat {
        self.content_bytes_per_frame as nat
    }

    /// Payload bytes of one full batch: one frame for every worker.
    pub closed spec fn batch_bytes(&self) -> nat {
        (self.content_bytes_per_frame * self.workers) as nat
    }

    /// Payload bytes taken in so far.
    pub closed spec fn bytes_read(&self) -> nat {
        self.bytes_read as nat
    }

    /// Data frames handed out so far.
    pub closed spec fn frames_emitted(&self) -> nat {
        self.frames_emitted as nat
    }

    /// The counters fit the phase: before the end only full batches have been
    /// taken in and every frame is full; at the end the frames handed out are
    /// the frames that the payload needs.
    pub closed spec fn wf(&self) -> bool {
        &&& self.content_bytes_per_frame >= 2
        &&& self.workers >= 1
        &&& self.content_bytes_per_frame * self.workers <= usize::MAX
        &&& match self.phase {
            EncodePhase::Init => self.bytes_read == 0 && self.frames_emitted == 0,
            EncodePhase::MetadataEmitted => self.frames_emitted * self.content_bytes_per_frame
                == self.bytes_read,
            EncodePhase::Finalized => self.frames_emitted == data_frames_spec(
                self.bytes_read as nat,
                self.content_bytes_per_frame as nat,
            ),
        }
    }

    /// A run that hands every one of `workers` workers one frame per batch.
    pub fn new(content_bytes_per_frame: usize, workers: usize) -> (run: EncodeRun)
        requires
            content_bytes_per_frame >= 2,
            workers >= 1,
            content_bytes_per_frame * workers <= usize::MAX,
        ensures
            run.wf(),
            run.phase() == EncodePhase::Init,
            run.content_per_frame() == content_bytes_per_frame,
            run.batch_bytes() == content_bytes_per_frame * workers,
            run.bytes_read() == 0,
            run.frames_emitted() == 0,
    {
        EncodeRun {
            phase: EncodePhase::Init,
            content_bytes_per_frame,
            workers,
            bytes_read: 0,
            frames_emitted: 0,
        }
    }

    /// The header frame has been written: data batches follow.
    pub fn metadata_emitted(&mut self) -> (step: EncodeStep)
        requires
            old(self).wf(),
            old(self).phase() == EncodePhase::Init,
        ensures
            final(self).wf(),
            final(self).phase() == EncodePhase::MetadataEmitted,
            final(self).content_per_frame() == old(self).content_per_frame(),
            final(self).batch_bytes() == old(self).batch_bytes(),
            final(self).bytes_read() == 0,
            final(self).frames_emitted() == 0,
            step == (EncodeStep::ReadBatch { bytes: old(self).batch_bytes() as usize }),
    {
        self.phase = EncodePhase::MetadataEmitted;
        assert(0 * self.content_bytes_per_frame == 0) by (nonlinear_arith);
        EncodeStep::ReadBatch { bytes: self.content_bytes_per_frame * self.workers }
    }

    /// A batch of `bytes` payload bytes has been read. A batch shorter than a
    /// full one is the last.
    ///
    /// The batch makes as many frames as its bytes need, the last of them
    /// padded with zero bytes; an empty batch makes none, but for the one frame
    /// of the empty payload. After the last batch the frames handed out are
    /// exactly the frames that the payload read needs.
    pub fn batch_read(&mut self, bytes: usize) -> (step: EncodeStep)
        requires
            old(self).wf(),
            old(self).phase() == EncodePhase::MetadataEmitted,
            bytes <= old(self).batch_bytes(),
            old(self).bytes_read() + bytes <= u64::MAX,
        ensures
            final(self).wf(),
            final(self).content_per_frame() == old(self).content_per_frame(),
            final(self).batch_bytes() == old(self).batch_bytes(),
            final(self).bytes_read() == old(self).bytes_read() + bytes,
            final(self).phase() == (if bytes == old(self).batch_bytes() {
                EncodePhase::MetadataEmitted
            } else {
                EncodePhase::Finalized
            }),
            step matches EncodeStep::EmitFrames { first, count, last } && first == old(
                self,
            ).frames_emitted() && final(self).frames_emitted() == first + count && last == (bytes
                < old(self).batch_bytes()) && count == batch_frames_spec(
                bytes as nat,
                old(self).bytes_read(),
                old(self).content_per_frame(),
            ),
            final(self).phase() == EncodePhase::Finalized ==> final(self).frames_emitted()
                == data_frames_spec(final(self).bytes_read(), final(self).content_per_frame()),
    {
        let size: usize = self.content_bytes_per_frame;
        let full: usize = size * self.workers;
        let first: u64 = self.frames_emitted;
        let count: usize = if bytes == 0 {
            if self.bytes_read == 0 {
                1
            } else {
                0
            }
        } else {
            (bytes - 1) / size + 1
        };
        proof {
            lemma_batch_frames(bytes as int, self.bytes_read as int, size as int, first as int);
            if bytes == full {
                lemma_mod_multiples_basic(self.workers as int, size as int);
                assert(self.workers * size == size * self.workers) by (nonlinear_arith);
                assert(size * self.workers >= 2) by (nonlinear_arith)
                    requires
                        size >= 2,
                        self.workers >= 1,
                ;
            }
        }
        self.bytes_read = self.bytes_read + bytes as u64;
        self.frames_emitted = first + count as u64;
        let last: bool = bytes < full;
        if last {
            self.phase = EncodePhase::Finalized;
        }
        EncodeStep::EmitFrames { first, count, last }
    }
}

/// Frames that a batch of `bytes` payload bytes makes when `before` bytes came
/// before it: the bytes divided by the content of a frame, rounded up, and one
/// frame for the empty payload.
pub open spec fn batch_frames_spec(bytes: nat, before: nat, content_per_frame: nat) -> nat {
    if bytes == 0 {
        if before == 0 {
            1
        } else {
            0
        }
    } else {
        ((bytes - 1) / (content_per_frame as int) + 1) as nat
    }
}

/// After whole frames, the frames of one more batch complete the frames that
/// all the bytes need; and whole frames stay whole after a batch of whole
/// frames.
proof fn lemma_batch_frames(bytes: int, before: int, size: int, frames: int)
    requires
        size >= 2,
        bytes >= 0,
        before >= 0,
        frames >= 0,
        frames * size == before,
    ensures
        frames + batch_frames_spec(bytes as nat, before as nat, size as nat) == data_frames_spec(
            (before + bytes) as nat,
            size as nat,
        ),
        bytes > 0 ==> (bytes - 1) / size + 1 <= bytes,
        bytes > 0 && bytes % size == 0 ==> (frames + (bytes - 1) / size + 1) * size == before
            + bytes,
        frames + batch_frames_spec(bytes as nat, before as nat, size as nat) <= before + bytes + 1,
{
    if bytes > 0 {
        let last: int = bytes - 1;
        lemma_fundamental_div_mod(last, size);
        lemma_mod_bound(last, size);
        let q: int = last / size;
        let r: int = last % size;
        assert(q >= 0 && q <= last) by (nonlinear_arith)
            requires
                last == size * q + r,
                0 <= r < size,
                size >= 2,
                last >= 0,
        ;
        assert((frames + q) * size + r == before + last) by (nonlinear_arith)
            requires
                last == size * q + r,
                frames * size == before,
        ;
        lemma_fundamental_div_mod_converse(before + last, size, frames + q, r);
        if bytes % size == 0 {
            lemma_fundamental_div_mod(bytes, size);
            let whole: int = bytes / size;
            assert(size * whole == bytes);
            assert(size * (whole - 1) + (size - 1) == last) by (nonlinear_arith)
                requires
                    size * whole == bytes,
                    last == bytes - 1,
            ;
            lemma_fundamental_div_mod_converse(last, size, whole - 1, size - 1);
            assert((frames + q + 1) * size == before + bytes) by (nonlinear_arith)
                requires
                    q == whole - 1,
                    size * whole == bytes,
                    frames * size == before,
            ;
        }
        assert(frames <= before) by (nonlinear_arith)
            requires
                frames * size == before,
                size >= 2,
                frames >= 0,
        ;
    } else if before > 0 {
        let last: int = before - 1;
        assert(frames >= 1) by (nonlinear_arith)
            requires
                frames * size == before,
                before > 0,
                frames >= 0,
        ;
        assert((frames - 1) * size + (size - 1) == last) by (nonlinear_arith)
            requires
                frames * size == before,
                last == before - 1,
        ;
        lemma_fundamental_div_mod_converse(last, size, frames - 1, size - 1);
        assert(frames <= before) by (nonlinear_arith)
            requires
                frames * size == before,
                size >= 2,
                frames >= 0,
        ;
    } else {
        assert(frames == 0) by (nonlinear_arith)
            requires
                frames * size == 0,
                size >= 2,
        ;
    }
}

} // verus!
