//! The decode pipeline: from the frames of a video back to the payload.
//!
//! The first frame yields the header. Every further frame yields the content
//! of its blocks; the contents, laid end to end in the order of the frames and
//! cut or padded to the payload size of the header, are the payload, and its
//! CRC-32 is held against the header's. `decode` does all of it for frames in
//! memory. A caller that streams a video takes the batches to extract from
//! `plan_batches`, puts what its workers return into order with
//! `sort_by_index` and sums the reports in a `Stats`.

use crate::bits::pixels_per_byte;
use crate::common::BLOCK_SIZE;
use crate::crc::{crc32, crc32_ieee};
use crate::error::DecodeError;
use crate::frame::{corrected_symbols, damaged_ranges, exact_count, frame_content, raw_bytes, read_frame, unrecoverable_count, FrameReport};
use crate::layout::{blocks_per_frame, blocks_per_frame_spec, lemma_layout_bounds, params_error};
use crate::metadata::{read_metadata, read_metadata_spec, Metadata, MetadataView, METADATA_PIXELS};
use crate::palette::bits_for;
use crate::raster::{views, Raster, RasterView};
use vstd::arithmetic::div_mod::{lemma_fundamental_div_mod, lemma_mod_bound};
use vstd::prelude::*;
use vstd::seq_lib::{to_multiset_build, to_multiset_remove};

verus! {

/// The sums of the reports of the frames read so far.
pub struct StatsView {
    pub frames: nat,
    pub exact_pixels: nat,
    pub estimated_pixels: nat,
    pub corrected: nat,
    pub unrecoverable_blocks: nat,
}

impl StatsView {
    /// The sums before any frame.
    pub open spec fn zero() -> StatsView {
        StatsView { frames: 0, exact_pixels: 0, estimated_pixels: 0, corrected: 0, unrecoverable_blocks: 0 }
    }

    /// The sums after one more frame with the given counts.
    pub open spec fn plus(self, exact_pixels: nat, estimated_pixels: nat, corrected: nat, unrecoverable_blocks: nat) -> StatsView {
        StatsView {
            frames: self.frames + 1,
            exact_pixels: self.exact_pixels + exact_pixels,
            estimated_pixels: self.estimated_pixels + estimated_pixels,
            corrected: self.corrected + corrected,
            unrecoverable_blocks: self.unrecoverable_blocks + unrecoverable_blocks,
        }
    }

    /// The sums after one more frame with the given pixels.
    pub open spec fn plus_frame(self, pixels: Seq<[u8; 3]>, colors: u16, ecc_bytes: u8, blocks: nat) -> StatsView {
        self.plus(
            exact_count(pixels, colors, pixels.len() as int),
            (pixels.len() - exact_count(pixels, colors, pixels.len() as int)) as nat,
            corrected_symbols(raw_bytes(pixels, colors), ecc_bytes as nat, blocks as int),
            unrecoverable_count(raw_bytes(pixels, colors), ecc_bytes as nat, blocks as int),
        )
    }
}

/// Running totals of a decode: pixels read exactly, pixels estimated, symbols
/// corrected and blocks given up.
#[derive(Clone, Copy, Debug)]
pub struct Stats {
    frames: u64,
    exact_pixels: u128,
    estimated_pixels: u128,
    corrected: u128,
    unrecoverable_blocks: u128,
}

impl View for Stats {
    type V = StatsView;

    closed spec fn view(&self) -> StatsView {
        StatsView {
            frames: self.frames as nat,
            exact_pixels: self.exact_pixels as nat,
            estimated_pixels: self.estimated_pixels as nat,
            corrected: self.corrected as nat,
            unrecoverable_blocks: self.unrecoverable_blocks as nat,
        }
    }
}

impl Stats {
    /// No total exceeds what the frames counted can have added.
    pub closed spec fn wf(&self) -> bool {
        &&& self.exact_pixels <= self.frames * u64::MAX
        &&& self.estimated_pixels <= self.frames * u64::MAX
        &&& self.corrected <= self.frames * u64::MAX
        &&& self.unrecoverable_blocks <= self.frames * u64::MAX
    }

    /// Totals before any frame.
    pub fn new() -> (stats: Stats)
        ensures
            stats.wf(),
            stats@ == StatsView::zero(),
    {
        Stats { frames: 0, exact_pixels: 0, estimated_pixels: 0, corrected: 0, unrecoverable_blocks: 0 }
    }

    /// Adds the counts of one frame report.
    pub fn absorb(&mut self, report: &FrameReport)
        requires
            old(self).wf(),
            old(self)@.frames < u64::MAX,
        ensures
            final(self).wf(),
            final(self)@ == old(self)@.plus(
                report.exact_pixels as nat,
                report.estimated_pixels as nat,
                report.corrected as nat,
                report.unrecoverable_blocks as nat,
            ),
    {
        assert(self.frames * u64::MAX + u64::MAX == (self.frames + 1) * u64::MAX && self.frames
            * u64::MAX + u64::MAX <= u64::MAX * u64::MAX) by (nonlinear_arith)
            requires
                self.frames < u64::MAX,
        ;
        self.exact_pixels = self.exact_pixels + report.exact_pixels as u128;
        self.estimated_pixels = self.estimated_pixels + report.estimated_pixels as u128;
        self.corrected = self.corrected + report.corrected as u128;
        self.unrecoverable_blocks = self.unrecoverable_blocks + report.unrecoverable_blocks as u128;
        self.frames = self.frames + 1;
    }

    /// Frames counted.
    pub fn frames(&self) -> (count: u64)
        ensures
            count == self@.frames,
    {
        self.frames
    }

    /// Pixels that were palette entries exactly.
    pub fn exact_pixels(&self) -> (count: u128)
        ensures
            count == self@.exact_pixels,
    {
        self.exact_pixels
    }

    /// Pixels that were snapped to the nearest palette entry.
    pub fn estimated_pixels(&self) -> (count: u128)
        ensures
            count == self@.estimated_pixels,
    {
        self.estimated_pixels
    }

    /// Symbols that the block codec corrected.
    pub fn corrected(&self) -> (count: u128)
        ensures
            count == self@.corrected,
    {
        self.corrected
    }

    /// Blocks that the block codec gave up.
    pub fn unrecoverable_blocks(&self) -> (count: u128)
        ensures
            count == self@.unrecoverable_blocks,
    {
        self.unrecoverable_blocks
    }
}

/// `content` cut or padded with zero bytes to exactly `size` bytes.
pub open spec fn fit_spec(content: Seq<u8>, size: nat) -> Seq<u8> {
    Seq::new(
        size,
        |k: int|
            if k < content.len() {
                content[k]
            } else {
                0u8
            },
    )
}

/// The content of data frames 1 to `n` of a video, laid end to end.
pub open spec fn video_content(frames: Seq<RasterView>, colors: u16, ecc_bytes: u8, blocks: nat, n: int) -> Seq<u8>
    decreases n,
{
    if n <= 0 {
        Seq::empty()
    } else {
        video_content(frames, colors, ecc_bytes, blocks, n - 1) + frame_content(
            raw_bytes(frames[n].pixels, colors),
            ecc_bytes as nat,
            blocks as int,
        )
    }
}

/// The totals over data frames 1 to `n` of a video.
pub open spec fn video_stats(frames: Seq<RasterView>, colors: u16, ecc_bytes: u8, blocks: nat, n: int) -> StatsView
    decreases n,
{
    if n <= 0 {
        StatsView::zero()
    } else {
        video_stats(frames, colors, ecc_bytes, blocks, n - 1).plus_frame(
            frames[n].pixels,
            colors,
            ecc_bytes,
            blocks,
        )
    }
}

/// The payload byte ranges of the blocks given up in data frames 1 to `n`.
pub open spec fn video_damaged(frames: Seq<RasterView>, colors: u16, ecc_bytes: u8, blocks: nat, n: int) -> Seq<(u128, u128)>
    decreases n,
{
    if n <= 0 {
        Seq::empty()
    } else {
        video_damaged(frames, colors, ecc_bytes, blocks, n - 1) + damaged_ranges(
            raw_bytes(frames[n].pixels, colors),
            ecc_bytes as nat,
            (n - 1) * (blocks * (BLOCK_SIZE - ecc_bytes)),
            blocks as int,
        )
    }
}

/// What a decode yields.
pub struct DecodedView {
    pub metadata: MetadataView,
    pub payload: Seq<u8>,
    pub stats: StatsView,
    pub damaged: Seq<(u128, u128)>,
    pub checksum_ok: bool,
}

/// What a decode yields.
#[derive(Clone, Debug)]
pub struct Decoded {
    /// The header of the video.
    pub metadata: Metadata,
    /// The payload, exactly as long as the header says.
    pub payload: Vec<u8>,
    /// Totals over the data frames.
    pub stats: Stats,
    /// The payload byte range `[start, end)` of every block that was given up.
    pub damaged: Vec<(u128, u128)>,
    /// Whether the CRC-32 of the payload is the one in the header.
    pub checksum_ok: bool,
}

impl View for Decoded {
    type V = DecodedView;

    open spec fn view(&self) -> DecodedView {
        DecodedView {
            metadata: self.metadata@,
            payload: self.payload@,
            stats: self.stats@,
            damaged: self.damaged@,
            checksum_ok: self.checksum_ok,
        }
    }
}

/// What the frames of a video decode to.
pub open spec fn decode_spec(frames: Seq<RasterView>) -> Result<DecodedView, DecodeError> {
    match read_metadata_spec(frames[0].pixels) {
        Err(error) => Err(error),
        Ok(meta) => {
            if meta.payload_size > usize::MAX {
                Err(DecodeError::PayloadTooLarge)
            } else {
                let blocks: nat = blocks_per_frame_spec(
                    frames[0].width,
                    frames[0].height,
                    meta.palette_size,
                );
                let n: int = frames.len() - 1;
                let payload = fit_spec(
                    video_content(frames, meta.palette_size, meta.ecc_bytes, blocks, n),
                    meta.payload_size as nat,
                );
                Ok(
                    DecodedView {
                        metadata: meta,
                        payload,
                        stats: video_stats(frames, meta.palette_size, meta.ecc_bytes, blocks, n),
                        damaged: video_damaged(frames, meta.palette_size, meta.ecc_bytes, blocks, n),
                        checksum_ok: crc32_ieee(payload) == meta.payload_crc32,
                    },
                )
            }
        },
    }
}

/// Cuts `content` down to `payload_size` bytes, or pads it with zero bytes up to
/// that size: what comes out is exactly `payload_size` bytes long.
pub fn fit_payload(content: Vec<u8>, payload_size: usize) -> (payload: Vec<u8>)
    ensures
        payload@ == fit_spec(content@, payload_size as nat),
        payload@.len() == payload_size,
{
    let mut payload = content;
    if payload.len() > payload_size {
        payload.truncate(payload_size);
    } else {
        while payload.len() < payload_size
            invariant
                content@.len() <= payload@.len() <= payload_size,
                payload@ == fit_spec(content@, payload@.len()),
            decreases payload_size - payload@.len(),
        {
            payload.push(0);
            assert(payload@ =~= fit_spec(content@, payload@.len()));
        }
    }
    assert(payload@ =~= fit_spec(content@, payload_size as nat));
    payload
}

/// Decodes the frames of a video: the header from the first frame, the
/// payload from the frames behind it.
///
/// Fails with `MetadataUnrecoverable`, `VersionMismatch` or `MalformedHeader`
/// as `read_metadata` does, and with `PayloadTooLarge` where the payload size
/// of the header cannot be held in memory. A block that cannot be corrected
/// and a checksum that does not match do not fail the decode: the one is
/// counted and listed, the other is reported in `checksum_ok`.
pub fn decode(frames: &Vec<Raster>) -> (outcome: Result<Decoded, DecodeError>)
    requires
        frames@.len() >= 1,
        frames@[0]@.pixels.len() >= METADATA_PIXELS,
        forall|i: int| 0 <= i < frames@.len() ==> (#[trigger] frames@[i]).wf(),
        forall|i: int|
            0 <= i < frames@.len() ==> (#[trigger] frames@[i])@.width == frames@[0]@.width
                && frames@[i]@.height == frames@[0]@.height,
    ensures
        outcome matches Ok(decoded) ==> decode_spec(views(frames@)) == Ok::<
            DecodedView,
            DecodeError,
        >(decoded@),
        outcome matches Ok(decoded) ==> decoded.payload@.len() == decoded.metadata.payload_size,
        outcome matches Err(error) ==> decode_spec(views(frames@)) == Err::<
            DecodedView,
            DecodeError,
        >(error),
{
    let ghost all = views(frames@);
    let count: usize = frames.len();
    let first = &frames[0];
    assert(first.wf());
    let meta = match read_metadata(first) {
        Ok(meta) => meta,
        Err(error) => {
            return Err(error);
        },
    };
    if meta.payload_size > usize::MAX as u64 {
        return Err(DecodeError::PayloadTooLarge);
    }
    let colors: u16 = meta.palette_size;
    let ecc_bytes: u8 = meta.ecc_bytes;
    let width: usize = first.width();
    let height: usize = first.height();
    let pixel_count: usize = first.pixels().len();
    assert(width * height == pixel_count);
    let blocks: usize = blocks_per_frame(width, height, colors);
    proof {
        lemma_layout_bounds(width as nat, height as nat, colors, ecc_bytes);
    }
    let mut content: Vec<u8> = Vec::new();
    let mut stats = Stats::new();
    let mut damaged: Vec<(u128, u128)> = Vec::new();
    let mut i: usize = 1;
    while i < count
        invariant
            1 <= i <= count,
            count == frames@.len(),
            all == views(frames@),
            forall|k: int| 0 <= k < frames@.len() ==> (#[trigger] frames@[k]).wf(),
            forall|k: int|
                0 <= k < frames@.len() ==> (#[trigger] frames@[k])@.width == width
                    && frames@[k]@.height == height,
            params_error(width as nat, height as nat, colors, ecc_bytes) is None,
            blocks == blocks_per_frame_spec(width as nat, height as nat, colors),
            blocks * BLOCK_SIZE * pixels_per_byte(bits_for(colors)) <= width * height,
            content@ == video_content(all, colors, ecc_bytes, blocks as nat, i - 1),
            stats.wf(),
            stats@.frames == i - 1,
            stats@ == video_stats(all, colors, ecc_bytes, blocks as nat, i - 1),
            damaged@ == video_damaged(all, colors, ecc_bytes, blocks as nat, i - 1),
        decreases count - i,
    {
        let frame = &frames[i];
        assert(frame.wf() && frame@ == all[i as int]);
        let mut report = read_frame(frame, colors, ecc_bytes, blocks, (i - 1) as u64);
        stats.absorb(&report);
        content.append(&mut report.content);
        damaged.append(&mut report.damaged);
        i += 1;
    }
    let payload = fit_payload(content, meta.payload_size as usize);
    let checksum_ok: bool = crc32(payload.as_slice()) == meta.payload_crc32;
    Ok(Decoded { metadata: meta, payload, stats, damaged, checksum_ok })
}

/// The batches in which the data frames of a video of `frames_amount` frames
/// are extracted by `threads` workers: batch `i` starts at frame
/// `i * threads + 1` and holds `threads` frames, the last batch what is left.
pub open spec fn batches_spec(frames_amount: nat, threads: nat) -> Seq<(u64, u64)> {
    Seq::new(
        ((frames_amount - 1 + threads - 1) / (threads as int)) as nat,
        |i: int|
            (
                (i * threads + 1) as u64,
                (if (i + 1) * threads <= frames_amount - 1 {
                    threads as int
                } else {
                    frames_amount - 1 - i * threads
                }) as u64,
            ),
    )
}

/// Plans the extraction of the data frames of a video of `frames_amount`
/// frames, the header frame included, in batches of up to `threads` frames.
/// Every planned pair is the index of the first frame of a batch and the
/// number of its frames.
pub fn plan_batches(frames_amount: u64, threads: usize) -> (batches: Vec<(u64, u64)>)
    requires
        frames_amount >= 1,
        threads >= 1,
        (frames_amount - 1) / (threads as int) < usize::MAX,
    ensures
        batches@ == batches_spec(frames_amount as nat, threads as nat),
{
    let data: u64 = frames_amount - 1;
    let per_batch: u64 = threads as u64;
    let full_runs: u64 = data / per_batch;
    let last_run: u64 = data % per_batch;
    proof {
        lemma_fundamental_div_mod(data as int, per_batch as int);
        lemma_mod_bound(data as int, per_batch as int);
        lemma_batch_count(data as int, per_batch as int);
    }
    let ghost plan = batches_spec(frames_amount as nat, threads as nat);
    let mut batches: Vec<(u64, u64)> = Vec::new();
    let mut i: u64 = 0;
    while i < full_runs
        invariant
            per_batch == threads,
            per_batch >= 1,
            data == frames_amount - 1,
            data == per_batch * full_runs + last_run,
            0 <= last_run < per_batch,
            full_runs < usize::MAX,
            plan == batches_spec(frames_amount as nat, threads as nat),
            plan.len() == full_runs + (if last_run != 0 { 1int } else { 0int }),
            i <= full_runs,
            batches@ == plan.subrange(0, i as int),
        decreases full_runs - i,
    {
        assert((i + 1) * per_batch <= full_runs * per_batch && (i + 1) * per_batch == i * per_batch
            + per_batch && 0 <= i * per_batch && full_runs * per_batch == per_batch * full_runs)
            by (nonlinear_arith)
            requires
                0 <= i < full_runs,
                per_batch >= 1,
        ;
        batches.push((i * per_batch + 1, per_batch));
        assert(batches@ =~= plan.subrange(0, i + 1));
        i += 1;
    }
    if last_run != 0 {
        assert((full_runs + 1) * per_batch == full_runs * per_batch + per_batch && full_runs
            * per_batch == per_batch * full_runs) by (nonlinear_arith);
        batches.push((frames_amount - last_run, last_run));
        assert(batches@ =~= plan);
    } else {
        assert(batches@ =~= plan);
    }
    batches
}

/// The number of batches is the number of full batches, and one more where
/// frames are left over.
proof fn lemma_batch_count(data: int, per_batch: int)
    requires
        data >= 0,
        per_batch >= 1,
    ensures
        (data + per_batch - 1) / per_batch == data / per_batch + (if data % per_batch != 0 {
            1int
        } else {
            0int
        }),
{
    let q: int = data / per_batch;
    let r: int = data % per_batch;
    lemma_fundamental_div_mod(data, per_batch);
    lemma_mod_bound(data, per_batch);
    if r == 0 {
        assert(q * per_batch + (per_batch - 1) == data + per_batch - 1) by (nonlinear_arith)
            requires
                data == per_batch * q,
        ;
        vstd::arithmetic::div_mod::lemma_fundamental_div_mod_converse(
            data + per_batch - 1,
            per_batch,
            q,
            per_batch - 1,
        );
    } else {
        assert((q + 1) * per_batch + (r - 1) == data + per_batch - 1) by (nonlinear_arith)
            requires
                data == per_batch * q + r,
        ;
        vstd::arithmetic::div_mod::lemma_fundamental_div_mod_converse(
            data + per_batch - 1,
            per_batch,
            q + 1,
            r - 1,
        );
    }
}

/// The batches of a plan follow one another from frame 1 up to the last
/// frame of the video, and each holds at least one frame and at most `threads`.
pub proof fn lemma_batches_cover(frames_amount: nat, threads: nat, i: int)
    requires
        frames_amount >= 1,
        threads >= 1,
        frames_amount <= u64::MAX,
        0 <= i < batches_spec(frames_amount, threads).len(),
    ensures
        batches_spec(frames_amount, threads)[0].0 == 1,
        1 <= batches_spec(frames_amount, threads)[i].1 <= threads,
        i + 1 < batches_spec(frames_amount, threads).len() ==> batches_spec(
            frames_amount,
            threads,
        )[i + 1].0 == batches_spec(frames_amount, threads)[i].0 + batches_spec(
            frames_amount,
            threads,
        )[i].1,
        i + 1 == batches_spec(frames_amount, threads).len() ==> batches_spec(
            frames_amount,
            threads,
        )[i].0 + batches_spec(frames_amount, threads)[i].1 == frames_amount,
{
    let data: int = frames_amount - 1;
    let per_batch: int = threads as int;
    let q: int = data / per_batch;
    let r: int = data % per_batch;
    lemma_fundamental_div_mod(data, per_batch);
    lemma_mod_bound(data, per_batch);
    lemma_batch_count(data, per_batch);
    assert(0 * per_batch == 0) by (nonlinear_arith);
    assert(0 <= i * per_batch && (i + 1) * per_batch == i * per_batch + per_batch && (i + 2)
        * per_batch == (i + 1) * per_batch + per_batch) by (nonlinear_arith)
        requires
            0 <= i,
            per_batch >= 1,
    ;
    assert(q >= 0) by (nonlinear_arith)
        requires
            data == per_batch * q + r,
            r < per_batch,
            data >= 0,
            per_batch >= 1,
    ;
    if i < q {
        assert((i + 1) * per_batch <= q * per_batch && q * per_batch == per_batch * q)
            by (nonlinear_arith)
            requires
                i < q,
                per_batch >= 1,
        ;
        if i + 1 < q {
            assert((i + 2) * per_batch <= q * per_batch) by (nonlinear_arith)
                requires
                    i + 1 < q,
                    per_batch >= 1,
            ;
        } else {
            assert((i + 1) * per_batch == per_batch * q) by (nonlinear_arith)
                requires
                    i + 1 == q,
            ;
        }
    } else {
        assert(i * per_batch == per_batch * q) by (nonlinear_arith)
            requires
                i == q,
        ;
    }
}

/// Where a decode run stands.
#[derive(Clone, Copy, Debug, PartialEq, Eq, Structural)]
pub enum DecodePhase {
    /// Nothing has been read.
    Init,
    /// The header is known; batches of data frames follow.
    MetadataRead,
    /// All batches are written and the output has the payload's length.
    Truncated,
    /// The checksum of the output has been held against the header's.
    Verified,
}

/// What the caller of a decode run does next.
#[derive(Clone, Copy, Debug, PartialEq, Eq, Structural)]
pub enum DecodeStep {
    /// Extract `count` frames from frame `start` of the video on, read them,
    /// and append their contents to the output in the order of the frames.
    ExtractBatch { start: u64, count: u64 },
    /// Set the length of the output to `length` bytes.
    Truncate { length: u64 },
    /// Compute the CRC-32 of the output and report it.
    VerifyChecksum { expected: u32 },
}

/// What follows once the frames before `next_frame` are written: the next
/// batch, which starts at `next_frame` and holds as many frames as there are
/// workers or as are left, or the cut to the payload size when no frame is left.
pub open spec fn next_step_spec(next_frame: nat, frames_amount: nat, threads: nat, payload_size: u64) -> DecodeStep {
    if next_frame < frames_amount {
        DecodeStep::ExtractBatch {
            start: next_frame as u64,
            count: (if frames_amount - next_frame < threads {
                frames_amount - next_frame
            } else {
                threads as int
            }) as u64,
        }
    } else {
        DecodeStep::Truncate { length: payload_size }
    }
}

/// A run extracts the batches of the plan: the batch that follows frame
/// `next_frame - 1`, where that many frames make whole batches, is batch
/// `(next_frame - 1) / threads` of `batches_spec`.
pub proof fn lemma_step_is_planned(next_frame: nat, frames_amount: nat, threads: nat, payload_size: u64)
    requires
        threads >= 1,
        1 <= next_frame < frames_amount <= u64::MAX,
        (next_frame - 1) % (threads as int) == 0,
    ensures
        ({
            let i: int = (next_frame - 1) / (threads as int);
            let plan = batches_spec(frames_amount, threads);
            &&& 0 <= i < plan.len()
            &&& next_step_spec(next_frame, frames_amount, threads, payload_size)
                == (DecodeStep::ExtractBatch { start: plan[i].0, count: plan[i].1 })
        }),
{
    let data: int = frames_amount - 1;
    let per_batch: int = threads as int;
    let done: int = next_frame - 1;
    let i: int = done / per_batch;
    lemma_fundamental_div_mod(done, per_batch);
    lemma_fundamental_div_mod(data, per_batch);
    lemma_mod_bound(data, per_batch);
    lemma_batch_count(data, per_batch);
    let q: int = data / per_batch;
    assert(i * per_batch == done && (i + 1) * per_batch == done + per_batch) by (nonlinear_arith)
        requires
            done == per_batch * i + 0,
    ;
    assert(i >= 0) by (nonlinear_arith)
        requires
            i * per_batch == done,
            done >= 0,
            per_batch >= 1,
    ;
    assert(i <= q && (i == q ==> data % per_batch != 0)) by (nonlinear_arith)
        requires
            i * per_batch == done,
            done < data,
            data == per_batch * q + data % per_batch,
            0 <= data % per_batch < per_batch,
            per_batch >= 1,
    ;
}

/// The decisions of a decode run over a video that is read batch by batch.
pub struct DecodeRun {
    phase: DecodePhase,
    frames_amount: u64,
    threads: u64,
    next_frame: u64,
    payload_size: u64,
    payload_crc32: u32,
}

impl DecodeRun {
    /// Where the run stands.
    pub closed spec fn phase(&self) -> DecodePhase {
        self.phase
    }

    /// Frames of the video, the header frame included.
    pub closed spec fn frames_amount(&self) -> nat {
        self.frames_amount as nat
    }

    /// Frames that one batch holds at most.
    pub closed spec fn threads(&self) -> nat {
        self.threads as nat
    }

    /// Index of the first frame that no batch has covered yet.
    pub closed spec fn next_frame(&self) -> nat {
        self.next_frame as nat
    }

    /// The payload size that the header announced.
    pub closed spec fn payload_size(&self) -> u64 {
        self.payload_size
    }

    /// The checksum that the header announced.
    pub closed spec fn payload_crc32(&self) -> u32 {
        self.payload_crc32
    }

    /// The batches handed out so far are whole and in order: the next frame
    /// lies behind the header and inside the video, and starts a batch.
    pub closed spec fn wf(&self) -> bool {
        &&& self.threads >= 1
        &&& self.frames_amount >= 1
        &&& 1 <= self.next_frame <= self.frames_amount
        &&& self.phase == DecodePhase::Init ==> self.next_frame == 1
        &&& self.next_frame < self.frames_amount ==> (self.next_frame - 1) % (self.threads as int)
            == 0
        &&& (self.phase == DecodePhase::Truncated || self.phase == DecodePhase::Verified)
            ==> self.next_frame == self.frames_amount
    }

    /// A run over a video of `frames_amount` frames with `threads` workers.
    pub fn new(frames_amount: u64, threads: usize) -> (run: DecodeRun)
        requires
            frames_amount >= 1,
            threads >= 1,
        ensures
            run.wf(),
            run.phase() == DecodePhase::Init,
            run.frames_amount() == frames_amount,
            run.threads() == threads,
            run.next_frame() == 1,
    {
        DecodeRun {
            phase: DecodePhase::Init,
            frames_amount,
            threads: threads as u64,
            next_frame: 1,
            payload_size: 0,
            payload_crc32: 0,
        }
    }

    /// What follows once the batches so far are written.
    pub open spec fn step_spec(&self) -> DecodeStep {
        next_step_spec(
            self.next_frame(),
            self.frames_amount(),
            self.threads(),
            self.payload_size(),
        )
    }

    /// The batch that a run hands out next is the batch of the plan at its
    /// place.
    pub proof fn lemma_follows_plan(&self)
        requires
            self.wf(),
            self.next_frame() < self.frames_amount(),
        ensures
            ({
                let i: int = (self.next_frame() - 1) / (self.threads() as int);
                let plan = batches_spec(self.frames_amount(), self.threads());
                &&& 0 <= i < plan.len()
                &&& self.step_spec() == (DecodeStep::ExtractBatch {
                    start: plan[i].0,
                    count: plan[i].1,
                })
            }),
    {
        lemma_step_is_planned(
            self.next_frame(),
            self.frames_amount(),
            self.threads(),
            self.payload_size(),
        );
    }

    fn advance(&mut self) -> (step: DecodeStep)
        requires
            old(self).wf(),
            old(self).phase() == DecodePhase::MetadataRead,
        ensures
            final(self).wf(),
            step == old(self).step_spec(),
            final(self).frames_amount() == old(self).frames_amount(),
            final(self).threads() == old(self).threads(),
            final(self).payload_size() == old(self).payload_size(),
            final(self).payload_crc32() == old(self).payload_crc32(),
            step matches DecodeStep::ExtractBatch { start, count } ==> final(self).phase()
                == DecodePhase::MetadataRead && final(self).next_frame() == start + count && 1
                <= count,
            step is Truncate ==> final(self).phase() == DecodePhase::Truncated,
    {
        if self.next_frame < self.frames_amount {
            let left: u64 = self.frames_amount - self.next_frame;
            let start: u64 = self.next_frame;
            let count: u64 = if left < self.threads { left } else { self.threads };
            proof {
                if count == self.threads && start + count < self.frames_amount {
                    let batch: int = self.threads as int;
                    let before: int = start - 1;
                    lemma_fundamental_div_mod(before, batch);
                    assert((before / batch + 1) * batch + 0 == before + batch) by (nonlinear_arith)
                        requires
                            before == batch * (before / batch) + before % batch,
                            before % batch == 0,
                    ;
                    vstd::arithmetic::div_mod::lemma_fundamental_div_mod_converse(
                        before + batch,
                        batch,
                        before / batch + 1,
                        0,
                    );
                }
            }
            self.next_frame = start + count;
            DecodeStep::ExtractBatch { start, count }
        } else {
            self.phase = DecodePhase::Truncated;
            DecodeStep::Truncate { length: self.payload_size }
        }
    }

    /// The header has been read: the run takes the payload size and the
    /// checksum from it and hands out the first batch.
    pub fn metadata_read(&mut self, meta: &Metadata) -> (step: DecodeStep)
        requires
            old(self).wf(),
            old(self).phase() == DecodePhase::Init,
        ensures
            final(self).wf(),
            final(self).frames_amount() == old(self).frames_amount(),
            final(self).threads() == old(self).threads(),
            final(self).payload_size() == meta.payload_size,
            final(self).payload_crc32() == meta.payload_crc32,
            step == next_step_spec(
                1,
                old(self).frames_amount(),
                old(self).threads(),
                meta.payload_size,
            ),
            step matches DecodeStep::ExtractBatch { start, count } ==> final(self).phase()
                == DecodePhase::MetadataRead && start == 1 && final(self).next_frame() == start
                + count && 1 <= count,
            step is Truncate ==> final(self).phase() == DecodePhase::Truncated,
    {
        self.phase = DecodePhase::MetadataRead;
        self.payload_size = meta.payload_size;
        self.payload_crc32 = meta.payload_crc32;
        self.advance()
    }

    /// The contents of the last batch handed out have been written.
    pub fn batch_done(&mut self) -> (step: DecodeStep)
        requires
            old(self).wf(),
            old(self).phase() == DecodePhase::MetadataRead,
        ensures
            final(self).wf(),
            step == old(self).step_spec(),
            final(self).frames_amount() == old(self).frames_amount(),
            final(self).threads() == old(self).threads(),
            final(self).payload_size() == old(self).payload_size(),
            final(self).payload_crc32() == old(self).payload_crc32(),
            step matches DecodeStep::ExtractBatch { start, count } ==> final(self).phase()
                == DecodePhase::MetadataRead && final(self).next_frame() == start + count && 1
                <= count,
            step is Truncate ==> final(self).phase() == DecodePhase::Truncated,
    {
        self.advance()
    }

    /// The output has been cut to the payload size: its checksum is due.
    pub fn truncated(&self) -> (step: DecodeStep)
        requires
            self.wf(),
            self.phase() == DecodePhase::Truncated,
        ensures
            step == (DecodeStep::VerifyChecksum { expected: self.payload_crc32() }),
    {
        DecodeStep::VerifyChecksum { expected: self.payload_crc32 }
    }

    /// The checksum of the output is `actual`: the run is over, and the
    /// output is intact if the checksum is the one that the header announced.
    /// A mismatch is reported and nothing more; the output stays as it is.
    pub fn verified(&mut self, actual: u32) -> (intact: bool)
        requires
            old(self).wf(),
            old(self).phase() == DecodePhase::Truncated,
        ensures
            final(self).wf(),
            final(self).phase() == DecodePhase::Verified,
            intact == (actual == old(self).payload_crc32()),
    {
        self.phase = DecodePhase::Verified;
        actual == self.payload_crc32
    }
}

/// The indices of `items` never fall from one item to the next.
pub open spec fn sorted_by_index<T>(items: Seq<(u64, T)>) -> bool {
    forall|i: int, j: int| 0 <= i <= j < items.len() ==> items[i].0 <= items[j].0
}

/// No two items of `items` carry the same index.
pub open spec fn distinct_indices<T>(items: Seq<(u64, T)>) -> bool {
    forall|i: int, j: int| 0 <= i < j < items.len() ==> items[i].0 != items[j].0
}

/// Puts what the workers of a batch returned into the order of the frames:
/// the same items, sorted by their global frame index.
pub fn sort_by_index<T>(items: Vec<(u64, T)>) -> (sorted: Vec<(u64, T)>)
    ensures
        sorted@.to_multiset() == items@.to_multiset(),
        sorted@.len() == items@.len(),
        sorted_by_index(sorted@),
{
    let mut rest = items;
    let mut sorted: Vec<(u64, T)> = Vec::new();
    proof {
        broadcast use vstd::seq_lib::group_to_multiset_ensures;
        assert(sorted@.to_multiset().add(rest@.to_multiset()) =~= items@.to_multiset());
    }
    while rest.len() > 0
        invariant
            sorted@.to_multiset().add(rest@.to_multiset()) == items@.to_multiset(),
            sorted@.len() + rest@.len() == items@.len(),
            sorted_by_index(sorted@),
            forall|i: int, j: int|
                0 <= i < sorted@.len() && 0 <= j < rest@.len() ==> sorted@[i].0 <= rest@[j].0,
        decreases rest@.len(),
    {
        let mut least: usize = 0;
        let mut k: usize = 1;
        while k < rest.len()
            invariant
                rest@.len() > 0,
                least < k <= rest@.len(),
                forall|j: int| 0 <= j < k ==> rest@[least as int].0 <= rest@[j].0,
            decreases rest@.len() - k,
        {
            if rest[k].0 < rest[least].0 {
                least = k;
            }
            k += 1;
        }
        let ghost before_rest = rest@;
        let ghost before_sorted = sorted@;
        let item = rest.remove(least);
        sorted.push(item);
        proof {
            to_multiset_remove(before_rest, least as int);
            to_multiset_build(before_sorted, item);
            assert(before_rest.to_multiset().count(item) > 0) by {
                broadcast use vstd::seq_lib::group_to_multiset_ensures;
                assert(before_rest.contains(item));
            }
            assert(sorted@.to_multiset().add(rest@.to_multiset()) =~= before_sorted.to_multiset().add(
                before_rest.to_multiset(),
            ));
            assert forall|i: int, j: int| 0 <= i < sorted@.len() && 0 <= j < rest@.len() implies sorted@[i].0
                <= rest@[j].0 by {
                if j < least {
                    assert(rest@[j] == before_rest[j]);
                } else {
                    assert(rest@[j] == before_rest[j + 1]);
                }
                if i < before_sorted.len() {
                    assert(sorted@[i] == before_sorted[i]);
                }
            }
        }
    }
    proof {
        assert(rest@.to_multiset() =~= vstd::multiset::Multiset::<(u64, T)>::empty()) by {
            broadcast use vstd::seq_lib::group_to_multiset_ensures;
            assert(rest@ =~= Seq::<(u64, T)>::empty());
        }
        assert(sorted@.to_multiset().add(rest@.to_multiset()) =~= sorted@.to_multiset());
    }
    sorted
}

/// The order of a batch is settled by its indices: two sequences of the same
/// items, both sorted by index, are the same sequence, provided no index occurs
/// twice.
pub proof fn lemma_sorted_unique<T>(a: Seq<(u64, T)>, b: Seq<(u64, T)>)
    requires
        sorted_by_index(a),
        sorted_by_index(b),
        distinct_indices(a),
        a.to_multiset() == b.to_multiset(),
    ensures
        a == b,
    decreases a.len(),
{
    a.to_multiset_ensures();
    b.to_multiset_ensures();
    assert(a.len() == a.to_multiset().len() == b.len());
    if a.len() == 0 {
        assert(a =~= b);
    } else {
        assert(a.contains(a[0]) && a.to_multiset().count(a[0]) > 0);
        assert(b.contains(a[0]));
        assert(b.contains(b[0]) && b.to_multiset().count(b[0]) > 0);
        assert(a.contains(b[0]));
        let j: int = choose|j: int| 0 <= j < a.len() && a[j] == b[0];
        let k: int = choose|k: int| 0 <= k < b.len() && b[k] == a[0];
        assert(a[0].0 <= a[j].0);
        assert(b[0].0 <= b[k].0);
        assert(j == 0);
        assert(a.remove(0) =~= a.drop_first());
        assert(b.remove(0) =~= b.drop_first());
        to_multiset_remove(a, 0);
        to_multiset_remove(b, 0);
        assert(a.drop_first().to_multiset() == b.drop_first().to_multiset());
        assert forall|i: int, l: int| 0 <= i <= l < a.drop_first().len() implies a.drop_first()[i].0
            <= a.drop_first()[l].0 by {
            assert(a[i + 1].0 <= a[l + 1].0);
        }
        assert forall|i: int, l: int| 0 <= i <= l < b.drop_first().len() implies b.drop_first()[i].0
            <= b.drop_first()[l].0 by {
            assert(b[i + 1].0 <= b[l + 1].0);
        }
        assert forall|i: int, l: int| 0 <= i < l < a.drop_first().len() implies a.drop_first()[i].0
            != a.drop_first()[l].0 by {
            assert(a[i + 1].0 != a[l + 1].0);
        }
        lemma_sorted_unique(a.drop_first(), b.drop_first());
        assert(a =~= seq![a[0]] + a.drop_first());
        assert(b =~= seq![b[0]] + b.drop_first());
    }
}

/// Sorted items with distinct indices rise strictly.
pub proof fn lemma_sorted_distinct_is_strict<T>(items: Seq<(u64, T)>)
    requires
        sorted_by_index(items),
        distinct_indices(items),
    ensures
        forall|i: int, j: int| 0 <= i < j < items.len() ==> items[i].0 < items[j].0,
{
}

} // verus!
