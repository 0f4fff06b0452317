//! The block codec: systematic Reed-Solomon framing of fixed-length blocks.
//!
//! A block is a content prefix followed by an error-correction suffix. The
//! arithmetic over GF(2^8) is the work of the `reed_solomon` crate; this module
//! names what that crate returns, states what its source shows of it, and builds
//! the framing on top: a content block goes in, content plus suffix comes out,
//! and a received block is read back as corrected content or, where correction
//! fails, as the raw content prefix.

use crate::common::zeros;
use vstd::prelude::*;

verus! {

/// A Reed-Solomon encoder of the `reed_solomon` crate, made for one suffix length.
#[verifier::external_type_specification]
#[verifier::external_body]
pub struct ExEncoder(reed_solomon::Encoder);

/// A Reed-Solomon decoder of the `reed_solomon` crate, made for one suffix length.
#[verifier::external_type_specification]
#[verifier::external_body]
pub struct ExDecoder(reed_solomon::Decoder);

/// The error of the `reed_solomon` decoder: the block holds too many errors.
#[verifier::external_type_specification]
#[verifier::external_body]
pub struct ExDecoderError(reed_solomon::DecoderError);

/// The suffix length that an encoder was made with.
pub uninterp spec fn encoder_ecc_len(encoder: reed_solomon::Encoder) -> nat;

/// The suffix length that a decoder was made with.
pub uninterp spec fn decoder_ecc_len(decoder: reed_solomon::Decoder) -> nat;

/// The error-correction suffix of `ecc_len` bytes that
/// `reed_solomon::Encoder::encode` computes for `data`.
pub uninterp spec fn rs_parity(data: Seq<u8>, ecc_len: nat) -> Seq<u8>;

/// What `reed_solomon::Decoder::correct_err_count` makes of a received block
/// without known erasures: the corrected block with the number of corrected
/// symbols, or `None` where it gives the block up.
pub uninterp spec fn rs_corrected(block: Seq<u8>, ecc_len: nat) -> Option<(Seq<u8>, nat)>;

/// The error-correction suffix of `data`: what the encoder computes, which is
/// `ecc_len` bytes long.
pub open spec fn parity_spec(data: Seq<u8>, ecc_len: nat) -> Seq<u8> {
    if rs_parity(data, ecc_len).len() == ecc_len {
        rs_parity(data, ecc_len)
    } else {
        zeros(ecc_len)
    }
}

/// A block is clean: its last `ecc_len` bytes are the suffix that the encoder
/// computes for the bytes before them.
pub open spec fn is_codeword(block: Seq<u8>, ecc_len: nat) -> bool {
    &&& ecc_len <= block.len()
    &&& block.subrange(block.len() - ecc_len, block.len() as int) == parity_spec(
        block.subrange(0, block.len() - ecc_len),
        ecc_len,
    )
}

/// What the decoder makes of a received block: a clean block comes back as it
/// is with nothing corrected, any other block as the decoder decides.
pub open spec fn corrected_spec(block: Seq<u8>, ecc_len: nat) -> Option<(Seq<u8>, nat)> {
    if is_codeword(block, ecc_len) {
        Some((block, 0nat))
    } else {
        rs_corrected(block, ecc_len)
    }
}

/// Calls `reed_solomon::Encoder::new`, which computes the generator polynomial
/// for `ecc_len` suffix bytes. Trusted: the encoder remembers that length. The
/// polynomial has `ecc_len + 1` coefficients and the crate holds at most 256.
#[verifier::external_body]
fn encoder_new(ecc_len: usize) -> (encoder: reed_solomon::Encoder)
    requires
        ecc_len < 128,
    ensures
        encoder_ecc_len(encoder) == ecc_len,
{
    reed_solomon::Encoder::new(ecc_len)
}

/// Calls `reed_solomon::Encoder::encode` and hands out the suffix of the buffer
/// that it returns. Trusted: the suffix has the encoder's length and is a
/// function of the data and that length alone. The crate holds a block in 256
/// bytes and its decoder takes fewer, hence the bound.
#[verifier::external_body]
fn encoder_parity(encoder: &reed_solomon::Encoder, data: &[u8]) -> (parity: Vec<u8>)
    requires
        data.len() + encoder_ecc_len(*encoder) < 256,
    ensures
        parity@ == rs_parity(data@, encoder_ecc_len(*encoder)),
        parity@.len() == encoder_ecc_len(*encoder),
{
    encoder.encode(data).ecc().to_vec()
}

/// Calls `reed_solomon::Decoder::new`. Trusted: the decoder remembers `ecc_len`.
#[verifier::external_body]
fn decoder_new(ecc_len: usize) -> (decoder: reed_solomon::Decoder)
    ensures
        decoder_ecc_len(decoder) == ecc_len,
{
    reed_solomon::Decoder::new(ecc_len)
}

/// Calls `reed_solomon::Decoder::correct_err_count` without known erasures and
/// copies the corrected block out of the buffer that it returns.
///
/// Trusted, as the crate's source shows it: the outcome is a function of the
/// block and the suffix length alone; a corrected block is as long as the
/// received one; the decoder gives up where the errors it locates, counted
/// twice, exceed the suffix length, so the count it reports is at most half of
/// it; and a block whose syndromes are all zero, as those of every block that
/// the encoder produced are, comes back unchanged with a count of zero, which
/// is what `corrected_spec` says of a clean block. The crate asserts that a
/// block is shorter than 256 bytes and subtracts the suffix length from the
/// block length; it multiplies polynomials of up to `ecc_len + 1` and
/// `ecc_len / 2 + 1` coefficients into one of at most 256, which a suffix
/// shorter than 128 bytes never exceeds.
#[verifier::external_body]
fn decoder_correct(decoder: &reed_solomon::Decoder, block: &[u8]) -> (outcome: Result<(Vec<u8>, usize), reed_solomon::DecoderError>)
    requires
        decoder_ecc_len(*decoder) <= block.len() < 256,
        decoder_ecc_len(*decoder) < 128,
    ensures
        outcome matches Ok((fixed, count)) ==> corrected_spec(block@, decoder_ecc_len(*decoder))
            == Some((fixed@, count as nat)),
        outcome matches Ok((fixed, count)) ==> fixed@.len() == block@.len(),
        outcome matches Ok((fixed, count)) ==> 2 * count <= decoder_ecc_len(*decoder),
        outcome is Err ==> corrected_spec(block@, decoder_ecc_len(*decoder)) is None,
        outcome is Err ==> rs_corrected(block@, decoder_ecc_len(*decoder)) is None,
{
    match decoder.correct_err_count(block, None) {
        Ok((buffer, count)) => Ok((buffer.to_vec(), count)),
        Err(error) => Err(error),
    }
}

/// A content block with its suffix appended is a clean block.
pub proof fn lemma_encoded_is_codeword(content: Seq<u8>, ecc_len: nat)
    ensures
        (content + parity_spec(content, ecc_len)).len() == content.len() + ecc_len,
        is_codeword(content + parity_spec(content, ecc_len), ecc_len),
{
    let whole = content + parity_spec(content, ecc_len);
    assert(whole.subrange(0, whole.len() - ecc_len) =~= content);
    assert(whole.subrange(whole.len() - ecc_len, whole.len() as int) =~= parity_spec(
        content,
        ecc_len,
    ));
}

/// Encoding a content block and decoding the result gives the block back with
/// nothing corrected, and its content prefix is the content that went in.
pub proof fn lemma_decode_encoded(content: Seq<u8>, ecc_len: nat)
    ensures
        decode_spec(content + parity_spec(content, ecc_len), ecc_len) == Ok::<
            (Seq<u8>, nat),
            BlockError,
        >((content + parity_spec(content, ecc_len), 0nat)),
        content_spec(content + parity_spec(content, ecc_len), ecc_len) == content,
{
    lemma_encoded_is_codeword(content, ecc_len);
    let whole = content + parity_spec(content, ecc_len);
    assert(whole.subrange(0, whole.len() - ecc_len) =~= content);
}

/// Why a block could not be read.
#[derive(Clone, Copy, Debug, PartialEq, Eq, Structural)]
pub enum BlockError {
    /// The block holds more errors than its suffix can correct.
    Unrecoverable,
}

/// What decoding a block gives: the corrected block and the number of symbols
/// that were corrected, or `Unrecoverable`.
pub open spec fn decode_spec(block: Seq<u8>, ecc_len: nat) -> Result<(Seq<u8>, nat), BlockError> {
    match corrected_spec(block, ecc_len) {
        Some(corrected) => Ok(corrected),
        None => Err(BlockError::Unrecoverable),
    }
}

/// The content that a received block stands for under the pass-through policy:
/// the content prefix of the corrected block, or of the block as received where
/// correction failed.
pub open spec fn content_spec(block: Seq<u8>, ecc_len: nat) -> Seq<u8> {
    match corrected_spec(block, ecc_len) {
        Some(corrected) => corrected.0.subrange(0, block.len() - ecc_len),
        None => block.subrange(0, block.len() - ecc_len),
    }
}

/// Encoder and decoder for blocks of one length and one suffix length.
pub struct BlockCodec {
    block_len: usize,
    ecc_len: usize,
    encoder: reed_solomon::Encoder,
    decoder: reed_solomon::Decoder,
}

impl BlockCodec {
    /// Length of a whole block, content and suffix.
    pub closed spec fn block_len(&self) -> nat {
        self.block_len as nat
    }

    /// Length of the error-correction suffix.
    pub closed spec fn ecc_len(&self) -> nat {
        self.ecc_len as nat
    }

    /// Length of the content prefix.
    pub open spec fn content_len(&self) -> nat {
        (self.block_len() - self.ecc_len()) as nat
    }

    /// The codec is consistent: the suffix is shorter than the block and than
    /// 128 bytes, a block is shorter than 256 bytes, and encoder and decoder
    /// were made for the suffix length.
    pub closed spec fn wf(&self) -> bool {
        &&& 0 < self.ecc_len < self.block_len < 256
        &&& self.ecc_len < 128
        &&& encoder_ecc_len(self.encoder) == self.ecc_len
        &&& decoder_ecc_len(self.decoder) == self.ecc_len
    }

    /// A codec for blocks of `block_len` bytes of which the last `ecc_len` are
    /// the suffix. A block must be shorter than 256 bytes, the field's size,
    /// and its suffix shorter than 128.
    pub fn new(block_len: usize, ecc_len: usize) -> (codec: BlockCodec)
        requires
            0 < ecc_len < block_len < 256,
            ecc_len < 128,
        ensures
            codec.wf(),
            codec.block_len() == block_len,
            codec.ecc_len() == ecc_len,
    {
        BlockCodec {
            block_len,
            ecc_len,
            encoder: encoder_new(ecc_len),
            decoder: decoder_new(ecc_len),
        }
    }

    /// Length of the content prefix.
    pub fn content_bytes(&self) -> (len: usize)
        requires
            self.wf(),
        ensures
            len == self.content_len(),
            0 < len < 255,
    {
        self.block_len - self.ecc_len
    }

    /// Length of a whole block.
    pub fn block_bytes(&self) -> (len: usize)
        requires
            self.wf(),
        ensures
            len == self.block_len(),
    {
        self.block_len
    }

    /// Appends the error-correction suffix to a content block.
    pub fn encode(&self, content: &[u8]) -> (block: Vec<u8>)
        requires
            self.wf(),
            content.len() == self.content_len(),
        ensures
            block@ == content@ + parity_spec(content@, self.ecc_len()),
            block@.len() == self.block_len(),
    {
        let parity = encoder_parity(&self.encoder, content);
        let mut block: Vec<u8> = Vec::with_capacity(self.block_len);
        block.extend_from_slice(content);
        block.extend_from_slice(parity.as_slice());
        assert(block@ =~= content@ + parity_spec(content@, self.ecc_len()));
        block
    }

    /// Corrects a received block: the corrected block and the number of symbols
    /// corrected, which is at most half the suffix length, or `Unrecoverable`.
    /// A clean block comes back as it is, with a count of zero.
    pub fn decode(&self, block: &[u8]) -> (outcome: Result<(Vec<u8>, usize), BlockError>)
        requires
            self.wf(),
            block.len() == self.block_len(),
        ensures
            outcome matches Ok((fixed, count)) ==> decode_spec(block@, self.ecc_len()) == Ok::<
                (Seq<u8>, nat),
                BlockError,
            >((fixed@, count as nat)),
            outcome matches Ok((fixed, count)) ==> fixed@.len() == self.block_len() && 2 * count
                <= self.ecc_len(),
            outcome matches Err(error) ==> decode_spec(block@, self.ecc_len()) == Err::<
                (Seq<u8>, nat),
                BlockError,
            >(error),
    {
        match decoder_correct(&self.decoder, block) {
            Ok(corrected) => Ok(corrected),
            Err(_) => Err(BlockError::Unrecoverable),
        }
    }
}

/// The content that a received block stands for, given what the decoder made of
/// it: the content prefix of the corrected block, or of the received block as
/// it is where the decoder gave it up.
pub fn content_of(block: &[u8], outcome: &Result<(Vec<u8>, usize), BlockError>, content_len: usize) -> (content: Vec<u8>)
    requires
        content_len <= block.len(),
        outcome matches Ok((fixed, _)) ==> fixed.len() == block.len(),
    ensures
        outcome matches Ok((fixed, _)) ==> content@ == fixed@.subrange(0, content_len as int),
        outcome is Err ==> content@ == block@.subrange(0, content_len as int),
{
    let source: &[u8] = match outcome {
        Ok((fixed, _)) => fixed.as_slice(),
        Err(_) => block,
    };
    let mut content: Vec<u8> = Vec::with_capacity(content_len);
    let mut i: usize = 0;
    while i < content_len
        invariant
            i <= content_len <= source.len(),
            content@ == source@.subrange(0, i as int),
        decreases content_len - i,
    {
        content.push(source[i]);
        assert(source@.subrange(0, i + 1) =~= source@.subrange(0, i as int).push(source@[i as int]));
        i += 1;
    }
    content
}

} // verus!
