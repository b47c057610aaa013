//! The AAC decoder and encoders of fdk-aac, each with a record of the calls
//! made on it since it was opened. Only the functions of this module, each a
//! single fdk-aac call, extend a record; they add what they were handed and
//! what the call returned.
use fdk_aac::dec::{Decoder, DecoderError};
use fdk_aac::enc::{Encoder, EncoderError};
use vstd::prelude::*;

verus! {

#[verifier::external_type_specification]
#[verifier::external_body]
pub struct ExDecoder(Decoder);

#[verifier::external_type_specification]
#[verifier::external_body]
pub struct ExEncoder(Encoder);

#[verifier::external_type_specification]
#[verifier::external_body]
pub struct ExDecoderError(DecoderError);

#[verifier::external_type_specification]
#[verifier::external_body]
pub struct ExEncoderError(EncoderError);

/// How an encoder spends its bits.
#[derive(Clone, Copy, Debug, PartialEq, Eq, Structural)]
pub enum BitRateMode {
    /// Constant bitrate, in bits per second.
    Cbr(u32),
    /// The highest variable-bitrate quality.
    VbrVeryHigh,
}

/// Outcome of one attempt to decode a frame.
pub enum DecodeStep {
    /// A frame was decoded.
    Frame,
    /// The decoder needs more input first.
    NeedInput,
    /// Any other decoder failure.
    Fault(DecoderError),
}

/// One call made on a decoder.
pub enum DecoderEvent {
    /// `fill` was offered `offered`; it took the returned count of them in, or failed.
    Fill { offered: Seq<u8>, result: Result<usize, DecoderError> },
    /// `decode_frame` into a buffer, which held `pcm` afterwards.
    Decode { result: DecodeStep, pcm: Seq<i16> },
    /// `decoded_frame_size` returned `size`.
    FrameSize { size: nat },
    /// `stream_info` gave the sample rate and the output delay (samples per channel).
    Params { rate: u32, delay: u32 },
}

/// One call made on an encoder.
pub enum EncoderEvent {
    /// `info` gave the frame length (samples per channel), or failed.
    FrameLength { result: Result<u32, EncoderError> },
    /// `encode` was handed `input` and returned these bytes, or failed.
    Encode { input: Seq<i16>, result: Result<Seq<u8>, EncoderError> },
}

/// An ADTS decoder and the calls made on it since it was opened.
pub struct AacDecoder {
    inner: Decoder,
    log: Ghost<Seq<DecoderEvent>>,
}

impl AacDecoder {
    pub closed spec fn log(&self) -> Seq<DecoderEvent> {
        self.log@
    }
}

/// A stereo AAC-LC encoder with ADTS framing, what it was opened with, and the
/// calls made on it since.
pub struct AacEncoder {
    inner: Encoder,
    mode: Ghost<BitRateMode>,
    rate: Ghost<u32>,
    log: Ghost<Seq<EncoderEvent>>,
}

impl AacEncoder {
    pub closed spec fn log(&self) -> Seq<EncoderEvent> {
        self.log@
    }

    pub closed spec fn mode(&self) -> BitRateMode {
        self.mode@
    }

    pub closed spec fn rate(&self) -> u32 {
        self.rate@
    }
}

/// Relies on `fdk_aac::dec::Decoder::new`: a fresh ADTS decoder.
#[verifier::external_body]
pub fn open_decoder() -> (r: AacDecoder)
    ensures
        r.log() == Seq::<DecoderEvent>::empty(),
{
    AacDecoder { inner: Decoder::new(fdk_aac::dec::Transport::Adts), log: Ghost(Seq::empty()) }
}

/// Relies on `fdk_aac::dec::Decoder::fill`: the number of bytes of `data[from..]`
/// taken in, which is their count less the bytes left over.
#[verifier::external_body]
pub fn decoder_fill(decoder: &mut AacDecoder, data: &Vec<u8>, from: usize) -> (r: Result<usize, DecoderError>)
    requires
        from <= data@.len(),
    ensures
        r is Ok ==> r->Ok_0 <= data@.len() - from,
        final(decoder).log() == old(decoder).log().push(
            DecoderEvent::Fill { offered: data@.subrange(from as int, data@.len() as int), result: r },
        ),
{
    decoder.inner.fill(&data[from..])
}

/// Relies on `fdk_aac::dec::Decoder::decode_frame`: decodes into `pcm`, whose
/// length it leaves alone; `NOT_ENOUGH_BITS` asks for more input.
#[verifier::external_body]
pub fn decode_frame(decoder: &mut AacDecoder, pcm: &mut Vec<i16>) -> (r: DecodeStep)
    ensures
        final(pcm)@.len() == old(pcm)@.len(),
        final(decoder).log() == old(decoder).log().push(
            DecoderEvent::Decode { result: r, pcm: final(pcm)@ },
        ),
{
    match decoder.inner.decode_frame(pcm.as_mut_slice()) {
        Ok(()) => DecodeStep::Frame,
        Err(e) if e == DecoderError::NOT_ENOUGH_BITS => DecodeStep::NeedInput,
        Err(e) => DecodeStep::Fault(e),
    }
}

/// Relies on `fdk_aac::dec::Decoder::decoded_frame_size`: samples (all channels)
/// in the last decoded frame.
#[verifier::external_body]
pub fn decoded_frame_size(decoder: &mut AacDecoder) -> (r: usize)
    ensures
        final(decoder).log() == old(decoder).log().push(DecoderEvent::FrameSize { size: r as nat }),
{
    decoder.inner.decoded_frame_size()
}

/// Relies on `fdk_aac::dec::Decoder::stream_info`: the sample rate of the
/// stream, and the decoder's output delay in samples per channel.
#[verifier::external_body]
pub fn stream_params(decoder: &mut AacDecoder) -> (r: (u32, u32))
    ensures
        final(decoder).log() == old(decoder).log().push(
            DecoderEvent::Params { rate: r.0, delay: r.1 },
        ),
{
    let info = decoder.inner.stream_info();
    (info.sampleRate as u32, info.outputDelay)
}

/// Relies on `fdk_aac::enc::Encoder::new`: a stereo AAC-LC encoder with ADTS
/// framing, at `mode` and `sample_rate`.
#[verifier::external_body]
pub fn open_encoder(mode: BitRateMode, sample_rate: u32) -> (r: Result<AacEncoder, EncoderError>)
    ensures
        r is Ok ==> r->Ok_0.log() == Seq::<EncoderEvent>::empty() && r->Ok_0.mode() == mode
            && r->Ok_0.rate() == sample_rate,
{
    let bit_rate = match mode {
        BitRateMode::Cbr(b) => fdk_aac::enc::BitRate::Cbr(b),
        BitRateMode::VbrVeryHigh => fdk_aac::enc::BitRate::VbrVeryHigh,
    };
    Encoder::new(fdk_aac::enc::EncoderParams {
        bit_rate,
        sample_rate,
        transport: fdk_aac::enc::Transport::Adts,
        channels: fdk_aac::enc::ChannelMode::Stereo,
        audio_object_type: fdk_aac::enc::AudioObjectType::Mpeg4LowComplexity,
    }).map(|inner| AacEncoder { inner, mode: Ghost(mode), rate: Ghost(sample_rate), log: Ghost(Seq::empty()) })
}

/// Relies on `fdk_aac::enc::Encoder::info`: the encoder's frame length, in
/// samples per channel.
#[verifier::external_body]
pub fn encoder_frame_length(encoder: &mut AacEncoder) -> (r: Result<u32, EncoderError>)
    ensures
        final(encoder).log() == old(encoder).log().push(EncoderEvent::FrameLength { result: r }),
        final(encoder).mode() == old(encoder).mode(),
        final(encoder).rate() == old(encoder).rate(),
{
    encoder.inner.info().map(|info| info.frameLength)
}

/// Relies on `fdk_aac::enc::Encoder::encode`: encodes `input[start..end]` into
/// `out` and returns the number of bytes written, which fit in `out`.
#[verifier::external_body]
pub fn encode_into(encoder: &mut AacEncoder, input: &Vec<i16>, start: usize, end: usize, out: &mut Vec<u8>) -> (r:
    Result<usize, EncoderError>)
    requires
        start <= end <= input@.len(),
    ensures
        final(out)@.len() == old(out)@.len(),
        r is Ok ==> r->Ok_0 <= old(out)@.len(),
        final(encoder).log() == old(encoder).log().push(
            EncoderEvent::Encode {
                input: input@.subrange(start as int, end as int),
                result: match r {
                    Ok(n) => Ok(final(out)@.take(n as int)),
                    Err(e) => Err(e),
                },
            },
        ),
        final(encoder).mode() == old(encoder).mode(),
        final(encoder).rate() == old(encoder).rate(),
{
    encoder.inner.encode(&input[start..end], out.as_mut_slice()).map(|info| info.output_size)
}

} // verus!
