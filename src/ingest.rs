//! Song ingest: canonical stereo PCM cut into ten-second pre-encoded chunks,
//! and the duration marker stored beside them.
use crate::codec::{open_encoder, AacEncoder, BitRateMode};
use crate::recode::{
    blocks, block_ranges, concat, encode_range, encoder_fault, extends, inputs, outputs, RecodeError,
};
use vstd::prelude::*;

verus! {

/// Seconds of audio in one pre-encoded chunk.
pub const CHUNK_SECONDS: usize = 10;

/// Channels kept in the canonical PCM stream.
pub const CANONICAL_CHANNELS: usize = 2;

/// Sample `c` (0 or 1) of frame `f` of the canonical stereo stream made from
/// interleaved `pcm` with `channels` channels: mono is duplicated, channels past
/// the second are dropped.
pub open spec fn stereo_sample(pcm: Seq<i16>, channels: nat, f: nat, c: nat) -> i16 {
    if channels == 1 {
        pcm[f as int]
    } else {
        pcm[(f * channels + c) as int]
    }
}

/// Whether `out` is the canonical stereo stream for `pcm`.
pub open spec fn is_stereo_of(out: Seq<i16>, pcm: Seq<i16>, channels: nat) -> bool {
    &&& out.len() == 2 * (pcm.len() / channels)
    &&& forall|f: nat, c: nat|
        f < pcm.len() / channels && c < 2 ==> #[trigger] out[(2 * f + c) as int] == stereo_sample(
            pcm,
            channels,
            f,
            c,
        )
}

/// Normalise interleaved PCM with `channels` channels to stereo; a trailing
/// partial frame is dropped.
pub fn to_stereo(pcm: &Vec<i16>, channels: usize) -> (r: Vec<i16>)
    requires
        channels >= 1,
        pcm@.len() <= usize::MAX / 2,
    ensures
        is_stereo_of(r@, pcm@, channels as nat),
{
    let frames = pcm.len() / channels;
    let mut out: Vec<i16> = Vec::new();
    let mut f: usize = 0;
    let mut base: usize = 0;
    while f < frames
        invariant
            frames == pcm@.len() / channels as nat,
            channels >= 1,
            pcm@.len() <= usize::MAX / 2,
            f <= frames,
            base == f * channels,
            out@.len() == 2 * f,
            forall|g: nat, c: nat|
                g < f && c < 2 ==> #[trigger] out@[(2 * g + c) as int] == stereo_sample(
                    pcm@,
                    channels as nat,
                    g,
                    c,
                ),
        decreases frames - f,
    {
        proof {
            assert((f + 1) * channels <= frames * channels) by (nonlinear_arith)
                requires
                    f + 1 <= frames,
            ;
            assert(frames * channels <= pcm@.len()) by (nonlinear_arith)
                requires
                    frames == pcm@.len() / channels as nat,
                    channels >= 1,
            ;
            assert((f + 1) * channels == f * channels + channels) by (nonlinear_arith);
            assert(base + channels <= pcm@.len());
        }
        let left = pcm[base];
        let right = if channels == 1 {
            pcm[base]
        } else {
            pcm[base + 1]
        };
        out.push(left);
        out.push(right);
        proof {
            assert(channels == 1 ==> base == f) by (nonlinear_arith)
                requires
                    base == f * channels,
            ;
            assert forall|g: nat, c: nat|
                g < f + 1 && c < 2 implies #[trigger] out@[(2 * g + c) as int] == stereo_sample(
                pcm@,
                channels as nat,
                g,
                c,
            ) by {
                if g == f {
                    assert(2 * g + c == 2 * f + c);
                }
            }
        }
        base = base + channels;
        f = f + 1;
    }
    out
}

/// What the demuxer or decoder reported while a song is being ingested.
#[derive(Clone, Copy, Debug, PartialEq, Eq, Structural)]
pub enum IngestEvent {
    /// A packet of track `track` was read.
    Packet { track: u32 },
    /// Reading stopped at a clean end of stream.
    EndOfStream,
    /// Reading failed in any other way.
    ReadFault,
    /// A packet decoded to samples.
    Decoded,
    /// A packet failed to decode in a way that only spoils that packet.
    PacketUnusable,
    /// Decoding failed in any other way.
    DecodeFault,
}

/// What the ingest loop does next.
#[derive(Clone, Copy, Debug, PartialEq, Eq, Structural)]
pub enum IngestAction {
    /// Decode the packet just read.
    Decode,
    /// Drop the packet and read the next one.
    Skip,
    /// Keep the decoded samples and read the next packet.
    Keep,
    /// All packets are read: chunk and encode what was kept.
    Finish,
    /// Give up the whole upload, writing nothing.
    Abort,
}

/// The ingest loop's decision on `event` when `track` is the selected track:
/// packets of other tracks and unusable packets are skipped, a clean end of
/// stream finishes, and any other read or decode failure aborts the upload.
pub open spec fn ingest_step_spec(event: IngestEvent, track: u32) -> IngestAction {
    match event {
        IngestEvent::Packet { track: t } => if t == track {
            IngestAction::Decode
        } else {
            IngestAction::Skip
        },
        IngestEvent::EndOfStream => IngestAction::Finish,
        IngestEvent::ReadFault => IngestAction::Abort,
        IngestEvent::Decoded => IngestAction::Keep,
        IngestEvent::PacketUnusable => IngestAction::Skip,
        IngestEvent::DecodeFault => IngestAction::Abort,
    }
}

/// Decide what the ingest loop does on `event`; see `ingest_step_spec`.
pub fn ingest_step(event: IngestEvent, track: u32) -> (r: IngestAction)
    ensures
        r == ingest_step_spec(event, track),
{
    match event {
        IngestEvent::Packet { track: t } => if t == track {
            IngestAction::Decode
        } else {
            IngestAction::Skip
        },
        IngestEvent::EndOfStream => IngestAction::Finish,
        IngestEvent::ReadFault => IngestAction::Abort,
        IngestEvent::Decoded => IngestAction::Keep,
        IngestEvent::PacketUnusable => IngestAction::Skip,
        IngestEvent::DecodeFault => IngestAction::Abort,
    }
}

/// Length in milliseconds of `samples` interleaved samples at `rate` Hz with
/// `channels` channels, rounded down.
pub open spec fn duration_ms_spec(samples: nat, rate: nat, channels: nat) -> nat {
    samples * 1000 / (rate * channels)
}

/// Duration of a decoded song in whole milliseconds, rounded down (the length
/// marker holds milliseconds, not a floating-point number of seconds); `None`
/// where it does not fit in 64 bits.
pub fn duration_ms(samples: u64, rate: u32, channels: u32) -> (r: Option<u64>)
    requires
        rate > 0,
        channels > 0,
    ensures
        r is Some <==> duration_ms_spec(samples as nat, rate as nat, channels as nat) <= u64::MAX,
        r is Some ==> r->Some_0 == duration_ms_spec(samples as nat, rate as nat, channels as nat),
{
    let num: u128 = samples as u128 * 1000;
    assert(rate as nat * channels as nat <= 0xFFFF_FFFF_FFFF_FFFF) by (nonlinear_arith)
        requires
            rate <= 0xFFFF_FFFF,
            channels <= 0xFFFF_FFFF,
    ;
    assert(rate as nat * channels as nat > 0) by (nonlinear_arith)
        requires
            rate > 0,
            channels > 0,
    ;
    let den: u128 = rate as u128 * channels as u128;
    let q = num / den;
    if q <= u64::MAX as u128 {
        Some(q as u64)
    } else {
        None
    }
}

/// A song cut into pre-encoded chunks.
pub struct SongChunks {
    /// The encoded chunks, in order.
    pub chunks: Vec<Vec<u8>>,
    /// Length of the song in milliseconds.
    pub duration_ms: u64,
}

/// Samples (both channels) in one chunk at `rate` Hz.
pub open spec fn chunk_samples(rate: nat) -> nat {
    rate * CHUNK_SECONDS as nat * CANONICAL_CHANNELS as nat
}

/// Whether a song of `len` samples at `rate` Hz is too long to cut: its
/// duration in milliseconds or its window size does not fit.
pub open spec fn too_long(len: nat, rate: nat) -> bool {
    duration_ms_spec(len, rate, CANONICAL_CHANNELS as nat) > u64::MAX || chunk_samples(rate)
        > usize::MAX
}

/// Cut canonical stereo PCM at `rate` Hz into ten-second windows, the last one
/// possibly shorter, and encode each on its own with a fresh encoder at the
/// highest variable-bitrate quality. Each window's encoder is pushed onto
/// `encoders`, so what it was handed and what it returned can be read from it.
pub fn encode_song(pcm: &Vec<i16>, rate: u32, encoders: &mut Vec<AacEncoder>) -> (r: Result<
    SongChunks,
    RecodeError,
>)
    requires
        rate > 0,
    ensures
        extends(old(encoders)@, final(encoders)@),
        r matches Err(RecodeError::TooLong) <==> too_long(pcm@.len() as nat, rate as nat),
        r matches Err(e) ==> e is TooLong || e is BadFrame || e is EncodeError,
        r matches Err(RecodeError::BadFrame) ==> final(encoders)@.len() > old(encoders)@.len()
            && encoder_fault(final(encoders)@.last().log(), RecodeError::BadFrame),
        r matches Err(RecodeError::EncodeError(x)) ==> final(encoders)@.len() > old(
            encoders,
        )@.len() && encoder_fault(final(encoders)@.last().log(), RecodeError::EncodeError(x))
            || final(encoders)@.len() - old(encoders)@.len() < blocks(
            0,
            pcm@.len() as nat,
            chunk_samples(rate as nat),
        ).len(),
        r is Ok ==> ({
            let windows = blocks(0, pcm@.len() as nat, chunk_samples(rate as nat));
            let made = final(encoders)@.skip(old(encoders)@.len() as int);
            &&& r->Ok_0.duration_ms as nat == duration_ms_spec(
                pcm@.len() as nat,
                rate as nat,
                CANONICAL_CHANNELS as nat,
            )
            &&& r->Ok_0.chunks@.len() == windows.len()
            &&& made.len() == windows.len()
            &&& forall|k: int|
                0 <= k < windows.len() ==> {
                    &&& (#[trigger] made[k]).mode() == BitRateMode::VbrVeryHigh
                    &&& made[k].rate() == rate
                    &&& inputs(made[k].log()) == pcm@.subrange(windows[k].0 as int, windows[k].1 as int)
                    &&& r->Ok_0.chunks@[k]@ == concat(outputs(made[k].log()))
                }
        }),
{
    let ghost start_len = encoders@.len() as int;
    let ghost initial = encoders@;
    let wide_window = rate as u64 * 20;
    let duration = duration_ms(pcm.len() as u64, rate, CANONICAL_CHANNELS as u32);
    if wide_window > usize::MAX as u64 || duration.is_none() {
        return Err(RecodeError::TooLong);
    }
    let duration = duration.unwrap();
    assert(!too_long(pcm@.len() as nat, rate as nat));
    let window = wide_window as usize;
    let n = pcm.len();
    let windows = block_ranges(0, pcm.len(), window);
    let mut chunks: Vec<Vec<u8>> = Vec::new();
    let mut k: usize = 0;
    assert(encoders@.take(start_len) =~= initial);
    while k < windows.len()
        invariant
            windows@ == blocks(0, pcm@.len() as nat, window as nat),
            window as nat == chunk_samples(rate as nat),
            n == pcm@.len(),
            k <= windows@.len(),
            chunks@.len() == k,
            initial == old(encoders)@,
            start_len == initial.len(),
            !too_long(pcm@.len() as nat, rate as nat),
            duration as nat == duration_ms_spec(pcm@.len() as nat, rate as nat, CANONICAL_CHANNELS as nat),
            encoders@.len() == start_len + k,
            encoders@.take(start_len) == initial,
            forall|j: int|
                0 <= j < k ==> {
                    let w = windows@[j];
                    let e = #[trigger] encoders@[start_len + j];
                    &&& e.mode() == BitRateMode::VbrVeryHigh
                    &&& e.rate() == rate
                    &&& inputs(e.log()) == pcm@.subrange(w.0 as int, w.1 as int)
                    &&& chunks@[j]@ == concat(outputs(e.log()))
                },
        decreases windows@.len() - k,
    {
        let (a, b) = windows[k];
        proof { crate::recode::lemma_blocks_within(0, n as nat, window as nat, k as int); }
        let mut encoder = match open_encoder(BitRateMode::VbrVeryHigh, rate) {
            Ok(e) => e,
            Err(e) => return Err(RecodeError::EncodeError(e)),
        };
        let mut bytes: Vec<u8> = Vec::new();
        let mut skip: usize = 0;
        let res = encode_range(&mut encoder, pcm, a, b, &mut bytes, &mut skip);
        let ghost before = encoders@;
        encoders.push(encoder);
        assert(encoders@.take(start_len) =~= before.take(start_len));
        if let Err(e) = res {
            return Err(e);
        }
        proof {
            let e = encoders@[start_len + k];
            assert(e.log().skip(0) =~= e.log());
            assert(outputs(e.log()).skip(0) =~= outputs(e.log()));
            assert(bytes@ =~= concat(outputs(e.log())));
        }
        chunks.push(bytes);
        k = k + 1;
    }
    assert(encoders@.skip(start_len).len() == windows@.len());
    assert forall|k: int| 0 <= k < windows@.len() implies #[trigger] encoders@.skip(start_len)[k]
        == encoders@[start_len + k] by {}
    Ok(SongChunks { chunks, duration_ms: duration })
}

} // verus!
