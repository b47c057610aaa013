//! The bandwidth ladder recoder: one pre-encoded chunk in, one re-encoded
//! segment per ladder bitrate out, with codec state carried across the ticks
//! of one song.
use crate::codec::{
    decode_frame, decoded_frame_size, decoder_fill, encode_into, encoder_frame_length, open_decoder,
    open_encoder, stream_params, AacDecoder, AacEncoder, BitRateMode, DecodeStep, DecoderEvent,
    EncoderEvent,
};
use fdk_aac::dec::DecoderError;
use fdk_aac::enc::EncoderError;
use vstd::prelude::*;

verus! {

/// Room for the first decoded frame of a chunk, before its size is known.
pub const FIRST_FRAME_CAPACITY: usize = 4096;

/// Room for the encoded output of one block.
pub const ENCODED_BLOCK_CAPACITY: usize = 1536;

/// Why a recode failed; the station publishes nothing this tick.
pub enum RecodeError {
    /// The decoder failed.
    DecodeError(DecoderError),
    /// An encoder failed.
    EncodeError(EncoderError),
    /// The decoder reported a frame that does not fit the room given for it, an
    /// encoder reported an empty block, or the encoders do not match the ladder.
    BadFrame,
    /// The decoder stopped making progress on the input.
    Stalled,
    /// A song is too long for its length in samples or milliseconds to be held.
    TooLong,
}

/// The consecutive blocks `[start, end)` splits into, each `block` long but the
/// last, which may be shorter.
pub open spec fn blocks(start: nat, end: nat, block: nat) -> Seq<(usize, usize)>
    decreases end - start,
{
    if start >= end || block == 0 {
        Seq::empty()
    } else {
        let next = if start + block < end {
            start + block
        } else {
            end
        };
        seq![(start as usize, next as usize)] + blocks(next, end, block)
    }
}

/// Split `[start, end)` into blocks of `block` samples, the last one possibly shorter.
pub fn block_ranges(start: usize, end: usize, block: usize) -> (r: Vec<(usize, usize)>)
    requires
        block > 0,
    ensures
        r@ == blocks(start as nat, end as nat, block as nat),
{
    let mut out: Vec<(usize, usize)> = Vec::new();
    let mut pos = start;
    while pos < end
        invariant
            start <= pos,
            block > 0,
            blocks(start as nat, end as nat, block as nat) == out@ + blocks(
                pos as nat,
                end as nat,
                block as nat,
            ),
        decreases end - pos,
    {
        let next = if block < end - pos {
            pos + block
        } else {
            end
        };
        proof {
            let rest = blocks(next as nat, end as nat, block as nat);
            assert(blocks(pos as nat, end as nat, block as nat) == seq![(pos, next)] + rest);
            assert(out@ + blocks(pos as nat, end as nat, block as nat) =~= out@.push((pos, next))
                + rest);
        }
        out.push((pos, next));
        pos = next;
    }
    assert(out@ + blocks(pos as nat, end as nat, block as nat) =~= out@);
    out
}

/// Where the audible audio of a frame starts, once `counted` samples (this frame
/// included) have come out of a decoder that delays its output by `delay`
/// samples: `None` while the whole frame is still delay, otherwise the offset
/// from which the last `min(counted - delay, frame_size)` samples of the frame run.
pub open spec fn aligned_start_spec(counted: nat, frame_size: nat, delay: nat) -> Option<nat> {
    if delay > counted {
        None
    } else {
        let audible = (counted - delay) as nat;
        Some(
            if audible < frame_size {
                (frame_size - audible) as nat
            } else {
                0
            },
        )
    }
}

/// Offset of the audible audio in a decoded frame; see `aligned_start_spec`.
pub fn aligned_start(counted: u128, frame_size: usize, delay: u128) -> (r: Option<usize>)
    ensures
        r is Some <==> aligned_start_spec(counted as nat, frame_size as nat, delay as nat) is Some,
        r is Some ==> r->Some_0 as nat == aligned_start_spec(
            counted as nat,
            frame_size as nat,
            delay as nat,
        )->Some_0,
{
    if delay > counted {
        None
    } else {
        let audible = counted - delay;
        if audible < frame_size as u128 {
            Some(frame_size - audible as usize)
        } else {
            Some(0)
        }
    }
}

/// The sequences of `s`, one after the other.
pub open spec fn concat<T>(s: Seq<Seq<T>>) -> Seq<T>
    decreases s.len(),
{
    if s.len() == 0 {
        Seq::empty()
    } else {
        concat(s.drop_last()) + s.last()
    }
}

proof fn lemma_concat_push<T>(s: Seq<Seq<T>>, x: Seq<T>)
    ensures
        concat(s.push(x)) == concat(s) + x,
{
    assert(s.push(x).drop_last() =~= s);
}

/// Bytes the decoder took in over the calls `e`.
pub open spec fn taken(e: Seq<DecoderEvent>) -> Seq<u8>
    decreases e.len(),
{
    if e.len() == 0 {
        Seq::empty()
    } else {
        match e.last() {
            DecoderEvent::Fill { offered, result: Ok(n) } => taken(e.drop_last()) + offered.take(n as int),
            _ => taken(e.drop_last()),
        }
    }
}

/// The buffers of the frames decoded over the calls `e`.
pub open spec fn frames(e: Seq<DecoderEvent>) -> Seq<Seq<i16>>
    decreases e.len(),
{
    if e.len() == 0 {
        Seq::empty()
    } else {
        match e.last() {
            DecoderEvent::Decode { result: DecodeStep::Frame, pcm } => frames(e.drop_last()).push(pcm),
            _ => frames(e.drop_last()),
        }
    }
}

/// Number of decode attempts among the calls `e`.
pub open spec fn decode_calls(e: Seq<DecoderEvent>) -> nat
    decreases e.len(),
{
    if e.len() == 0 {
        0
    } else {
        match e.last() {
            DecoderEvent::Decode { .. } => decode_calls(e.drop_last()) + 1,
            _ => decode_calls(e.drop_last()),
        }
    }
}

/// The frame size last reported among the calls `e` (zero if none).
pub open spec fn frame_size_of(e: Seq<DecoderEvent>) -> nat
    decreases e.len(),
{
    if e.len() == 0 {
        0
    } else {
        match e.last() {
            DecoderEvent::FrameSize { size } => size,
            _ => frame_size_of(e.drop_last()),
        }
    }
}

/// The sample rate and output delay last reported among the calls `e`.
pub open spec fn params_of(e: Seq<DecoderEvent>) -> (u32, u32)
    decreases e.len(),
{
    if e.len() == 0 {
        (0, 0)
    } else {
        match e.last() {
            DecoderEvent::Params { rate, delay } => (rate, delay),
            _ => params_of(e.drop_last()),
        }
    }
}

/// The first `fs` samples of each buffer, one after the other.
pub open spec fn decoded_with(bufs: Seq<Seq<i16>>, fs: nat) -> Seq<i16> {
    concat(bufs.map_values(|b: Seq<i16>| b.take(fs as int)))
}

/// The samples decoded over the calls `e`: each decoded frame, cut to the
/// reported frame size.
pub open spec fn decoded(e: Seq<DecoderEvent>) -> Seq<i16> {
    decoded_with(frames(e), frame_size_of(e))
}

/// The output delay reported among the calls `e`, in samples over both channels.
pub open spec fn delay_of(e: Seq<DecoderEvent>) -> nat {
    (2 * params_of(e).1) as nat
}

/// Whether the last call in `log` failed with the decoder error `x`.
pub open spec fn decoder_fault(log: Seq<DecoderEvent>, x: DecoderError) -> bool {
    log.len() > 0 && match log.last() {
        DecoderEvent::Fill { result: Err(y), .. } => y == x,
        DecoderEvent::Decode { result: DecodeStep::Fault(y), .. } => y == x,
        _ => false,
    }
}

/// Samples handed to an encoder over the calls `l`.
pub open spec fn inputs(l: Seq<EncoderEvent>) -> Seq<i16>
    decreases l.len(),
{
    if l.len() == 0 {
        Seq::empty()
    } else {
        match l.last() {
            EncoderEvent::Encode { input, .. } => inputs(l.drop_last()) + input,
            _ => inputs(l.drop_last()),
        }
    }
}

/// The bytes each successful encode call among `l` returned.
pub open spec fn outputs(l: Seq<EncoderEvent>) -> Seq<Seq<u8>>
    decreases l.len(),
{
    if l.len() == 0 {
        Seq::empty()
    } else {
        match l.last() {
            EncoderEvent::Encode { result: Ok(b), .. } => outputs(l.drop_last()).push(b),
            _ => outputs(l.drop_last()),
        }
    }
}

/// Whether the last call in `log` ended the way `e` says: an encoder error
/// with that value, or (`BadFrame`) a frame length that blocks cannot be made of.
pub open spec fn encoder_fault(log: Seq<EncoderEvent>, e: RecodeError) -> bool {
    log.len() > 0 && match (log.last(), e) {
        (EncoderEvent::FrameLength { result: Err(x) }, RecodeError::EncodeError(y)) => x == y,
        (EncoderEvent::Encode { result: Err(x), .. }, RecodeError::EncodeError(y)) => x == y,
        (EncoderEvent::FrameLength { result: Ok(n) }, RecodeError::BadFrame) => n == 0 || n
            > 0x7FFF_FFFF,
        _ => false,
    }
}

/// Whether `after` is `before` with more calls recorded behind it.
pub open spec fn extends<T>(before: Seq<T>, after: Seq<T>) -> bool {
    after.len() >= before.len() && forall|i: int| 0 <= i < before.len() ==> after[i] == before[i]
}

/// The calls recorded in `after` since `before`; all of them for a codec
/// opened afresh.
pub open spec fn call_events<T>(before: Seq<T>, after: Seq<T>, fresh: bool) -> Seq<T> {
    if fresh {
        after
    } else {
        after.skip(before.len() as int)
    }
}

proof fn lemma_dec_push(e: Seq<DecoderEvent>, x: DecoderEvent)
    ensures
        taken(e.push(x)) == match x {
            DecoderEvent::Fill { offered, result: Ok(n) } => taken(e) + offered.take(n as int),
            _ => taken(e),
        },
        frames(e.push(x)) == match x {
            DecoderEvent::Decode { result: DecodeStep::Frame, pcm } => frames(e).push(pcm),
            _ => frames(e),
        },
        decode_calls(e.push(x)) == match x {
            DecoderEvent::Decode { .. } => decode_calls(e) + 1,
            _ => decode_calls(e),
        },
        frame_size_of(e.push(x)) == match x {
            DecoderEvent::FrameSize { size } => size,
            _ => frame_size_of(e),
        },
        params_of(e.push(x)) == match x {
            DecoderEvent::Params { rate, delay } => (rate, delay),
            _ => params_of(e),
        },
{
    assert(e.push(x).drop_last() =~= e);
}

proof fn lemma_enc_push(l: Seq<EncoderEvent>, x: EncoderEvent)
    ensures
        inputs(l.push(x)) == match x {
            EncoderEvent::Encode { input, .. } => inputs(l) + input,
            _ => inputs(l),
        },
        outputs(l.push(x)) == match x {
            EncoderEvent::Encode { result: Ok(b), .. } => outputs(l).push(b),
            _ => outputs(l),
        },
{
    assert(l.push(x).drop_last() =~= l);
}

proof fn lemma_decoder_step(d0: Seq<DecoderEvent>, before: Seq<DecoderEvent>, after: Seq<DecoderEvent>, fresh: bool)
    requires
        after.len() == before.len() + 1,
        forall|i: int| 0 <= i < before.len() ==> after[i] == before[i],
        !fresh ==> extends(d0, before),
    ensures
        !fresh ==> extends(d0, after),
        after == before.push(after.last()),
        call_events(d0, after, fresh) == call_events(d0, before, fresh).push(after.last()),
        taken(call_events(d0, after, fresh)) == match after.last() {
            DecoderEvent::Fill { offered, result: Ok(n) } => taken(call_events(d0, before, fresh))
                + offered.take(n as int),
            _ => taken(call_events(d0, before, fresh)),
        },
        frames(call_events(d0, after, fresh)) == match after.last() {
            DecoderEvent::Decode { result: DecodeStep::Frame, pcm } => frames(
                call_events(d0, before, fresh),
            ).push(pcm),
            _ => frames(call_events(d0, before, fresh)),
        },
        decode_calls(call_events(d0, after, fresh)) == match after.last() {
            DecoderEvent::Decode { .. } => decode_calls(call_events(d0, before, fresh)) + 1,
            _ => decode_calls(call_events(d0, before, fresh)),
        },
        frame_size_of(call_events(d0, after, fresh)) == match after.last() {
            DecoderEvent::FrameSize { size } => size,
            _ => frame_size_of(call_events(d0, before, fresh)),
        },
        params_of(call_events(d0, after, fresh)) == match after.last() {
            DecoderEvent::Params { rate, delay } => (rate, delay),
            _ => params_of(call_events(d0, before, fresh)),
        },
{
    assert(after =~= before.push(after.last()));
    if !fresh {
        lemma_push_since(before, after.last(), d0.len() as int);
    }
    lemma_dec_push(call_events(d0, before, fresh), after.last());
}

proof fn lemma_push_since<T>(log: Seq<T>, x: T, b: int)
    requires
        0 <= b <= log.len(),
    ensures
        log.push(x).skip(b) == log.skip(b).push(x),
        log.skip(b).push(x).drop_last() == log.skip(b),
        log.skip(b).push(x).last() == x,
        log.push(x).take(b) == log.take(b),
{
    assert(log.push(x).skip(b) =~= log.skip(b).push(x));
    assert(log.skip(b).push(x).drop_last() =~= log.skip(b));
    assert(log.push(x).take(b) =~= log.take(b));
}

proof fn lemma_decoded_push(bufs: Seq<Seq<i16>>, p: Seq<i16>, fs: nat)
    ensures
        decoded_with(bufs.push(p), fs) == decoded_with(bufs, fs) + p.take(fs as int),
{
    let f = |b: Seq<i16>| b.take(fs as int);
    assert(bufs.push(p).map_values(f) =~= bufs.map_values(f).push(p.take(fs as int)));
    lemma_concat_push(bufs.map_values(f), p.take(fs as int));
}

/// Hand `pcm[start..end]` to `encoder` in consecutive blocks of twice its frame
/// length, the last one possibly shorter. The output of the first `skip` calls
/// is dropped (priming); every later output is appended to `seg`.
pub(crate) fn encode_range(
    encoder: &mut AacEncoder,
    pcm: &Vec<i16>,
    start: usize,
    end: usize,
    seg: &mut Vec<u8>,
    skip: &mut usize,
) -> (r: Result<(), RecodeError>)
    requires
        start <= end <= pcm@.len(),
    ensures
        final(encoder).mode() == old(encoder).mode(),
        final(encoder).rate() == old(encoder).rate(),
        extends(old(encoder).log(), final(encoder).log()),
        r matches Err(e) ==> encoder_fault(final(encoder).log(), e),
        r is Ok ==> ({
            let l = final(encoder).log().skip(old(encoder).log().len() as int);
            let d = min_nat(*old(skip) as nat, outputs(l).len());
            &&& inputs(l) == pcm@.subrange(start as int, end as int)
            &&& *final(skip) == old(skip) - d
            &&& final(seg)@ == old(seg)@ + concat(outputs(l).skip(d as int))
        }),
{
    let ghost base = encoder.log().len() as int;
    let ghost log0 = encoder.log();
    let ghost skip0 = *skip as nat;
    let ghost orig = seg@;
    let fl = encoder_frame_length(encoder);
    proof {
        let x = encoder.log().last();
        lemma_push_since(log0, x, base);
        assert(log0.skip(base) =~= Seq::<EncoderEvent>::empty());
        lemma_enc_push(Seq::empty(), x);
        assert(Seq::<EncoderEvent>::empty().push(x) == encoder.log().skip(base));
        assert(inputs(Seq::<EncoderEvent>::empty()) =~= Seq::<i16>::empty());
        assert(outputs(Seq::<EncoderEvent>::empty()) =~= Seq::<Seq<u8>>::empty());
        assert(pcm@.subrange(start as int, start as int) =~= Seq::<i16>::empty());
        assert(Seq::<Seq<u8>>::empty().skip(0) =~= Seq::<Seq<u8>>::empty());
        assert(orig + concat(Seq::<Seq<u8>>::empty()) =~= orig);
    }
    let frame_length = match fl {
        Ok(n) => n,
        Err(e) => return Err(RecodeError::EncodeError(e)),
    };
    if frame_length == 0 || frame_length > 0x7FFF_FFFF {
        return Err(RecodeError::BadFrame);
    }
    let block = 2 * frame_length as usize;
    let mut buf: Vec<u8> = vec![0u8; ENCODED_BLOCK_CAPACITY];
    let mut pos = start;
    while pos < end
        invariant
            start <= pos <= end <= pcm@.len(),
            block > 0,
            buf@.len() == ENCODED_BLOCK_CAPACITY,
            orig == old(seg)@,
            skip0 == *old(skip),
            log0 == old(encoder).log(),
            base == log0.len(),
            encoder.mode() == old(encoder).mode(),
            encoder.rate() == old(encoder).rate(),
            extends(log0, encoder.log()),
            inputs(encoder.log().skip(base)) == pcm@.subrange(start as int, pos as int),
            *skip as nat + min_nat(skip0, outputs(encoder.log().skip(base)).len()) == skip0,
            seg@ == orig + concat(outputs(encoder.log().skip(base)).skip(
                min_nat(skip0, outputs(encoder.log().skip(base)).len()) as int,
            )),
        decreases end - pos,
    {
        let next = if block < end - pos {
            pos + block
        } else {
            end
        };
        let ghost l = encoder.log().skip(base);
        let ghost log1 = encoder.log();
        let res = encode_into(encoder, pcm, pos, next, &mut buf);
        proof {
            lemma_push_since(log1, encoder.log().last(), base);
            lemma_enc_push(l, encoder.log().last());
        }
        let n = match res {
            Ok(n) => n,
            Err(e) => return Err(RecodeError::EncodeError(e)),
        };
        let ghost out = buf@.take(n as int);
        let mut bytes: Vec<u8> = Vec::new();
        let mut j: usize = 0;
        while j < n
            invariant
                j <= n <= buf@.len(),
                bytes@ == buf@.subrange(0, j as int),
            decreases n - j,
        {
            bytes.push(buf[j]);
            assert(bytes@ =~= buf@.subrange(0, j as int + 1));
            j = j + 1;
        }
        assert(bytes@ =~= out);
        let ghost l2 = encoder.log().skip(base);
        proof {
            assert(l2.drop_last() == l);
            assert(outputs(l2) == outputs(l).push(out));
            assert(inputs(l2) == inputs(l) + pcm@.subrange(pos as int, next as int));
            assert(pcm@.subrange(start as int, pos as int) + pcm@.subrange(pos as int, next as int)
                =~= pcm@.subrange(start as int, next as int));
        }
        if *skip > 0 {
            *skip = *skip - 1;
            assert(outputs(l2).skip(min_nat(skip0, outputs(l2).len()) as int) =~= outputs(l).skip(
                min_nat(skip0, outputs(l).len()) as int,
            ));
        } else {
            let ghost before = seg@;
            let mut k: usize = 0;
            while k < bytes.len()
                invariant
                    k <= bytes@.len(),
                    seg@ == before + bytes@.subrange(0, k as int),
                decreases bytes@.len() - k,
            {
                seg.push(bytes[k]);
                assert(seg@ =~= before + bytes@.subrange(0, k as int + 1));
                k = k + 1;
            }
            proof {
                let d = min_nat(skip0, outputs(l).len());
                assert(outputs(l2).skip(d as int) =~= outputs(l).skip(d as int).push(out));
                lemma_concat_push(outputs(l).skip(d as int), out);
                assert(bytes@.subrange(0, bytes@.len() as int) =~= bytes@);
            }
        }
        pos = next;
    }
    Ok(())
}

pub(crate) proof fn lemma_blocks_within(start: nat, end: nat, block: nat, k: int)
    requires
        0 <= k < blocks(start, end, block).len(),
        end <= usize::MAX,
    ensures
        start <= blocks(start, end, block)[k].0 <= blocks(start, end, block)[k].1 <= end,
    decreases end - start,
{
    if start < end && block > 0 {
        let next = if start + block < end {
            start + block
        } else {
            end
        };
        let rest = blocks(next, end, block);
        assert(blocks(start, end, block) == seq![(start as usize, next as usize)] + rest);
        if k > 0 {
            lemma_blocks_within(next, end, block, k - 1);
            assert(blocks(start, end, block)[k] == rest[k - 1]);
        }
    }
}

/// The samples of `d` past the first `k`.
pub open spec fn past_delay(d: Seq<i16>, k: nat) -> Seq<i16> {
    if d.len() > k {
        d.skip(k as int)
    } else {
        Seq::empty()
    }
}

/// Feeding each frame from `aligned_start` on hands on exactly the decoded
/// stream past the delay.
pub proof fn lemma_past_delay_step(d: Seq<i16>, f: Seq<i16>, k: nat)
    ensures
        aligned_start_spec(d.len() + f.len(), f.len(), k) is None ==> past_delay(d + f, k)
            == past_delay(d, k),
        aligned_start_spec(d.len() + f.len(), f.len(), k) is Some ==> past_delay(d + f, k)
            == past_delay(d, k) + f.skip(
            aligned_start_spec(d.len() + f.len(), f.len(), k)->Some_0 as int,
        ),
{
    let n = d.len();
    let m = f.len();
    if k <= n + m {
        let start = aligned_start_spec(n + m, m, k)->Some_0;
        if n < k {
            assert(past_delay(d + f, k) =~= past_delay(d, k) + f.skip(start as int));
        } else {
            assert(start == 0);
            assert(past_delay(d + f, k) =~= past_delay(d, k) + f.skip(start as int));
        }
    } else {
        assert(past_delay(d + f, k) =~= past_delay(d, k));
    }
}

/// `min(a, b)`.
pub open spec fn min_nat(a: nat, b: nat) -> nat {
    if a < b {
        a
    } else {
        b
    }
}

/// How many decode attempts `recode` makes at most on a chunk of `len` bytes.
pub open spec fn attempt_budget(len: nat) -> nat {
    2 * len + 4
}

/// Encode calls whose output a freshly opened encoder drops: its first two,
/// which hold the encoder's start-up silence.
pub const PRIMING_BLOCKS: usize = 2;

/// The codec state of one station, carried across the ticks of one song: one
/// decoder, one encoder per ladder bitrate once a song has started, and per
/// encoder the number of outputs it still drops as priming.
pub struct StationCodec {
    decoder: AacDecoder,
    encoders: Vec<AacEncoder>,
    priming: Vec<usize>,
}

impl StationCodec {
    pub closed spec fn wf(&self) -> bool {
        self.priming@.len() == self.encoders@.len()
    }

    /// Number of encoders the station holds.
    pub closed spec fn encoder_count(&self) -> nat {
        self.encoders@.len()
    }

    /// The calls made on the decoder since it was opened.
    pub closed spec fn decoder_log(&self) -> Seq<DecoderEvent> {
        self.decoder.log()
    }

    /// The calls made on encoder `v` since it was opened.
    pub closed spec fn encoder_log(&self, v: int) -> Seq<EncoderEvent> {
        self.encoders@[v].log()
    }

    /// The bitrate mode encoder `v` was opened with.
    pub closed spec fn encoder_mode(&self, v: int) -> BitRateMode {
        self.encoders@[v].mode()
    }

    /// The sample rate encoder `v` was opened at.
    pub closed spec fn encoder_rate(&self, v: int) -> u32 {
        self.encoders@[v].rate()
    }

    /// Outputs encoder `v` still drops as priming.
    pub closed spec fn priming_left(&self, v: int) -> nat {
        self.priming@[v] as nat
    }

    /// Codec state of a station that has not played yet: a fresh decoder and no
    /// encoders, which the first song's reset creates.
    pub fn new() -> (r: Self)
        ensures
            r.wf(),
            r.encoder_count() == 0,
            r.decoder_log() == Seq::<DecoderEvent>::empty(),
    {
        StationCodec { decoder: open_decoder(), encoders: Vec::new(), priming: Vec::new() }
    }
}

/// Open one constant-bitrate encoder per ladder entry at `sample_rate`.
fn open_encoders(ladder: &Vec<u32>, sample_rate: u32) -> (r: Result<Vec<AacEncoder>, RecodeError>)
    ensures
        r is Ok ==> r->Ok_0@.len() == ladder@.len(),
        r is Ok ==> forall|v: int|
            0 <= v < ladder@.len() ==> (#[trigger] r->Ok_0@[v]).log() == Seq::<EncoderEvent>::empty()
                && r->Ok_0@[v].mode() == BitRateMode::Cbr(ladder@[v]) && r->Ok_0@[v].rate()
                == sample_rate,
        r matches Err(e) ==> e is EncodeError,
{
    let mut encoders: Vec<AacEncoder> = Vec::new();
    let mut k: usize = 0;
    while k < ladder.len()
        invariant
            k <= ladder@.len(),
            encoders@.len() == k,
            forall|v: int|
                0 <= v < k ==> (#[trigger] encoders@[v]).log() == Seq::<EncoderEvent>::empty()
                    && encoders@[v].mode() == BitRateMode::Cbr(ladder@[v]) && encoders@[v].rate()
                    == sample_rate,
        decreases ladder@.len() - k,
    {
        match open_encoder(BitRateMode::Cbr(ladder[k]), sample_rate) {
            Ok(e) => encoders.push(e),
            Err(e) => return Err(RecodeError::EncodeError(e)),
        }
        k = k + 1;
    }
    Ok(encoders)
}

/// Whether the last call in `log` reported a frame size that is zero or beyond
/// `FIRST_FRAME_CAPACITY`.
pub open spec fn bad_frame_size(log: Seq<DecoderEvent>) -> bool {
    log.len() > 0 && match log.last() {
        DecoderEvent::FrameSize { size } => size == 0 || size > FIRST_FRAME_CAPACITY,
        _ => false,
    }
}

/// Whether the last call in `log` was a fill that took nothing in.
pub open spec fn took_nothing(log: Seq<DecoderEvent>) -> bool {
    log.len() > 0 && match log.last() {
        DecoderEvent::Fill { result: Ok(n), .. } => n == 0,
        _ => false,
    }
}

/// What an encoder shows after the calls of a recode: opened afresh at the
/// ladder bitrate and the stream's rate on a reset, extended otherwise; handed
/// exactly `fed`; its kept output is the segment; and its priming count is what
/// the dropped outputs leave.
pub open spec fn encoder_ran(
    before_log: Seq<EncoderEvent>,
    after_log: Seq<EncoderEvent>,
    mode: BitRateMode,
    rate: u32,
    bitrate: u32,
    stream_rate: u32,
    fed: Seq<i16>,
    reset: bool,
    priming_before: nat,
    priming_after: nat,
    seg: Seq<u8>,
) -> bool {
    let l = call_events(before_log, after_log, reset);
    let d = min_nat(priming_before, outputs(l).len());
    &&& !reset ==> extends(before_log, after_log)
    &&& reset ==> mode == BitRateMode::Cbr(bitrate) && rate == stream_rate
    &&& inputs(l) == fed
    &&& priming_after + d == priming_before
    &&& seg == concat(outputs(l).skip(d as int))
}

/// Recode one pre-encoded chunk into one segment per ladder bitrate (bits per
/// second). With `reset` (a song boundary) the decoder is replaced first, and at
/// the first decoded frame the encoders are opened afresh at the stream's
/// sample rate, each to drop its first `PRIMING_BLOCKS` outputs. Without it,
/// the decoder and encoders go on from the previous chunk. Every decoded sample
/// past the decoder's output delay goes, in order, to every encoder.
pub fn recode(data: &Vec<u8>, codec: &mut StationCodec, ladder: &Vec<u32>, reset: bool) -> (r:
    Result<Vec<Vec<u8>>, RecodeError>)
    requires
        old(codec).wf(),
    ensures
        final(codec).wf(),
        !reset && old(codec).encoder_count() != ladder@.len() ==> r matches Err(RecodeError::BadFrame),
        !reset ==> extends(old(codec).decoder_log(), final(codec).decoder_log()),
        r is Ok ==> r->Ok_0@.len() == ladder@.len() && final(codec).encoder_count() == ladder@.len(),
        r is Ok ==> taken(call_events(old(codec).decoder_log(), final(codec).decoder_log(), reset))
            == data@,
        r is Ok ==> forall|v: int|
            0 <= v < ladder@.len() ==> encoder_ran(
                if reset { Seq::empty() } else { old(codec).encoder_log(v) },
                final(codec).encoder_log(v),
                final(codec).encoder_mode(v),
                final(codec).encoder_rate(v),
                ladder@[v],
                params_of(call_events(old(codec).decoder_log(), final(codec).decoder_log(), reset)).0, past_delay(decoded(call_events(old(codec).decoder_log(), final(codec).decoder_log(), reset)), delay_of(call_events(old(codec).decoder_log(), final(codec).decoder_log(), reset))),
                reset,
                if reset { PRIMING_BLOCKS as nat } else { old(codec).priming_left(v) },
                final(codec).priming_left(v),
                (#[trigger] r->Ok_0@[v])@,
            ),
        r matches Err(RecodeError::DecodeError(x)) ==> decoder_fault(final(codec).decoder_log(), x),
        r matches Err(RecodeError::EncodeError(x)) ==> reset || exists|v: int|
            0 <= v < final(codec).encoder_count() && encoder_fault(
                #[trigger] final(codec).encoder_log(v),
                RecodeError::EncodeError(x),
            ),
        r matches Err(RecodeError::BadFrame) ==> (!reset && old(codec).encoder_count()
            != ladder@.len()) || bad_frame_size(final(codec).decoder_log()) || (reset && frames(
            final(codec).decoder_log(),
        ).len() == 0 && taken(final(codec).decoder_log()) == data@) || exists|v: int|
            0 <= v < final(codec).encoder_count() && encoder_fault(
                #[trigger] final(codec).encoder_log(v),
                RecodeError::BadFrame,
            ),
        r matches Err(RecodeError::Stalled) ==> took_nothing(final(codec).decoder_log())
            || decode_calls(call_events(old(codec).decoder_log(), final(codec).decoder_log(), reset))
            == attempt_budget(data@.len() as nat),
{
    if reset {
        codec.decoder = open_decoder();
    } else if codec.encoders.len() != ladder.len() {
        return Err(RecodeError::BadFrame);
    }
    let ghost d0 = old(codec).decoder.log();
    let ghost old_enc = old(codec).encoders@;
    let ghost old_priming = old(codec).priming@;
    assert(call_events(d0, codec.decoder.log(), reset) =~= Seq::<DecoderEvent>::empty());
    assert(taken(Seq::<DecoderEvent>::empty()) =~= data@.subrange(0, 0));
    assert(decoded_with(Seq::<Seq<i16>>::empty(), 0) =~= Seq::<i16>::empty());
    let mut segs: Vec<Vec<u8>> = Vec::new();
    let mut k: usize = 0;
    while k < ladder.len()
        invariant
            k <= ladder@.len(),
            segs@.len() == k,
            forall|v: int| 0 <= v < k ==> (#[trigger] segs@[v])@ == Seq::<u8>::empty(),
        decreases ladder@.len() - k,
    {
        segs.push(Vec::new());
        k = k + 1;
    }
    proof {
        if !reset {
            assert forall|v: int| 0 <= v < ladder@.len() implies encoder_ran(
                old_enc[v].log(),
                codec.encoders@[v].log(),
                codec.encoders@[v].mode(),
                codec.encoders@[v].rate(),
                ladder@[v],
                params_of(call_events(d0, codec.decoder.log(), reset)).0, past_delay(decoded(call_events(d0, codec.decoder.log(), reset)), delay_of(call_events(d0, codec.decoder.log(), reset))),
                reset,
                old_priming[v] as nat,
                codec.priming@[v] as nat,
                #[trigger] segs@[v]@,
            ) by {
                let l = codec.encoders@[v].log().skip(old_enc[v].log().len() as int);
                assert(l =~= Seq::<EncoderEvent>::empty());
                assert(codec.encoders@[v].log().take(old_enc[v].log().len() as int) =~= old_enc[v].log());
            }
        }
    }
    let mut pos: usize = 0;
    let mut first = true;
    let mut frame_size: usize = 0;
    let mut delay: u128 = 0;
    let mut counted: u128 = 0;
    let budget: u128 = 2 * data.len() as u128 + 4;
    let mut attempts: u128 = 0;
    while attempts < budget
        invariant
            pos <= data@.len(),
            attempts <= budget,
            budget == attempt_budget(data@.len() as nat),
            budget <= 2 * (usize::MAX as u128) + 4,
            d0 == old(codec).decoder.log(),
            old_enc == old(codec).encoders@,
            old_priming == old(codec).priming@,
            !reset ==> extends(d0, codec.decoder.log()),
            taken(call_events(d0, codec.decoder.log(), reset)) == data@.subrange(0, pos as int),
            decode_calls(call_events(d0, codec.decoder.log(), reset)) == attempts,
            counted == decoded(call_events(d0, codec.decoder.log(), reset)).len(),
            counted <= attempts * 4096,
            first ==> frames(call_events(d0, codec.decoder.log(), reset)).len() == 0,
            !first ==> frame_size_of(call_events(d0, codec.decoder.log(), reset)) == frame_size,
            !first ==> delay == delay_of(call_events(d0, codec.decoder.log(), reset)),
            !first ==> 0 < frame_size <= FIRST_FRAME_CAPACITY,
            segs@.len() == ladder@.len(),
            codec.priming@.len() == codec.encoders@.len(),
            !reset ==> old_enc.len() == ladder@.len() && old_priming.len() == ladder@.len(),
            !first || !reset ==> codec.encoders@.len() == ladder@.len(),
            first && reset ==> forall|v: int| 0 <= v < ladder@.len() ==> (#[trigger] segs@[v])@ == Seq::<u8>::empty(),
            !first || !reset ==> forall|v: int|
                0 <= v < ladder@.len() ==> encoder_ran(
                    if reset { Seq::empty() } else { old_enc[v].log() },
                    codec.encoders@[v].log(),
                    codec.encoders@[v].mode(),
                    codec.encoders@[v].rate(),
                    ladder@[v],
                    params_of(call_events(d0, codec.decoder.log(), reset)).0, past_delay(decoded(call_events(d0, codec.decoder.log(), reset)), delay_of(call_events(d0, codec.decoder.log(), reset))),
                    reset,
                    if reset { PRIMING_BLOCKS as nat } else { old_priming[v] as nat },
                    codec.priming@[v] as nat,
                    #[trigger] segs@[v]@,
                ),
        decreases budget - attempts,
    {
        attempts = attempts + 1;
        let capacity = if first {
            FIRST_FRAME_CAPACITY
        } else {
            frame_size
        };
        let mut pcm: Vec<i16> = vec![0i16; capacity];
        let ghost lg0 = codec.decoder.log();
        let ghost e_before = call_events(d0, lg0, reset);
        let step = decode_frame(&mut codec.decoder, &mut pcm);
        proof { lemma_decoder_step(d0, lg0, codec.decoder.log(), reset); }
        match step {
            DecodeStep::NeedInput => {
                if pos == data.len() {
                    if first && reset {
                        return Err(RecodeError::BadFrame);
                    }
                    assert(data@.subrange(0, pos as int) =~= data@);
                    return Ok(segs);
                }
                let ghost lg1 = codec.decoder.log();
                let filled = decoder_fill(&mut codec.decoder, data, pos);
                proof { lemma_decoder_step(d0, lg1, codec.decoder.log(), reset); }
                let n = match filled {
                    Ok(n) => n,
                    Err(e) => return Err(RecodeError::DecodeError(e)),
                };
                if n == 0 {
                    return Err(RecodeError::Stalled);
                }
                proof {
                    assert(data@.subrange(pos as int, data@.len() as int).take(n as int) =~= data@.subrange(pos as int, pos + n));
                    assert(data@.subrange(0, pos as int) + data@.subrange(pos as int, pos + n)
                        =~= data@.subrange(0, pos + n));
                }
                pos = pos + n;
            },
            DecodeStep::Fault(e) => {
                return Err(RecodeError::DecodeError(e));
            },
            DecodeStep::Frame => {
                if first {
                    let ghost lg2 = codec.decoder.log();
                    frame_size = decoded_frame_size(&mut codec.decoder);
                    proof { lemma_decoder_step(d0, lg2, codec.decoder.log(), reset); }
                    if frame_size == 0 || frame_size > FIRST_FRAME_CAPACITY {
                        return Err(RecodeError::BadFrame);
                    }
                    let ghost lg3 = codec.decoder.log();
                    let (rate, output_delay) = stream_params(&mut codec.decoder);
                    proof { lemma_decoder_step(d0, lg3, codec.decoder.log(), reset); }
                    delay = 2 * output_delay as u128;
                    if reset {
                        codec.encoders = match open_encoders(ladder, rate) {
                            Ok(e) => e,
                            Err(e) => return Err(e),
                        };
                        codec.priming = vec![PRIMING_BLOCKS; ladder.len()];
                    }
                    first = false;
                    let ghost e_now = call_events(d0, codec.decoder.log(), reset);
                    proof {
                        let e2 = e_now;
                        assert(frames(e2) == seq![pcm@]);
                        assert(seq![pcm@] =~= Seq::<Seq<i16>>::empty().push(pcm@));
                        lemma_decoded_push(Seq::empty(), pcm@, frame_size as nat);
                        assert(decoded_with(Seq::empty(), frame_size as nat) =~= Seq::<i16>::empty());
                        assert(decoded(e_before) =~= Seq::<i16>::empty());
                        assert(past_delay(Seq::<i16>::empty(), delay as nat) =~= Seq::<i16>::empty());
                        if reset {
                            assert forall|v: int| 0 <= v < ladder@.len() implies encoder_ran(
                                Seq::empty(),
                                codec.encoders@[v].log(),
                                codec.encoders@[v].mode(),
                                codec.encoders@[v].rate(),
                                ladder@[v],
                                params_of(e_now).0, Seq::<i16>::empty(),
                                reset,
                                PRIMING_BLOCKS as nat,
                                codec.priming@[v] as nat,
                                #[trigger] segs@[v]@,
                            ) by {
                                assert(codec.encoders@[v].log() =~= Seq::<EncoderEvent>::empty());
                            }
                        }
                    }
                } else {
                    proof { lemma_decoded_push(frames(e_before), pcm@, frame_size as nat); }
                }
                let ghost e3 = call_events(d0, codec.decoder.log(), reset);
                let ghost dec_before = decoded_with(frames(e_before), frame_size as nat);
                let ghost frame = pcm@.take(frame_size as int);
                proof {
                    assert(frames(e3) == frames(e_before).push(pcm@));
                    assert(frame_size_of(e3) == frame_size);
                    lemma_decoded_push(frames(e_before), pcm@, frame_size as nat);
                    assert(decoded(e3) == dec_before + frame);
                    lemma_past_delay_step(dec_before, frame, delay as nat);
                }
                counted = counted + frame_size as u128;
                if let Some(start) = aligned_start(counted, frame_size, delay) {
                    assert(frame.skip(start as int) =~= pcm@.subrange(start as int, frame_size as int));
                    let mut i: usize = 0;
                    while i < ladder.len()
                        invariant
                            i <= ladder@.len(),
                            segs@.len() == ladder@.len(),
                            codec.encoders@.len() == ladder@.len(),
                            codec.priming@.len() == ladder@.len(),
                            start <= frame_size <= pcm@.len(),
                            call_events(d0, codec.decoder.log(), reset) == e3,
                            d0 == old(codec).decoder.log(),
                            old_enc == old(codec).encoders@,
                            old_priming == old(codec).priming@,
                            !reset ==> extends(d0, codec.decoder.log()),
                            !reset ==> old_enc.len() == ladder@.len() && old_priming.len() == ladder@.len(),
                            past_delay(decoded(e3), delay as nat) == past_delay(dec_before, delay as nat)
                                + pcm@.subrange(start as int, frame_size as int),
                            forall|v: int|
                                i <= v < ladder@.len() ==> encoder_ran(
                                    if reset { Seq::empty() } else { old_enc[v].log() },
                                    codec.encoders@[v].log(),
                                    codec.encoders@[v].mode(),
                                    codec.encoders@[v].rate(),
                                    ladder@[v],
                                    params_of(e3).0, past_delay(dec_before, delay as nat),
                                    reset,
                                    if reset { PRIMING_BLOCKS as nat } else { old_priming[v] as nat },
                                    codec.priming@[v] as nat,
                                    #[trigger] segs@[v]@,
                                ),
                            forall|v: int|
                                0 <= v < i ==> encoder_ran(
                                    if reset { Seq::empty() } else { old_enc[v].log() },
                                    codec.encoders@[v].log(),
                                    codec.encoders@[v].mode(),
                                    codec.encoders@[v].rate(),
                                    ladder@[v],
                                    params_of(e3).0, past_delay(decoded(e3), delay as nat),
                                    reset,
                                    if reset { PRIMING_BLOCKS as nat } else { old_priming[v] as nat },
                                    codec.priming@[v] as nat,
                                    #[trigger] segs@[v]@,
                                ),
                        decreases ladder@.len() - i,
                    {
                        let ghost enc_before = codec.encoders@[i as int];
                        let ghost seg_before = segs@[i as int]@;
                        let ghost pr_before = codec.priming@[i as int];
                        let mut skip = codec.priming[i];
                        let res = encode_range(
                            &mut codec.encoders[i],
                            &pcm,
                            start,
                            frame_size,
                            &mut segs[i],
                            &mut skip,
                        );
                        if let Err(e) = res {
                            assert(encoder_fault(codec.encoder_log(i as int), e));
                            return Err(e);
                        }
                        codec.priming.set(i, skip);
                        proof {
                            let v = i as int;
                            let b = if reset { Seq::<EncoderEvent>::empty() } else { old_enc[v].log() };
                            let lb = enc_before.log();
                            let la = codec.encoders@[v].log();
                            let l_old = call_events(b, lb, reset);
                            let l_new = call_events(b, la, reset);
                            let run = la.skip(lb.len() as int);
                            assert(la =~= lb + run);
                            assert(l_new =~= l_old + run) by {
                                if !reset {
                                    assert(la.skip(b.len() as int) =~= lb.skip(b.len() as int) + run);
                                }
                            };
                            lemma_inputs_outputs_concat(l_old, run);
                            let before = if reset { PRIMING_BLOCKS as nat } else { old_priming[v] as nat };
                            let d_old = min_nat(before, outputs(l_old).len());
                            let d_run = min_nat(pr_before as nat, outputs(run).len());
                            lemma_kept_concat(outputs(l_old), outputs(run), before, pr_before as nat);
                            if !reset {
                                assert(la.take(b.len() as int) =~= lb.take(b.len() as int));
                            }
                        }
                        i = i + 1;
                    }
                } else {
                    proof {
                        assert(past_delay(decoded(e3), delay as nat) == past_delay(dec_before, delay as nat));
                    }
                }
            },
        }
    }
    Err(RecodeError::Stalled)
}

proof fn lemma_inputs_outputs_concat(a: Seq<EncoderEvent>, b: Seq<EncoderEvent>)
    ensures
        inputs(a + b) == inputs(a) + inputs(b),
        outputs(a + b) == outputs(a) + outputs(b),
    decreases b.len(),
{
    if b.len() == 0 {
        assert(a + b =~= a);
        assert(inputs(a) + inputs(b) =~= inputs(a));
        assert(outputs(a) + outputs(b) =~= outputs(a));
    } else {
        lemma_inputs_outputs_concat(a, b.drop_last());
        assert((a + b).drop_last() =~= a + b.drop_last());
        assert(inputs(a + b.drop_last()) + match b.last() {
            EncoderEvent::Encode { input, .. } => input,
            _ => Seq::empty(),
        } =~= inputs(a) + inputs(b));
        assert(outputs(a + b) =~= outputs(a) + outputs(b));
    }
}

/// Dropping the first `before` outputs of `x` and then the first `p` of `y`,
/// where `p` is what is left of `before`, keeps the same as dropping the first
/// `before` of `x + y`.
proof fn lemma_kept_concat(x: Seq<Seq<u8>>, y: Seq<Seq<u8>>, before: nat, p: nat)
    requires
        p + min_nat(before, x.len()) == before,
    ensures
        concat((x + y).skip(min_nat(before, (x + y).len()) as int)) == concat(x.skip(
            min_nat(before, x.len()) as int,
        )) + concat(y.skip(min_nat(p, y.len()) as int)),
        min_nat(before, (x + y).len()) == min_nat(before, x.len()) + min_nat(p, y.len()),
{
    let dx = min_nat(before, x.len());
    let dy = min_nat(p, y.len());
    if p > 0 {
        assert(dx == x.len());
        assert((x + y).skip((dx + dy) as int) =~= y.skip(dy as int));
        assert(x.skip(dx as int) =~= Seq::<Seq<u8>>::empty());
        assert(concat(Seq::<Seq<u8>>::empty()) =~= Seq::<u8>::empty());
        assert(concat(x.skip(dx as int)) + concat(y.skip(dy as int)) =~= concat(y.skip(dy as int)));
    } else {
        assert(dy == 0);
        assert((x + y).skip(dx as int) =~= x.skip(dx as int) + y);
        assert(y.skip(0) =~= y);
        lemma_concat_append(x.skip(dx as int), y);
    }
}

proof fn lemma_concat_append(a: Seq<Seq<u8>>, b: Seq<Seq<u8>>)
    ensures
        concat(a + b) == concat(a) + concat(b),
    decreases b.len(),
{
    if b.len() == 0 {
        assert(a + b =~= a);
        assert(concat(a) + concat(b) =~= concat(a));
    } else {
        lemma_concat_append(a, b.drop_last());
        assert((a + b).drop_last() =~= a + b.drop_last());
        assert(concat(a + b) =~= concat(a) + concat(b));
    }
}

} // verus!
