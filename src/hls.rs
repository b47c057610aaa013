//! Segment history per bitrate variant, and the manifests that describe it.
use crate::tag::{segment_tag, tag_for, TAG_LEN};
use crate::text::{decimal, push_decimal};
use vstd::prelude::*;
use vstd::set_lib::{lemma_int_range, set_int_range};

verus! {

/// One re-encoded output unit for one bitrate variant at one schedule tick.
pub struct Segment {
    raw: Vec<u8>,
}

impl View for Segment {
    type V = Seq<u8>;

    closed spec fn view(&self) -> Seq<u8> {
        self.raw@
    }
}

impl Segment {
    /// A copy of the encoded bytes.
    pub fn get_raw(&self) -> (r: Vec<u8>)
        ensures
            r@ == self@,
    {
        self.raw.clone()
    }

    pub fn new(raw: Vec<u8>) -> (s: Self)
        ensures
            s@ == raw@,
    {
        Segment { raw }
    }
}

/// What a media playlist holds: how many segments have been published (the
/// newest has logical index `count - 1`), and the retained segments from
/// oldest to newest.
pub struct WindowModel {
    pub count: nat,
    pub window: Seq<Seq<u8>>,
}

/// Number of segments a ring buffer of capacity `cap` holds after `count`
/// publications: `min(count, cap)`.
pub open spec fn live_count(count: nat, cap: nat) -> nat {
    if count < cap {
        count
    } else {
        cap
    }
}

/// The oldest logical index still retained.
pub open spec fn oldest_retained(count: nat, cap: nat) -> nat {
    (count - live_count(count, cap)) as nat
}

/// Whether logical index `i` is still held after `count` publications.
pub open spec fn is_retained(count: nat, cap: nat, i: int) -> bool {
    oldest_retained(count, cap) <= i < count
}

/// The model after one more segment is published into a buffer of capacity `cap`.
pub open spec fn pushed(m: WindowModel, seg: Seq<u8>, cap: nat) -> WindowModel {
    WindowModel {
        count: m.count + 1,
        window: if m.window.len() < cap {
            m.window.push(seg)
        } else {
            m.window.drop_first().push(seg)
        },
    }
}

/// The bytes stored for retained logical index `i`.
pub open spec fn stored(m: WindowModel, i: int) -> Seq<u8> {
    m.window[i - (m.count - m.window.len())]
}

/// The model holds exactly as many segments as its publication count allows.
pub open spec fn model_wf(m: WindowModel, cap: nat) -> bool {
    m.window.len() == live_count(m.count, cap)
}

/// The model after publishing each of `segs` in turn.
pub open spec fn published(m: WindowModel, segs: Seq<Seq<u8>>, cap: nat) -> WindowModel
    decreases segs.len(),
{
    if segs.len() == 0 {
        m
    } else {
        pushed(published(m, segs.drop_last(), cap), segs.last(), cap)
    }
}

/// The model of a freshly created buffer: nothing published, nothing held.
pub open spec fn fresh() -> WindowModel {
    WindowModel { count: 0, window: Seq::empty() }
}

/// Publishing keeps the model well formed, makes the new segment the newest,
/// and leaves every other retained segment as it was.
pub proof fn lemma_push_keeps_published_bytes(m: WindowModel, seg: Seq<u8>, cap: nat, i: int)
    requires
        1 <= cap,
        model_wf(m, cap),
    ensures
        model_wf(pushed(m, seg, cap), cap),
        stored(pushed(m, seg, cap), m.count as int) == seg,
        is_retained(pushed(m, seg, cap).count, cap, i) && i < m.count ==> is_retained(
            m.count,
            cap,
            i,
        ) && stored(pushed(m, seg, cap), i) == stored(m, i),
{
}

/// Stripping the tag block from a served segment gives back the stored bytes.
pub proof fn lemma_strip_tag(i: nat, bytes: Seq<u8>)
    ensures
        (segment_tag(i) + bytes).subrange(segment_tag(i).len() as int, (segment_tag(i)
            + bytes).len() as int) == bytes,
{
    assert((segment_tag(i) + bytes).subrange(segment_tag(i).len() as int, (segment_tag(i)
        + bytes).len() as int) =~= bytes);
}

/// A segment served right after it was published is its tag block followed by
/// exactly the published bytes: stripping the tag gives them back.
pub proof fn lemma_served_tail_is_published(m: WindowModel, seg: Seq<u8>, cap: nat)
    requires
        1 <= cap,
        model_wf(m, cap),
    ensures
        ({
            let i = m.count;
            let served = segment_tag(i) + stored(pushed(m, seg, cap), i as int);
            served.subrange(segment_tag(i).len() as int, served.len() as int) == seg
        }),
{
    lemma_push_keeps_published_bytes(m, seg, cap, m.count as int);
    lemma_strip_tag(m.count, seg);
}

/// After `k` publications into a fresh buffer of capacity `cap`, the newest index
/// is `k - 1` and the buffer retains exactly the segments with indices
/// `max(0, k - cap)..=k - 1`, each with the bytes published for it.
pub proof fn lemma_publish_sequence(segs: Seq<Seq<u8>>, cap: nat)
    requires
        1 <= cap,
    ensures
        published(fresh(), segs, cap).count == segs.len(),
        model_wf(published(fresh(), segs, cap), cap),
        published(fresh(), segs, cap).window == segs.subrange(
            oldest_retained(segs.len(), cap) as int,
            segs.len() as int,
        ),
        forall|i: int|
            is_retained(segs.len(), cap, i) ==> #[trigger] stored(published(fresh(), segs, cap), i)
                == segs[i],
    decreases segs.len(),
{
    let k = segs.len();
    let m = published(fresh(), segs, cap);
    if k == 0 {
        assert(segs.subrange(0, 0) =~= Seq::<Seq<u8>>::empty());
    } else {
        let prev = segs.drop_last();
        lemma_publish_sequence(prev, cap);
        assert(m.window =~= segs.subrange(oldest_retained(k, cap) as int, k as int));
    }
}

/// Physical slot of the segment `back` places behind the cursor.
pub open spec fn slot_of(cursor: int, back: int, cap: int) -> int {
    if cursor >= back {
        cursor - back
    } else {
        cursor + cap - back
    }
}

/// First logical index a media manifest lists: `max(0, current - cap + 2)`.
pub open spec fn media_start(current: nat, cap: nat) -> nat {
    if current + 2 > cap {
        (current + 2 - cap) as nat
    } else {
        0
    }
}

/// Manifest lines of one segment.
pub open spec fn entry_text(i: nat) -> Seq<char> {
    "#EXTINF:10.000,\n"@ + decimal(i) + ".mp3"@
}

/// Manifest lines of segments `lo..=hi`, separated by line breaks.
pub open spec fn entries_text(lo: nat, hi: nat) -> Seq<char>
    decreases hi,
{
    if hi <= lo {
        entry_text(lo)
    } else {
        entries_text(lo, (hi - 1) as nat) + "\n"@ + entry_text(hi)
    }
}

/// Header of a media manifest whose first segment is `start`.
pub open spec fn media_header(start: nat) -> Seq<char> {
    "#EXTM3U\n#EXT-X-VERSION:3\n#EXT-X-TARGETDURATION:10\n#EXT-X-MEDIA-SEQUENCE:"@ + decimal(start)
        + "\n"@
}

/// The media manifest of a buffer of capacity `cap` after `count` publications;
/// before the first one it lists no segment.
pub open spec fn media_text(count: nat, cap: nat) -> Seq<char> {
    if count == 0 {
        media_header(0)
    } else {
        let current = (count - 1) as nat;
        let start = media_start(current, cap);
        media_header(start) + entries_text(start, current)
    }
}

/// Seconds until a served segment expires: ten per segment it lies behind the
/// newest; `None` for a segment that is not published yet, or where the count
/// does not fit in 64 bits.
pub fn expiry_seconds(current: usize, requested: usize) -> (r: Option<u64>)
    ensures
        r is Some <==> requested <= current && 10 * (current - requested) <= u64::MAX,
        r is Some ==> r->Some_0 as int == 10 * (current - requested),
{
    if requested > current {
        None
    } else {
        let behind = (current - requested) as u64;
        if behind > 0xFFFF_FFFF_FFFF_FFFF / 10 {
            None
        } else {
            Some(behind * 10)
        }
    }
}

/// A fixed-capacity ring buffer of the segments of one bitrate variant.
pub struct MediaPlaylist<const S: usize> {
    current_index: usize,
    count: usize,
    segments: Vec<Segment>,
}

impl<const S: usize> MediaPlaylist<S> {
    /// The buffer is well formed: capacity at least two, one slot per segment,
    /// and a cursor inside the buffer.
    pub closed spec fn wf(&self) -> bool {
        &&& 2 <= S
        &&& self.segments@.len() == S
        &&& self.current_index < S
    }

    /// The publication count and the retained segments, oldest first.
    pub closed spec fn model(&self) -> WindowModel {
        let len = live_count(self.count as nat, S as nat);
        WindowModel {
            count: self.count as nat,
            window: Seq::new(
                len,
                |j: int| self.segments@[slot_of(self.current_index as int, len - 1 - j, S as int)]@,
            ),
        }
    }

    /// The buffer holds `min(count, S)` segments, never more than `S`, and the
    /// retained logical indices are exactly `max(0, count - S)..count`.
    pub proof fn lemma_window_size(&self)
        requires
            self.wf(),
        ensures
            model_wf(self.model(), S as nat),
            self.model().window.len() <= S,
            Set::new(|i: int| is_retained(self.model().count, S as nat, i)) == set_int_range(
                oldest_retained(self.model().count, S as nat) as int,
                self.model().count as int,
            ),
            Set::new(|i: int| is_retained(self.model().count, S as nat, i)).len()
                == self.model().window.len(),
    {
        let c = self.model().count;
        let lo = oldest_retained(c, S as nat) as int;
        lemma_int_range(lo, c as int);
        assert(Set::new(|i: int| is_retained(c, S as nat, i)) =~= set_int_range(lo, c as int));
    }

    /// Create an empty buffer over `S` slots; the segments given only fill the
    /// slots and are never served.
    pub fn new(segments: Vec<Segment>) -> (r: Self)
        requires
            2 <= S,
            segments@.len() == S,
        ensures
            r.wf(),
            r.model() == fresh(),
    {
        let r = MediaPlaylist { current_index: S - 1, count: 0, segments };
        assert(r.model().window =~= Seq::<Seq<u8>>::empty());
        r
    }

    /// Add a segment, dropping the oldest once the buffer is full.
    pub fn add_segment(&mut self, segment: Segment)
        requires
            old(self).wf(),
            old(self).model().count < usize::MAX,
        ensures
            final(self).wf(),
            final(self).model() == pushed(old(self).model(), segment@, S as nat),
    {
        let ghost old_model = self.model();
        let ghost seg = segment@;
        let i: usize = if self.current_index < S - 1 {
            self.current_index + 1
        } else {
            0
        };
        self.current_index = i;
        self.count = self.count + 1;
        self.segments.set(i, segment);
        proof {
            let new_model = self.model();
            let expected = pushed(old_model, seg, S as nat);
            assert(new_model.window =~= expected.window);
        }
    }

    /// Number of segments published so far.
    pub fn published(&self) -> (r: usize)
        ensures
            r == self.model().count,
    {
        self.count
    }

    /// The stored bytes of retained logical segment `i`, preceded by its
    /// `TAG_LEN`-byte timing tag; `None` when `i` has aged out of the buffer
    /// or is not published yet.
    pub fn get_segment_raw(&self, i: usize) -> (r: Option<Vec<u8>>)
        requires
            self.wf(),
        ensures
            r is Some <==> is_retained(self.model().count, S as nat, i as int),
            r is Some ==> r->Some_0@ == segment_tag(i as nat) + stored(self.model(), i as int),
            r is Some ==> r->Some_0@.len() == TAG_LEN + stored(self.model(), i as int).len(),
            r is Some ==> r->Some_0@.subrange(TAG_LEN as int, r->Some_0@.len() as int) == stored(
                self.model(),
                i as int,
            ),
    {
        if i >= self.count {
            return None;
        }
        let back = self.count - 1 - i;
        if back >= S {
            return None;
        }
        let slot = if self.current_index >= back {
            self.current_index - back
        } else {
            S - back + self.current_index
        };
        let mut seg = self.segments[slot].get_raw();
        let ghost bytes = seg@;
        let mut out = tag_for(i);
        out.append(&mut seg);
        assert(out@.subrange(TAG_LEN as int, out@.len() as int) =~= bytes);
        Some(out)
    }

    /// The media manifest listing the segments of the current window.
    pub fn format(&self) -> (r: String)
        requires
            self.wf(),
        ensures
            r@ == media_text(self.model().count, S as nat),
    {
        let mut out = String::from_str(
            "#EXTM3U\n#EXT-X-VERSION:3\n#EXT-X-TARGETDURATION:10\n#EXT-X-MEDIA-SEQUENCE:",
        );
        if self.count == 0 {
            push_decimal(&mut out, 0);
            out.append("\n");
            return out;
        }
        let current = self.count - 1;
        let start = current.saturating_sub(S - 2);
        push_decimal(&mut out, start as u64);
        out.append("\n");
        let ghost header = out@;
        out.append("#EXTINF:10.000,\n");
        push_decimal(&mut out, start as u64);
        out.append(".mp3");
        let mut i = start;
        while i < current
            invariant
                start <= i <= current,
                out@ == header + entries_text(start as nat, i as nat),
            decreases current - i,
        {
            i = i + 1;
            out.append("\n#EXTINF:10.000,\n");
            push_decimal(&mut out, i as u64);
            out.append(".mp3");
            proof {
                reveal_strlit("\n#EXTINF:10.000,\n");
                reveal_strlit("\n");
                reveal_strlit("#EXTINF:10.000,\n");
                assert(out@ =~= header + entries_text(start as nat, i as nat));
            }
        }
        out
    }
}

/// The alternative that the master manifest lists for bitrate `b`.
pub open spec fn variant_text(base: Seq<char>, b: nat) -> Seq<char> {
    "#EXT-X-MEDIA:TYPE=AUDIO,GROUP-ID=\""@ + decimal(b) + "\",NAME=\""@ + decimal(b)
        + "\",AUTOSELECT=YES,DEFAULT=YES,AUTOSELECT=YES\n#EXT-X-STREAM-INF:BANDWIDTH="@ + decimal(b)
        + ",CODECS=\"mp3\"\n"@ + base + decimal(b) + "/playlist.m3u8"@
}

/// The alternatives for the bitrates `bs`, separated by line breaks.
pub open spec fn variants_text(base: Seq<char>, bs: Seq<usize>) -> Seq<char>
    decreases bs.len(),
{
    if bs.len() == 0 {
        Seq::empty()
    } else if bs.len() == 1 {
        variant_text(base, bs[0] as nat)
    } else {
        variants_text(base, bs.drop_last()) + "\n"@ + variant_text(base, bs.last() as nat)
    }
}

/// The master manifest for the bitrates `bs`, with media manifests under `base`.
pub open spec fn master_text(base: Seq<char>, bs: Seq<usize>) -> Seq<char> {
    "#EXTM3U\n"@ + variants_text(base, bs)
}

fn push_variant(out: &mut String, base: &str, b: usize)
    ensures
        final(out)@ == old(out)@ + variant_text(base@, b as nat),
{
    let ghost start = out@;
    out.append("#EXT-X-MEDIA:TYPE=AUDIO,GROUP-ID=\"");
    push_decimal(out, b as u64);
    out.append("\",NAME=\"");
    push_decimal(out, b as u64);
    out.append("\",AUTOSELECT=YES,DEFAULT=YES,AUTOSELECT=YES\n#EXT-X-STREAM-INF:BANDWIDTH=");
    push_decimal(out, b as u64);
    out.append(",CODECS=\"mp3\"\n");
    out.append(base);
    push_decimal(out, b as u64);
    out.append("/playlist.m3u8");
    assert(out@ =~= start + variant_text(base@, b as nat));
}

/// The media playlists of one station, one per bitrate of the ladder, that
/// advance in lock-step.
pub struct MasterPlaylist<const P: usize, const S: usize> {
    playlists: Vec<MediaPlaylist<S>>,
}

impl<const P: usize, const S: usize> MasterPlaylist<P, S> {
    /// One well-formed buffer per bitrate, all with the same publication count.
    pub closed spec fn wf(&self) -> bool {
        &&& 1 <= P
        &&& 2 <= S
        &&& self.playlists@.len() == P
        &&& forall|k: int| 0 <= k < P ==> #[trigger] self.playlists@[k].wf()
        &&& forall|k: int|
            0 <= k < P ==> #[trigger] self.playlists@[k].model().count
                == self.playlists@[0].model().count
    }

    /// The model of each variant's buffer, in ladder order.
    pub closed spec fn models(&self) -> Seq<WindowModel> {
        self.playlists@.map_values(|p: MediaPlaylist<S>| p.model())
    }

    /// Every variant's buffer holds `min(count, S)` segments, never more than
    /// `S`, and all variants have seen the same number of publications.
    pub proof fn lemma_lock_step(&self)
        requires
            self.wf(),
        ensures
            1 <= P,
            2 <= S,
            self.models().len() == P,
            forall|k: int|
                0 <= k < P ==> model_wf(#[trigger] self.models()[k], S as nat)
                    && self.models()[k].window.len() <= S && self.models()[k].count
                    == self.models()[0].count,
    {
        assert forall|k: int| 0 <= k < P implies model_wf(#[trigger] self.models()[k], S as nat)
            && self.models()[k].window.len() <= S && self.models()[k].count
            == self.models()[0].count by {
            self.playlists@[k].lemma_window_size();
        }
    }

    /// Create a master playlist from one media playlist per bitrate, all with
    /// the same publication count.
    pub fn new(playlists: Vec<MediaPlaylist<S>>) -> (r: Self)
        requires
            1 <= P,
            2 <= S,
            playlists@.len() == P,
            forall|k: int| 0 <= k < P ==> #[trigger] playlists@[k].wf(),
            forall|k: int|
                0 <= k < P ==> #[trigger] playlists@[k].model().count
                    == playlists@[0].model().count,
        ensures
            r.wf(),
            r.models() == playlists@.map_values(|p: MediaPlaylist<S>| p.model()),
    {
        MasterPlaylist { playlists }
    }

    /// An empty master playlist: `P` empty buffers, each over `S` slots that
    /// hold `filler` until they are published into.
    pub fn empty(filler: &Vec<u8>) -> (r: Self)
        requires
            1 <= P,
            2 <= S,
        ensures
            r.wf(),
            r.models().len() == P,
            forall|k: int| 0 <= k < P ==> #[trigger] r.models()[k] == fresh(),
    {
        let mut playlists: Vec<MediaPlaylist<S>> = Vec::new();
        let mut k: usize = 0;
        while k < P
            invariant
                k <= P,
                2 <= S,
                playlists@.len() == k,
                forall|j: int| 0 <= j < k ==> #[trigger] playlists@[j].wf(),
                forall|j: int| 0 <= j < k ==> #[trigger] playlists@[j].model() == fresh(),
            decreases P - k,
        {
            let mut slots: Vec<Segment> = Vec::new();
            let mut j: usize = 0;
            while j < S
                invariant
                    j <= S,
                    slots@.len() == j,
                decreases S - j,
            {
                slots.push(Segment::new(filler.clone()));
                j = j + 1;
            }
            playlists.push(MediaPlaylist::new(slots));
            k = k + 1;
        }
        let r = MasterPlaylist { playlists };
        assert(r.models().len() == P);
        r
    }

    /// Add one segment to each media playlist, the `k`-th segment to the `k`-th bitrate.
    pub fn add_segments(&mut self, segments: Vec<Segment>)
        requires
            old(self).wf(),
            segments@.len() == P,
            old(self).models()[0].count < usize::MAX,
        ensures
            final(self).wf(),
            final(self).models().len() == P,
            forall|k: int|
                0 <= k < P ==> #[trigger] final(self).models()[k] == pushed(
                    old(self).models()[k],
                    segments@[k]@,
                    S as nat,
                ),
    {
        let ghost old_models = self.models();
        let ghost old_segs = segments@;
        let ghost cnt = self.playlists@[0].model().count;
        let mut segments = segments;
        let mut k: usize = P;
        while k > 0
            invariant
                0 <= k <= P,
                P == old_segs.len(),
                segments@ == old_segs.take(k as int),
                self.playlists@.len() == P,
                old_models.len() == P,
                forall|j: int| 0 <= j < P ==> #[trigger] self.playlists@[j].wf(),
                forall|j: int| 0 <= j < k ==> #[trigger] self.playlists@[j].model() == old_models[j],
                forall|j: int|
                    k <= j < P ==> #[trigger] self.playlists@[j].model() == pushed(
                        old_models[j],
                        old_segs[j]@,
                        S as nat,
                    ),
                forall|j: int| 0 <= j < P ==> #[trigger] old_models[j].count == cnt,
                cnt < usize::MAX,
            decreases k,
        {
            let seg = segments.pop().unwrap();
            k = k - 1;
            assert(seg == old_segs[k as int]);
            assert(segments@ =~= old_segs.take(k as int));
            self.playlists[k].add_segment(seg);
        }
        assert(self.models().len() == P);
        assert forall|k: int| 0 <= k < P implies #[trigger] self.playlists@[k].model().count
            == self.playlists@[0].model().count by {}
    }

    /// The master manifest: one alternative per bitrate, pointing at its media
    /// manifest under `base_path`.
    pub fn format_master(&self, base_path: &str, bandwidths: &[usize; P]) -> (r: String)
        ensures
            r@ == master_text(base_path@, bandwidths@),
    {
        let mut out = String::from_str("#EXTM3U\n");
        let ghost header = out@;
        let mut k: usize = 0;
        while k < P
            invariant
                0 <= k <= P,
                bandwidths@.len() == P,
                out@ == header + variants_text(base_path@, bandwidths@.take(k as int)),
            decreases P - k,
        {
            let ghost before = out@;
            if k > 0 {
                out.append("\n");
            }
            push_variant(&mut out, base_path, bandwidths[k]);
            proof {
                let bs = bandwidths@.take(k as int + 1);
                assert(bs.drop_last() =~= bandwidths@.take(k as int));
                assert(out@ =~= header + variants_text(base_path@, bs));
            }
            k = k + 1;
        }
        assert(bandwidths@.take(P as int) =~= bandwidths@);
        out
    }

    /// The media manifest of the `i`-th bitrate, if there is one.
    pub fn format_media(&self, i: usize) -> (r: Option<String>)
        requires
            self.wf(),
        ensures
            r is Some <==> i < P,
            r is Some ==> r->Some_0@ == media_text(self.models()[i as int].count, S as nat),
    {
        if i < self.playlists.len() {
            Some(self.playlists[i].format())
        } else {
            None
        }
    }

    /// The tagged bytes of logical segment `segment` of the `playlist`-th
    /// bitrate: a `TAG_LEN`-byte tag followed by the bytes published for it.
    pub fn get_segment_raw(&self, playlist: usize, segment: usize) -> (r: Option<Vec<u8>>)
        requires
            self.wf(),
        ensures
            r is Some <==> playlist < P && is_retained(
                self.models()[playlist as int].count,
                S as nat,
                segment as int,
            ),
            r is Some ==> r->Some_0@ == segment_tag(segment as nat) + stored(
                self.models()[playlist as int],
                segment as int,
            ),
            r is Some ==> r->Some_0@.len() == TAG_LEN + stored(
                self.models()[playlist as int],
                segment as int,
            ).len(),
            r is Some ==> r->Some_0@.subrange(TAG_LEN as int, r->Some_0@.len() as int) == stored(
                self.models()[playlist as int],
                segment as int,
            ),
    {
        if playlist < self.playlists.len() {
            self.playlists[playlist].get_segment_raw(segment)
        } else {
            None
        }
    }

    /// Number of segment sets published so far.
    pub fn published(&self) -> (r: usize)
        requires
            self.wf(),
        ensures
            forall|k: int| 0 <= k < P ==> r == #[trigger] self.models()[k].count,
    {
        self.playlists[0].published()
    }

    /// The logical index of the newest segment; `None` before the first publication.
    pub fn current(&self) -> (r: Option<usize>)
        requires
            self.wf(),
        ensures
            r is None <==> self.models()[0].count == 0,
            forall|k: int| 0 <= k < P ==> r is Some ==> r->Some_0 + 1 == #[trigger] self.models()[k].count,
    {
        let n = self.playlists[0].published();
        if n == 0 {
            None
        } else {
            Some(n - 1)
        }
    }
}

} // verus!
