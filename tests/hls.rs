use jari::hls::{expiry_seconds, MasterPlaylist, MediaPlaylist, Segment};
use jari::tag::{tag_for, TAG_LEN};

fn seg(b: u8) -> Segment {
    Segment::new(vec![b, b, b])
}

fn media() -> MediaPlaylist<4> {
    MediaPlaylist::new(vec![seg(250), seg(251), seg(252), seg(253)])
}

fn master() -> MasterPlaylist<2, 4> {
    MasterPlaylist::new(vec![media(), media()])
}

#[test]
fn segment_round_trips_bytes() {
    let s = Segment::new(vec![1, 2, 3]);
    assert_eq!(s.get_raw(), vec![1, 2, 3]);
}

#[test]
fn fresh_playlist_holds_nothing() {
    let m = master();
    assert_eq!(m.current(), None);
    assert_eq!(m.published(), 0);
    for i in 0..4 {
        assert!(m.get_segment_raw(0, i).is_none());
    }
    let e: MasterPlaylist<2, 4> = MasterPlaylist::empty(&vec![9]);
    assert_eq!(e.current(), None);
    assert!(e.get_segment_raw(1, 0).is_none());
}

#[test]
fn publishing_k_times_keeps_the_last_window() {
    for k in 1..=7usize {
        let mut m = master();
        for j in 0..k {
            m.add_segments(vec![seg(j as u8), seg(100 + j as u8)]);
        }
        assert_eq!(m.current(), Some(k - 1));
        let oldest = k.saturating_sub(4);
        for i in 0..k + 2 {
            let held = m.get_segment_raw(1, i);
            assert_eq!(held.is_some(), oldest <= i && i <= k - 1);
            if let Some(raw) = held {
                assert_eq!(&raw[TAG_LEN..], &[100 + i as u8; 3]);
            }
        }
        assert!(m.get_segment_raw(2, k - 1).is_none());
    }
}

#[test]
fn request_older_than_window_is_not_found_and_current_is_newest() {
    let mut m = master();
    for k in 0..=9u8 {
        m.add_segments(vec![seg(k), seg(k)]);
    }
    // current = 9, S = 4: indices 6..=9 are retained.
    assert_eq!(m.current(), Some(9));
    assert!(m.get_segment_raw(0, 5).is_none());
    let raw = m.get_segment_raw(0, 9).unwrap();
    assert_eq!(&raw[TAG_LEN..], &[9, 9, 9]);
    assert!(m.get_segment_raw(0, 6).is_some());
}

#[test]
fn served_segment_strips_back_to_published_bytes() {
    let mut p = media();
    p.add_segment(seg(7));
    p.add_segment(Segment::new(vec![42, 43, 44, 45]));
    let raw = p.get_segment_raw(1).unwrap();
    assert_eq!(raw.len(), TAG_LEN + 4);
    assert_eq!(&raw[..TAG_LEN], &tag_for(1)[..]);
    assert_eq!(&raw[TAG_LEN..], &[42, 43, 44, 45]);
}

#[test]
fn ring_buffer_holds_min_count_segments() {
    let mut p = media();
    let live = |p: &MediaPlaylist<4>, n: usize| (0..n + 2).filter(|i| p.get_segment_raw(*i).is_some()).count();
    assert_eq!(live(&p, 0), 0);
    for k in 1..=9usize {
        p.add_segment(seg(k as u8));
        assert_eq!(p.published(), k);
        assert_eq!(live(&p, k), std::cmp::min(k, 4));
    }
}

#[test]
fn tag_is_id3_with_big_endian_timestamp() {
    let tag = tag_for(2);
    assert_eq!(tag.len(), TAG_LEN);
    assert_eq!(tag_for(123456789).len(), TAG_LEN);
    assert_eq!(&tag[..3], b"ID3");
    assert_eq!(tag[3], 4);
    let stamp = (2u64 * 900000).to_be_bytes();
    assert_eq!(&tag[TAG_LEN - 8..], &stamp);
    assert!(tag.windows(4).any(|w| w == b"PRIV"));
    assert_ne!(tag_for(2), tag_for(3));
}

#[test]
fn media_manifest_lists_window() {
    let mut p = media();
    assert_eq!(p.format(), "#EXTM3U\n#EXT-X-VERSION:3\n#EXT-X-TARGETDURATION:10\n#EXT-X-MEDIA-SEQUENCE:0\n");
    p.add_segment(seg(0));
    assert_eq!(
        p.format(),
        "#EXTM3U\n#EXT-X-VERSION:3\n#EXT-X-TARGETDURATION:10\n#EXT-X-MEDIA-SEQUENCE:0\n#EXTINF:10.000,\n0.mp3"
    );
    for k in 1..=5u8 {
        p.add_segment(seg(k));
    }
    assert_eq!(
        p.format(),
        "#EXTM3U\n#EXT-X-VERSION:3\n#EXT-X-TARGETDURATION:10\n#EXT-X-MEDIA-SEQUENCE:3\n#EXTINF:10.000,\n3.mp3\n#EXTINF:10.000,\n4.mp3\n#EXTINF:10.000,\n5.mp3"
    );
}

#[test]
fn master_manifest_lists_each_bitrate() {
    let m = master();
    let text = m.format_master("/r/listen/", &[128000, 24000]);
    assert_eq!(
        text,
        "#EXTM3U\n#EXT-X-MEDIA:TYPE=AUDIO,GROUP-ID=\"128000\",NAME=\"128000\",AUTOSELECT=YES,DEFAULT=YES,AUTOSELECT=YES\n#EXT-X-STREAM-INF:BANDWIDTH=128000,CODECS=\"mp3\"\n/r/listen/128000/playlist.m3u8\n#EXT-X-MEDIA:TYPE=AUDIO,GROUP-ID=\"24000\",NAME=\"24000\",AUTOSELECT=YES,DEFAULT=YES,AUTOSELECT=YES\n#EXT-X-STREAM-INF:BANDWIDTH=24000,CODECS=\"mp3\"\n/r/listen/24000/playlist.m3u8"
    );
}

#[test]
fn format_media_by_variant() {
    let m = master();
    assert!(m.format_media(1).is_some());
    assert!(m.format_media(2).is_none());
}

#[test]
fn expiry_grows_with_age() {
    assert_eq!(expiry_seconds(9, 9), Some(0));
    assert_eq!(expiry_seconds(9, 6), Some(30));
    assert_eq!(expiry_seconds(9, 10), None);
}

#[test]
fn tag_bytes_follow_the_id3_layout() {
    let mut expected: Vec<u8> = vec![b'I', b'D', b'3', 4, 0, 0, 0, 0, 0, 63];
    expected.extend_from_slice(b"PRIV");
    expected.extend_from_slice(&[0, 0, 0, 53, 0, 0]);
    expected.extend_from_slice(b"com.apple.streaming.transportStreamTimestamp");
    expected.push(0);
    expected.extend_from_slice(&(7u64 * 900000).to_be_bytes());
    assert_eq!(tag_for(7), expected);
}
