use jari::ingest::{duration_ms, encode_song, ingest_step, to_stereo, IngestAction, IngestEvent};
use jari::recode::{aligned_start, block_ranges, recode, StationCodec};

#[test]
fn stereo_normalisation() {
    assert_eq!(to_stereo(&vec![1, 2, 3], 1), vec![1, 1, 2, 2, 3, 3]);
    assert_eq!(to_stereo(&vec![1, 2, 3, 4], 2), vec![1, 2, 3, 4]);
    assert_eq!(to_stereo(&vec![1, 2, 3, 4, 5, 6, 7], 3), vec![1, 2, 4, 5]);
}

#[test]
fn durations_in_milliseconds() {
    assert_eq!(duration_ms(48000 * 2 * 15, 48000, 2), Some(15000));
    assert_eq!(duration_ms(44100, 44100, 2), Some(500));
    assert_eq!(duration_ms(u64::MAX, 1, 1), None);
}

#[test]
fn blocks_cover_range() {
    assert_eq!(block_ranges(0, 10, 4), vec![(0, 4), (4, 8), (8, 10)]);
    assert_eq!(block_ranges(3, 3, 4), vec![]);
    assert_eq!(block_ranges(2, 6, 4), vec![(2, 6)]);
}

#[test]
fn delay_alignment() {
    assert_eq!(aligned_start(1000, 2048, 2000), None);
    assert_eq!(aligned_start(2048, 2048, 2000), Some(2000));
    assert_eq!(aligned_start(4096, 2048, 2000), Some(0));
    assert_eq!(aligned_start(0, 2048, 0), Some(2048));
}

#[test]
fn ingest_then_recode_a_chunk() {
    let rate = 48000u32;
    let samples = (rate as usize) * 2 * 25;
    let pcm: Vec<i16> = (0..samples).map(|i| ((i % 200) as i16 - 100) * 50).collect();
    let mut encoders = Vec::new();
    let song = match encode_song(&pcm, rate, &mut encoders) {
        Ok(s) => s,
        Err(_) => panic!("encoding failed"),
    };
    assert_eq!(encoders.len(), 3);
    assert_eq!(song.chunks.len(), 3);
    assert_eq!(song.duration_ms, 25000);
    assert!(song.chunks.iter().all(|c| !c.is_empty()));
    let ladder = vec![128000u32, 96000, 48000, 24000];
    let mut codec = StationCodec::new();
    let first = match recode(&song.chunks[0], &mut codec, &ladder, true) {
        Ok(s) => s,
        Err(_) => panic!("recode failed"),
    };
    assert_eq!(first.len(), 4);
    assert!(first.iter().all(|s| !s.is_empty()));
    let second = match recode(&song.chunks[1], &mut codec, &ladder, false) {
        Ok(s) => s,
        Err(_) => panic!("recode failed"),
    };
    assert_eq!(second.len(), 4);
    assert!(second.iter().all(|s| !s.is_empty()));
    assert!(second[0].len() > second[3].len());
}

#[test]
fn recode_without_encoders_needs_a_reset() {
    let mut codec = StationCodec::new();
    assert!(recode(&vec![1, 2, 3], &mut codec, &vec![128000], false).is_err());
}

#[test]
fn ingest_loop_decisions() {
    assert_eq!(ingest_step(IngestEvent::Packet { track: 3 }, 3), IngestAction::Decode);
    assert_eq!(ingest_step(IngestEvent::Packet { track: 2 }, 3), IngestAction::Skip);
    assert_eq!(ingest_step(IngestEvent::EndOfStream, 3), IngestAction::Finish);
    assert_eq!(ingest_step(IngestEvent::ReadFault, 3), IngestAction::Abort);
    assert_eq!(ingest_step(IngestEvent::Decoded, 3), IngestAction::Keep);
    assert_eq!(ingest_step(IngestEvent::PacketUnusable, 3), IngestAction::Skip);
    assert_eq!(ingest_step(IngestEvent::DecodeFault, 3), IngestAction::Abort);
}
