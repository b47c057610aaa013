use jari::resolver::{resolve, song_lengths, Position};

#[test]
fn two_songs_resolve_by_prefix_sum() {
    let lens = vec![(1u8, 15000u64), (2u8, 10000u64)];
    assert_eq!(
        resolve(&lens, 20000),
        Some(Position { song: 2, chunk: 0, within_chunk_ms: 5000 })
    );
    assert_eq!(
        resolve(&lens, 26000),
        Some(Position { song: 1, chunk: 0, within_chunk_ms: 1000 })
    );
    assert_eq!(
        resolve(&lens, 12000),
        Some(Position { song: 1, chunk: 1, within_chunk_ms: 2000 })
    );
}

#[test]
fn resolver_is_periodic_and_repeatable() {
    let lens = vec![(3u8, 33000u64), (4u8, 7000u64), (5u8, 21000u64)];
    for t in [0u64, 1, 32999, 33000, 39999, 40000, 60999] {
        assert_eq!(resolve(&lens, t), resolve(&lens, t + 61000));
        assert_eq!(resolve(&lens, t), resolve(&lens, t));
    }
}

#[test]
fn empty_playlist_resolves_to_nothing() {
    assert_eq!(resolve(&vec![], 5000), None);
    assert_eq!(resolve(&vec![(1u8, 0u64)], 5000), None);
}

#[test]
fn zero_length_songs_are_skipped() {
    let lens = vec![(1u8, 0u64), (2u8, 10000u64)];
    assert_eq!(
        resolve(&lens, 3000),
        Some(Position { song: 2, chunk: 0, within_chunk_ms: 3000 })
    );
}

#[test]
fn unreadable_length_markers_are_skipped() {
    let order = vec![4u8, 7, 9, 2];
    let markers = vec![Some("15.5".to_string()), None, Some("oops".to_string()), Some("10".to_string())];
    assert_eq!(song_lengths(&order, &markers), vec![(4, 15500), (2, 10000)]);
}
