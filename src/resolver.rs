//! Which song and chunk a station plays at a given moment.
use vstd::arithmetic::div_mod::lemma_mod_add_multiples_vanish;
use crate::text::{parse_duration, parse_duration_spec};
use vstd::prelude::*;

verus! {

/// Length of one pre-encoded chunk, in milliseconds.
pub const CHUNK_MS: u64 = 10000;

/// A resolved playback position.
#[derive(Clone, Copy, Debug, PartialEq, Eq, Structural)]
pub struct Position {
    /// The song playing.
    pub song: u8,
    /// Index of the chunk of that song that is playing.
    pub chunk: u64,
    /// Milliseconds into that chunk.
    pub within_chunk_ms: u64,
}

/// Sum of the durations (milliseconds) of the songs in `lens`.
pub open spec fn total_ms(lens: Seq<(u8, u64)>) -> nat
    decreases lens.len(),
{
    if lens.len() == 0 {
        0
    } else {
        total_ms(lens.drop_last()) + lens.last().1 as nat
    }
}

/// The first song at or after index `j` whose cumulative end lies beyond `t`.
pub open spec fn first_ending_after(lens: Seq<(u8, u64)>, t: nat, j: nat) -> Option<nat>
    decreases lens.len() - j,
{
    if j >= lens.len() {
        None
    } else if total_ms(lens.take(j as int + 1)) > t {
        Some(j)
    } else {
        first_ending_after(lens, t, j + 1)
    }
}

/// The position `elapsed` milliseconds into the looping playlist `lens`
/// (song id and duration in playlist order); `None` when the playlist has no length.
pub open spec fn resolve_spec(lens: Seq<(u8, u64)>, elapsed: nat) -> Option<Position> {
    let total = total_ms(lens);
    if total == 0 {
        None
    } else {
        let t = elapsed % total;
        match first_ending_after(lens, t, 0) {
            Some(j) => {
                let offset = (t - total_ms(lens.take(j as int))) as nat;
                Some(
                    Position {
                        song: lens[j as int].0,
                        chunk: (offset / CHUNK_MS as nat) as u64,
                        within_chunk_ms: (offset % CHUNK_MS as nat) as u64,
                    },
                )
            },
            None => None,
        }
    }
}

/// The playlist the resolver works on: each song of `order` whose length
/// marker text (`None` where it could not be read) parses, with its duration.
pub open spec fn lengths_spec(order: Seq<u8>, markers: Seq<Option<String>>) -> Seq<(u8, u64)>
    decreases order.len(),
{
    if order.len() == 0 || markers.len() != order.len() {
        Seq::empty()
    } else {
        let rest = lengths_spec(order.drop_last(), markers.drop_last());
        match markers.last() {
            Some(text) => match parse_duration_spec(text@) {
                Some(ms) => rest.push((order.last(), ms)),
                None => rest,
            },
            None => rest,
        }
    }
}

/// Pair each song of `order` with the duration its length marker gives,
/// skipping songs whose marker is missing or unreadable.
pub fn song_lengths(order: &Vec<u8>, markers: &Vec<Option<String>>) -> (r: Vec<(u8, u64)>)
    requires
        order@.len() == markers@.len(),
    ensures
        r@ == lengths_spec(order@, markers@),
{
    let mut out: Vec<(u8, u64)> = Vec::new();
    let mut k: usize = 0;
    while k < order.len()
        invariant
            k <= order@.len() == markers@.len(),
            out@ == lengths_spec(order@.take(k as int), markers@.take(k as int)),
        decreases order@.len() - k,
    {
        assert(order@.take(k as int + 1).drop_last() =~= order@.take(k as int));
        assert(markers@.take(k as int + 1).drop_last() =~= markers@.take(k as int));
        match &markers[k] {
            Some(text) => {
                if let Some(ms) = parse_duration(text.as_str()) {
                    out.push((order[k], ms));
                }
            },
            None => {},
        }
        k = k + 1;
    }
    assert(order@.take(order@.len() as int) =~= order@);
    assert(markers@.take(markers@.len() as int) =~= markers@);
    out
}

proof fn lemma_take_total(lens: Seq<(u8, u64)>, j: int)
    requires
        0 <= j < lens.len(),
    ensures
        total_ms(lens.take(j + 1)) == total_ms(lens.take(j)) + lens[j].1,
{
    assert(lens.take(j + 1).drop_last() =~= lens.take(j));
}

proof fn lemma_prefix_le(lens: Seq<(u8, u64)>, j: int)
    requires
        0 <= j <= lens.len(),
    ensures
        total_ms(lens.take(j)) <= total_ms(lens),
    decreases lens.len(),
{
    if j < lens.len() {
        let init = lens.drop_last();
        assert(lens.take(j) =~= init.take(j));
        lemma_prefix_le(init, j);
    } else {
        assert(lens.take(j) =~= lens);
    }
}

/// Resolve the playback position `elapsed_ms` milliseconds after start, for a
/// playlist given as song id and duration (milliseconds) in playlist order.
pub fn resolve(lens: &Vec<(u8, u64)>, elapsed_ms: u64) -> (r: Option<Position>)
    ensures
        r == resolve_spec(lens@, elapsed_ms as nat),
{
    let n = lens.len();
    let mut total: u128 = 0;
    let mut j: usize = 0;
    while j < n
        invariant
            n == lens@.len(),
            j <= n,
            total == total_ms(lens@.take(j as int)),
            total <= j * 0xFFFF_FFFF_FFFF_FFFF,
        decreases n - j,
    {
        proof { lemma_take_total(lens@, j as int); }
        total = total + lens[j].1 as u128;
        j = j + 1;
    }
    assert(lens@.take(n as int) =~= lens@);
    if total == 0 {
        return None;
    }
    let t = elapsed_ms as u128 % total;
    let mut acc: u128 = 0;
    let mut j: usize = 0;
    while j < n
        invariant
            n == lens@.len(),
            j <= n,
            total == total_ms(lens@),
            t == elapsed_ms as nat % total_ms(lens@),
            acc == total_ms(lens@.take(j as int)),
            acc <= t,
            first_ending_after(lens@, t as nat, 0) == first_ending_after(lens@, t as nat, j as nat),
        decreases n - j,
    {
        proof {
            lemma_take_total(lens@, j as int);
            lemma_prefix_le(lens@, j as int + 1);
        }
        let end = acc + lens[j].1 as u128;
        if end > t {
            assert(first_ending_after(lens@, t as nat, j as nat) == Some(j as nat));
            let offset = (t - acc) as u64;
            return Some(
                Position {
                    song: lens[j].0,
                    chunk: offset / CHUNK_MS,
                    within_chunk_ms: offset % CHUNK_MS,
                },
            );
        }
        assert(first_ending_after(lens@, t as nat, j as nat) == first_ending_after(
            lens@,
            t as nat,
            j as nat + 1,
        ));
        acc = end;
        j = j + 1;
    }
    assert(lens@.take(n as int) =~= lens@);
    None
}

/// The resolver is periodic: a whole playlist length later, the same position plays.
pub proof fn lemma_resolve_periodic(lens: Seq<(u8, u64)>, elapsed: nat)
    ensures
        resolve_spec(lens, elapsed + total_ms(lens)) == resolve_spec(lens, elapsed),
{
    let total = total_ms(lens);
    if total > 0 {
        lemma_mod_add_multiples_vanish(elapsed as int, total as int);
        assert((elapsed + total) % total == elapsed % total);
    }
}

/// The resolver depends on nothing but the playlist and the elapsed time: the
/// same inputs give the same position.
pub proof fn lemma_resolve_deterministic(a: Seq<(u8, u64)>, b: Seq<(u8, u64)>, elapsed: nat)
    requires
        a == b,
    ensures
        resolve_spec(a, elapsed) == resolve_spec(b, elapsed),
{
}

} // verus!
