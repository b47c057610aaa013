//! The timing tag that precedes each segment served to listeners.
use byteorder::ByteOrder;
use id3::TagLike;
use vstd::prelude::*;

verus! {

/// Owner of the private ID3 frame that carries the transport-stream timestamp.
pub const TAG_OWNER: &'static str = "com.apple.streaming.transportStreamTimestamp";

/// Ticks of the 90 kHz transport-stream clock in one segment (ten seconds).
pub const TICKS_PER_SEGMENT: u64 = 900000;

/// The eight bytes of `n`, most significant first.
pub open spec fn be_u64(n: u64) -> Seq<u8> {
    Seq::new(8, |k: int| ((n as nat / pow256((7 - k) as nat)) % 256) as u8)
}

pub open spec fn pow256(e: nat) -> nat
    decreases e,
{
    if e == 0 {
        1
    } else {
        256 * pow256((e - 1) as nat)
    }
}

/// Timestamp of logical segment `i`: its start on the 90 kHz clock, modulo 2^64.
pub open spec fn timestamp_of(i: nat) -> u64 {
    ((i * TICKS_PER_SEGMENT) % 0x1_0000_0000_0000_0000) as u64
}

/// `n` as an ID3 "synchsafe" integer: four bytes of seven bits each, most
/// significant first.
pub open spec fn synchsafe(n: nat) -> Seq<u8> {
    seq![
        ((n / 0x20_0000) % 128) as u8,
        ((n / 0x4000) % 128) as u8,
        ((n / 0x80) % 128) as u8,
        (n % 128) as u8,
    ]
}

/// The bytes of an ASCII text.
pub open spec fn ascii_bytes(s: Seq<char>) -> Seq<u8> {
    s.map_values(|c: char| c as u8)
}

/// An ID3v2.4 `PRIV` frame: its identifier, the synchsafe size of its content,
/// two zero flag bytes, then the owner, a zero, and the data.
pub open spec fn priv_frame(owner: Seq<char>, data: Seq<u8>) -> Seq<u8> {
    let content = ascii_bytes(owner) + seq![0u8] + data;
    seq![0x50u8, 0x52u8, 0x49u8, 0x56u8] + synchsafe(content.len()) + seq![0u8, 0u8] + content
}

/// An ID3v2.4 tag holding one `PRIV` frame, with neither padding nor
/// unsynchronisation: `ID3`, version 4.0, zero flags, the synchsafe size of
/// the frame, and the frame.
pub open spec fn id3_private_tag(owner: Seq<char>, data: Seq<u8>) -> Seq<u8> {
    let frame = priv_frame(owner, data);
    seq![0x49u8, 0x44u8, 0x33u8, 4u8, 0u8, 0u8] + synchsafe(frame.len()) + frame
}

/// Length of the tag block before every segment: a 10-byte tag header, a
/// 10-byte frame header, the 44-byte owner, its terminating zero, and the
/// 8-byte timestamp.
pub const TAG_LEN: usize = 73;

/// The tag block that precedes logical segment `i`.
pub open spec fn segment_tag(i: nat) -> Seq<u8> {
    id3_private_tag(TAG_OWNER@, be_u64(timestamp_of(i)))
}

/// Relies on byteorder's `BigEndian::write_u64`: writes `n` most significant byte first.
#[verifier::external_body]
fn be_bytes(n: u64) -> (r: Vec<u8>)
    ensures
        r@ == be_u64(n),
{
    let mut b = [0u8; 8];
    byteorder::BigEndian::write_u64(&mut b, n);
    b.to_vec()
}

/// Relies on id3's `Tag::add_frame` and `Tag::write_to`: the bytes of an ID3v2.4
/// tag with one `PRIV` frame, written into an empty buffer (stream/tag.rs
/// `Encoder::encode`, stream/frame/v4.rs `encode`, frame content
/// `private_content`). id3 asserts that sizes stay below 2^28 bytes, which the
/// bound on the lengths keeps; writing into a `Vec` does not fail.
#[verifier::external_body]
fn private_tag(owner: &str, data: Vec<u8>) -> (r: Vec<u8>)
    requires
        forall|k: int| 0 <= k < owner@.len() ==> (owner@[k] as u32) < 128,
        owner@.len() + data@.len() < 0x0FF0_0000,
    ensures
        r@ == id3_private_tag(owner@, data@),
{
    let mut tag = id3::Tag::new();
    tag.add_frame(id3::frame::Private { owner_identifier: owner.to_string(), private_data: data });
    let mut out = Vec::new();
    let _ = tag.write_to(&mut out, id3::Version::Id3v24);
    out
}

/// Every segment's tag block is `TAG_LEN` bytes long, and its last eight bytes
/// are the segment's timestamp, most significant byte first.
pub proof fn lemma_tag_layout(i: nat)
    ensures
        segment_tag(i).len() == TAG_LEN,
        segment_tag(i).subrange(TAG_LEN - 8, TAG_LEN as int) == be_u64(timestamp_of(i)),
{
    lemma_owner_ascii();
    let t = segment_tag(i);
    let data = be_u64(timestamp_of(i));
    let f = priv_frame(TAG_OWNER@, data);
    assert(ascii_bytes(TAG_OWNER@).len() == 44);
    assert(f.len() == 63);
    assert(t.len() == 73);
    assert(t.subrange(65, 73) =~= data);
}

proof fn lemma_owner_ascii()
    ensures
        TAG_OWNER@.len() == 44,
        forall|k: int| 0 <= k < TAG_OWNER@.len() ==> (TAG_OWNER@[k] as u32) < 128,
{
    reveal_strlit("com.apple.streaming.transportStreamTimestamp");
}

/// The tag block for logical segment `i`; it is `TAG_LEN` bytes long for every `i`.
pub fn tag_for(i: usize) -> (r: Vec<u8>)
    ensures
        r@ == segment_tag(i as nat),
        r@.len() == TAG_LEN,
{
    proof {
        lemma_owner_ascii();
        lemma_tag_layout(i as nat);
    }
    let stamp = (i as u64).wrapping_mul(TICKS_PER_SEGMENT);
    private_tag(TAG_OWNER, be_bytes(stamp))
}

} // verus!
