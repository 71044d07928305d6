//! Stream framing of messages, by the `capnp` crate: a segment table and the
//! segments that follow it.
use vstd::prelude::*;
use vstd::bytes::{spec_u32_to_le_bytes, spec_u32_from_le_bytes};
use capnp::message::ReaderSegments;
use capnp::Error as CapnpError;
use super::codec::MAX_SEGMENT_WORDS;

verus! {

#[verifier::external_type_specification]
#[verifier::external_body]
pub struct ExCapnpError(CapnpError);

/// A framed single-segment message: the number of segments minus one and the
/// segment's size in words, as little-endian 32-bit integers, then the segment.
pub open spec fn framed(seg: Seq<u8>) -> Seq<u8> {
    spec_u32_to_le_bytes(0) + spec_u32_to_le_bytes((seg.len() / 8) as u32) + seg
}

/// The little-endian 32-bit integer at byte `b` of a message.
pub open spec fn u32_at(m: Seq<u8>, b: int) -> int {
    spec_u32_from_le_bytes(m.subrange(b, b + 4)) as int
}

/// The number of segments the table of a framed message declares: one more
/// than its first integer, wrapping to 0.
pub open spec fn seg_count(m: Seq<u8>) -> int {
    (u32_at(m, 0) + 1) % 0x1_0000_0000
}

/// The bytes the segment table takes, padded to a whole word.
pub open spec fn table_bytes(m: Seq<u8>) -> int {
    8 * (seg_count(m) / 2 + 1)
}

/// The size, in words, that the table declares for segment `i`.
pub open spec fn seg_size(m: Seq<u8>, i: int) -> int {
    u32_at(m, 4 + 4 * i)
}

/// The words that the segments before segment `i` take.
pub open spec fn seg_offset(m: Seq<u8>, i: int) -> int
    decreases i,
{
    if i <= 0 {
        0
    } else {
        seg_offset(m, i - 1) + seg_size(m, i - 1)
    }
}

/// Whether `m` frames a message a reader accepts: a whole segment table of
/// fewer than 512 segments, at most the reader's limit of words in all, and
/// the bytes of every segment.
pub open spec fn framed_ok(m: Seq<u8>) -> bool {
    &&& m.len() >= 8
    &&& 1 <= seg_count(m) < 512
    &&& m.len() >= table_bytes(m)
    &&& seg_offset(m, seg_count(m)) <= MAX_SEGMENT_WORDS
    &&& m.len() >= table_bytes(m) + 8 * seg_offset(m, seg_count(m))
}

/// Segment `i` of a framed message.
pub open spec fn framed_segment(m: Seq<u8>, i: int) -> Seq<u8> {
    m.subrange(table_bytes(m) + 8 * seg_offset(m, i), table_bytes(m) + 8 * seg_offset(m, i + 1))
}

/// The segments of a framed message, one after the other.
pub open spec fn framed_flat(m: Seq<u8>) -> Seq<u8> {
    m.subrange(table_bytes(m), table_bytes(m) + 8 * seg_offset(m, seg_count(m)))
}

/// Where each segment of a framed message ends, in words, within
/// `framed_flat`.
pub open spec fn framed_ends(m: Seq<u8>) -> Seq<usize> {
    Seq::new(seg_count(m) as nat, |i: int| seg_offset(m, i + 1) as usize)
}

/// Offsets of segments only grow.
pub proof fn lemma_seg_offset_mono(m: Seq<u8>, i: int, j: int)
    requires
        0 <= i <= j,
    ensures
        seg_offset(m, i) <= seg_offset(m, j),
    decreases j - i,
{
    if i < j {
        lemma_seg_offset_mono(m, i, j - 1);
        assert(seg_size(m, j - 1) >= 0);
    }
}

/// Reading back the frame of a segment of whole words, within the reader's
/// limit, finds that one segment.
pub proof fn lemma_framed(seg: Seq<u8>)
    requires
        seg.len() % 8 == 0,
        seg.len() / 8 <= MAX_SEGMENT_WORDS,
    ensures
        framed_ok(framed(seg)),
        seg_count(framed(seg)) == 1,
        framed_flat(framed(seg)) == seg,
        framed_ends(framed(seg)) == seq![(seg.len() / 8) as usize],
{
    vstd::bytes::lemma_auto_spec_u32_to_from_le_bytes();
    let a = spec_u32_to_le_bytes(0);
    let b = spec_u32_to_le_bytes((seg.len() / 8) as u32);
    let m = framed(seg);
    assert(m.subrange(0, 4) =~= a);
    assert(m.subrange(4, 8) =~= b);
    assert(seg_count(m) == 1);
    assert(seg_offset(m, 0) == 0);
    assert(seg_size(m, 0) == seg.len() / 8);
    assert(seg_offset(m, 1) == seg.len() / 8);
    assert(m.subrange(8, 8 + 8 * seg_offset(m, 1)) =~= seg);
    assert(framed_ends(m) =~= seq![(seg.len() / 8) as usize]);
}

/// `capnp::serialize::write_message_segments_to_words` on one segment: the
/// segment table (zero further segments, then the segment's size in words,
/// each a little-endian `u32`) followed by the segment's bytes.
#[verifier::external_body]
pub(crate) fn write_framed(seg: &[u8]) -> (r: Vec<u8>)
    requires
        seg@.len() % 8 == 0,
        seg@.len() / 8 <= u32::MAX,
    ensures
        r@ == framed(seg@),
{
    capnp::serialize::write_message_segments_to_words(&capnp::message::SegmentArray::new(&[seg]))
}

/// `capnp::serialize::read_message` with the default reader options (a limit
/// of 8 Mi words), giving the bytes of each segment read. It reads a message
/// exactly when its segment table is whole, declares between 1 and 511
/// segments of at most the limit of words in all, and the message holds
/// their bytes; the segments are then the bytes that follow the table, in
/// the sizes it declares.
#[verifier::external_body]
pub(crate) fn read_framed(message: &[u8]) -> (r: Result<Vec<Vec<u8>>, CapnpError>)
    ensures
        r is Ok <==> framed_ok(message@),
        r matches Ok(segs) ==> segs@.len() == seg_count(message@) && forall|i: int|
            0 <= i < segs@.len() ==> #[trigger] segs@[i]@ == framed_segment(message@, i),
{
    let mut bytes = message;
    match capnp::serialize::read_message(&mut bytes, capnp::message::ReaderOptions::new()) {
        Ok(reader) => {
            let segments = reader.into_segments();
            Ok((0..segments.len() as u32).map(|i| segments.get_segment(i).unwrap_or(&[]).to_vec()).collect())
        },
        Err(e) => Err(e),
    }
}

} // verus!
