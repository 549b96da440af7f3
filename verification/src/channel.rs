//! What nodes exchange over TCP, and which peers a node dials.
//!
//! A connection starts with the dialing node's identifier; every message after it
//! is a frame: the length of the payload as four little-endian bytes, then the
//! payload. A node dials the peers whose identifier is higher than its own; the
//! node with the highest identifier dials the one with the lowest. Every node
//! accepts the connections that others dial.
use vstd::prelude::*;

verus! {

/// A message on the wire, with the identifier of the node that sent it.
#[derive(Debug, Clone)]
pub struct TcpMessage<T> {
    pub sender_id: u32,
    pub payload: T,
}

/// The four little-endian bytes of `n`.
pub open spec fn le_u32_bytes(n: u32) -> Seq<u8> {
    seq![
        (n % 256) as u8,
        (n / 256 % 256) as u8,
        (n / 65536 % 256) as u8,
        (n / 16777216) as u8,
    ]
}

/// The number that four little-endian bytes denote.
pub open spec fn le_u32_value(b: Seq<u8>) -> nat
    recommends
        b.len() == 4,
{
    (b[0] + 256 * b[1] + 65536 * b[2] + 16777216 * b[3]) as nat
}

/// The frame of `payload`: its length, then the payload itself.
pub open spec fn frame_spec(payload: Seq<u8>) -> Seq<u8>
    recommends
        payload.len() <= u32::MAX,
{
    le_u32_bytes(payload.len() as u32) + payload
}

/// The header of a frame gives back the length it was made from, and a header of
/// four bytes is the header of the length it denotes.
pub proof fn lemma_frame_length_round_trip(n: u32, b: Seq<u8>)
    requires
        b.len() == 4,
    ensures
        le_u32_value(le_u32_bytes(n)) == n,
        le_u32_value(b) <= u32::MAX,
        le_u32_bytes(le_u32_value(b) as u32) == b,
{
    let b0 = b[0];
    let b1 = b[1];
    let b2 = b[2];
    let b3 = b[3];
    assert((n % 256) + 256 * ((n / 256) % 256) + 65536 * ((n / 65536) % 256) + 16777216 * (n / 16777216)
        == n) by (bit_vector);
    assert(b0 + 256 * b1 + 65536 * b2 + 16777216 * b3 <= 0xffff_ffff) by (bit_vector);
    let v: u32 = (b0 + 256 * b1 + 65536 * b2 + 16777216 * b3) as u32;
    assert(v % 256 == b0 && v / 256 % 256 == b1 && v / 65536 % 256 == b2 && v / 16777216 == b3)
        by (bit_vector)
        requires
            v == b0 + 256 * b1 + 65536 * b2 + 16777216 * b3,
    ;
    assert(le_u32_bytes(v) =~= b);
}

/// Frames `payload` for the wire.
pub fn encode_frame(payload: &Vec<u8>) -> (r: Vec<u8>)
    requires
        payload@.len() <= u32::MAX,
    ensures
        r@ == frame_spec(payload@),
{
    let n = payload.len() as u32;
    let mut r: Vec<u8> = Vec::new();
    r.push((n % 256) as u8);
    r.push((n / 256 % 256) as u8);
    r.push((n / 65536 % 256) as u8);
    r.push((n / 16777216) as u8);
    let mut i: usize = 0;
    while i < payload.len()
        invariant
            i <= payload@.len(),
            payload@.len() == n,
            r@ == le_u32_bytes(n) + payload@.subrange(0, i as int),
        decreases payload.len() - i,
    {
        r.push(payload[i]);
        assert(payload@.subrange(0, i as int + 1) =~= payload@.subrange(0, i as int).push(payload@[i as int]));
        i = i + 1;
    }
    assert(payload@.subrange(0, payload@.len() as int) =~= payload@);
    r
}

/// The payload length that a frame's four-byte header announces.
pub fn decode_frame_length(header: &[u8]) -> (r: u32)
    requires
        header@.len() == 4,
    ensures
        r == le_u32_value(header@),
{
    proof {
        lemma_frame_length_round_trip(0, header@);
    }
    header[0] as u32 + 256 * (header[1] as u32) + 65536 * (header[2] as u32) + 16777216 * (
    header[3] as u32)
}

/// The peer is above `id`.
pub open spec fn is_above(id: u32) -> spec_fn(u32) -> bool {
    |p: u32| p > id
}

/// `m` is the lowest of `peers`.
pub open spec fn is_lowest(m: u32, peers: Seq<u32>) -> bool {
    &&& peers.contains(m)
    &&& forall|j: int| 0 <= j < peers.len() ==> m <= #[trigger] peers[j]
}

/// The peers that node `id` dials.
pub fn connection_targets(id: u32, peers: &Vec<u32>) -> (r: Vec<u32>)
    ensures
        peers@.filter(is_above(id)).len() > 0 ==> r@ == peers@.filter(is_above(id)),
        peers@.filter(is_above(id)).len() == 0 && peers@.len() > 0 ==> r@.len() == 1 && is_lowest(
            r@[0],
            peers@,
        ),
        peers@.len() == 0 ==> r@.len() == 0,
{
    let mut higher: Vec<u32> = Vec::new();
    let mut i: usize = 0;
    if peers.len() == 0 {
        return higher;
    }
    let mut lowest = peers[0];
    while i < peers.len()
        invariant
            i <= peers@.len(),
            peers@.len() > 0,
            higher@ == peers@.subrange(0, i as int).filter(is_above(id)),
            peers@.contains(lowest),
            forall|j: int| 0 <= j < i ==> lowest <= #[trigger] peers@[j],
        decreases peers.len() - i,
    {
        let p = peers[i];
        proof {
            reveal(Seq::filter);
            assert(peers@.subrange(0, i as int + 1).drop_last() =~= peers@.subrange(0, i as int));
        }
        if p > id {
            higher.push(p);
        }
        if p < lowest {
            lowest = p;
        }
        i = i + 1;
    }
    assert(peers@.subrange(0, peers@.len() as int) =~= peers@);
    if higher.len() > 0 {
        higher
    } else {
        let mut r: Vec<u32> = Vec::new();
        r.push(lowest);
        r
    }
}

} // verus!
