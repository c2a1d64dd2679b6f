//! The packet record: a fixed-size data buffer plus a flags word, together
//! with its wire form and the wire form of a batch of packets.
//!
//! One packet is laid out on the wire as the length-prefixed buffer followed
//! by the flags as a further 8-byte little-endian word. A batch is laid out
//! as the packet count, again as an 8-byte little-endian prefix, followed by
//! each packet's wire form in order.

use crate::codec::{decode, encode, spec_decode, spec_encode, DecodeError, FixedBytes};
use vstd::bytes::{
    lemma_auto_spec_u64_to_from_le_bytes, spec_u64_from_le_bytes, spec_u64_to_le_bytes,
    u64_from_le_bytes, u64_to_le_bytes,
};
use vstd::prelude::*;
use vstd::slice::slice_subrange;

verus! {

/// Number of content bytes carried by a packet's buffer: a network MTU of
/// 1280 bytes less the IPv6 and UDP headers.
pub const PACKET_DATA_SIZE: usize = 1280 - 40 - 8;

/// Total wire size of one packet: length prefix, buffer, flags.
pub const PACKET_WIRE_SIZE: usize = 8 + PACKET_DATA_SIZE + 8;

/// A packet: a data buffer of exactly `PACKET_DATA_SIZE` bytes and a flags
/// word.
#[derive(Clone, Debug)]
pub struct Packet {
    pub buffer: FixedBytes<PACKET_DATA_SIZE>,
    pub flags: u64,
}

/// Wire form of one packet: the length-prefixed buffer, then the flags as an
/// 8-byte little-endian word.
pub open spec fn spec_encode_packet(buffer: Seq<u8>, flags: u64) -> Seq<u8> {
    spec_encode(buffer) + spec_u64_to_le_bytes(flags)
}

/// What decoding one packet from the front of `input` yields; bytes after
/// the packet are ignored.
pub open spec fn spec_decode_packet(input: Seq<u8>) -> Result<(Seq<u8>, u64), DecodeError> {
    match spec_decode(input, PACKET_DATA_SIZE as nat) {
        Err(e) => Err(e),
        Ok(buf) => if input.len() < PACKET_WIRE_SIZE {
            Err(DecodeError::Truncated)
        } else {
            Ok(
                (
                    buf,
                    spec_u64_from_le_bytes(
                        input.subrange(8 + PACKET_DATA_SIZE as int, PACKET_WIRE_SIZE as int),
                    ),
                ),
            )
        },
    }
}

impl Packet {
    /// The buffer holds exactly `PACKET_DATA_SIZE` bytes.
    pub open spec fn wf(&self) -> bool {
        self.buffer.wf()
    }

    /// The buffer contents and the flags, as the pair the wire-form
    /// specifications speak of.
    pub open spec fn parts(&self) -> (Seq<u8>, u64) {
        (self.buffer.bytes@, self.flags)
    }

    /// Build a packet; fails unless `buffer` holds exactly
    /// `PACKET_DATA_SIZE` bytes.
    pub fn new(buffer: Vec<u8>, flags: u64) -> (r: Option<Packet>)
        ensures
            match r {
                Some(p) => p.wf() && p.buffer.bytes@ == buffer@ && p.flags == flags,
                None => buffer@.len() != PACKET_DATA_SIZE,
            },
    {
        match FixedBytes::new(buffer) {
            Some(fb) => Some(Packet { buffer: fb, flags }),
            None => None,
        }
    }

    /// Encode this packet as its wire form.
    pub fn encode(&self) -> (out: Vec<u8>)
        requires
            self.wf(),
        ensures
            out@ == spec_encode_packet(self.buffer.bytes@, self.flags),
            out@.len() == PACKET_WIRE_SIZE,
    {
        let mut out = self.buffer.encode();
        let mut tail = u64_to_le_bytes(self.flags);
        out.append(&mut tail);
        out
    }

    /// Decode one packet from the front of `input`; bytes after the packet
    /// are ignored.
    pub fn decode(input: &[u8]) -> (r: Result<Packet, DecodeError>)
        ensures
            match r {
                Ok(p) => p.wf() && spec_decode_packet(input@) == Ok::<
                    (Seq<u8>, u64),
                    DecodeError,
                >(p.parts()),
                Err(e) => spec_decode_packet(input@) == Err::<(Seq<u8>, u64), DecodeError>(e),
            },
    {
        let buffer = match FixedBytes::<PACKET_DATA_SIZE>::decode(input) {
            Ok(fb) => fb,
            Err(e) => {
                return Err(e);
            },
        };
        if input.len() < PACKET_WIRE_SIZE {
            return Err(DecodeError::Truncated);
        }
        let flags_bytes = slice_subrange(input, 8 + PACKET_DATA_SIZE, PACKET_WIRE_SIZE);
        let flags = u64_from_le_bytes(flags_bytes);
        Ok(Packet { buffer, flags })
    }
}

impl Default for Packet {
    /// The default packet: an all-zero buffer and flags set to 3.
    fn default() -> (p: Packet)
        ensures
            p.wf(),
            p.buffer.bytes@ == Seq::new(PACKET_DATA_SIZE as nat, |i: int| 0u8),
            p.flags == 3,
    {
        let mut bytes: Vec<u8> = Vec::new();
        let mut i: usize = 0;
        while i < PACKET_DATA_SIZE
            invariant
                i <= PACKET_DATA_SIZE,
                bytes@ =~= Seq::new(i as nat, |j: int| 0u8),
            decreases PACKET_DATA_SIZE - i,
        {
            bytes.push(0);
            i += 1;
        }
        assert(bytes@ =~= Seq::new(PACKET_DATA_SIZE as nat, |i: int| 0u8));
        Packet { buffer: FixedBytes { bytes }, flags: 3 }
    }
}

/// Wire forms of a sequence of packets, concatenated in order.
pub open spec fn spec_encode_packets_rec(packets: Seq<(Seq<u8>, u64)>) -> Seq<u8>
    decreases packets.len(),
{
    if packets.len() == 0 {
        Seq::<u8>::empty()
    } else {
        spec_encode_packet(packets[0].0, packets[0].1) + spec_encode_packets_rec(packets.skip(1))
    }
}

/// Wire form of a batch: the packet count as an 8-byte little-endian prefix,
/// then each packet's wire form in order.
pub open spec fn spec_encode_packets(packets: Seq<(Seq<u8>, u64)>) -> Seq<u8> {
    spec_u64_to_le_bytes(packets.len() as u64) + spec_encode_packets_rec(packets)
}

/// What decoding `count` packets from the front of `rest` yields.
pub open spec fn spec_decode_packets_rec(rest: Seq<u8>, count: nat) -> Result<
    Seq<(Seq<u8>, u64)>,
    DecodeError,
>
    decreases count,
{
    if count == 0 {
        Ok(Seq::<(Seq<u8>, u64)>::empty())
    } else {
        match spec_decode_packet(rest) {
            Err(e) => Err(e),
            Ok(p) => match spec_decode_packets_rec(
                rest.skip(PACKET_WIRE_SIZE as int),
                (count - 1) as nat,
            ) {
                Err(e) => Err(e),
                Ok(tail) => Ok(seq![p] + tail),
            },
        }
    }
}

/// What decoding a batch yields: the count prefix, then that many packets.
/// Bytes after the last packet are ignored.
pub open spec fn spec_decode_packets(input: Seq<u8>) -> Result<Seq<(Seq<u8>, u64)>, DecodeError> {
    if input.len() < 8 {
        Err(DecodeError::Truncated)
    } else {
        spec_decode_packets_rec(
            input.skip(8),
            spec_u64_from_le_bytes(input.subrange(0, 8)) as nat,
        )
    }
}

/// The buffer-and-flags views of a sequence of packets.
pub open spec fn packet_views(packets: Seq<Packet>) -> Seq<(Seq<u8>, u64)> {
    packets.map_values(|p: Packet| p.parts())
}

proof fn lemma_encode_packets_rec_push(packets: Seq<(Seq<u8>, u64)>, p: (Seq<u8>, u64))
    ensures
        spec_encode_packets_rec(packets.push(p)) == spec_encode_packets_rec(packets)
            + spec_encode_packet(p.0, p.1),
    decreases packets.len(),
{
    if packets.len() == 0 {
        let single = packets.push(p);
        assert(single.skip(1) =~= Seq::<(Seq<u8>, u64)>::empty());
        assert(single[0] == p);
        assert(spec_encode_packets_rec(Seq::<(Seq<u8>, u64)>::empty()) == Seq::<u8>::empty());
        assert(spec_encode_packets_rec(single) == spec_encode_packet(p.0, p.1)
            + spec_encode_packets_rec(single.skip(1)));
        assert(spec_encode_packet(p.0, p.1) + Seq::<u8>::empty() =~= spec_encode_packet(p.0, p.1));
        assert(Seq::<u8>::empty() + spec_encode_packet(p.0, p.1) =~= spec_encode_packet(p.0, p.1));
    } else {
        lemma_encode_packets_rec_push(packets.skip(1), p);
        let extended = packets.push(p);
        assert(extended.skip(1) =~= packets.skip(1).push(p));
        assert(extended[0] == packets[0]);
        assert(spec_encode_packets_rec(extended) == spec_encode_packet(packets[0].0, packets[0].1)
            + spec_encode_packets_rec(extended.skip(1)));
        assert(spec_encode_packets_rec(packets) == spec_encode_packet(packets[0].0, packets[0].1)
            + spec_encode_packets_rec(packets.skip(1)));
        assert(spec_encode_packet(packets[0].0, packets[0].1) + (spec_encode_packets_rec(
            packets.skip(1),
        ) + spec_encode_packet(p.0, p.1)) =~= (spec_encode_packet(packets[0].0, packets[0].1)
            + spec_encode_packets_rec(packets.skip(1))) + spec_encode_packet(p.0, p.1));
    }
}

/// Encode a batch of packets as its wire form.
pub fn encode_packets(packets: &Vec<Packet>) -> (out: Vec<u8>)
    requires
        forall|i: int| 0 <= i < packets@.len() ==> (#[trigger] packets@[i]).wf(),
    ensures
        out@ == spec_encode_packets(packet_views(packets@)),
{
    let ghost views = packet_views(packets@);
    let mut out = u64_to_le_bytes(packets.len() as u64);
    let ghost prefix = out@;
    let mut idx: usize = 0;
    while idx < packets.len()
        invariant
            idx <= packets@.len(),
            views == packet_views(packets@),
            views.len() == packets@.len(),
            forall|i: int| 0 <= i < packets@.len() ==> (#[trigger] packets@[i]).wf(),
            prefix == spec_u64_to_le_bytes(packets@.len() as u64),
            out@ == prefix + spec_encode_packets_rec(views.take(idx as int)),
        decreases packets@.len() - idx,
    {
        let mut piece = packets[idx].encode();
        out.append(&mut piece);
        proof {
            let pv = views[idx as int];
            assert(pv == packets@[idx as int].parts());
            lemma_encode_packets_rec_push(views.take(idx as int), pv);
            assert(views.take(idx as int).push(pv) =~= views.take(idx as int + 1));
            assert((prefix + spec_encode_packets_rec(views.take(idx as int))) + spec_encode_packet(
                pv.0,
                pv.1,
            ) =~= prefix + spec_encode_packets_rec(views.take(idx as int + 1)));
        }
        idx += 1;
    }
    proof {
        assert(views.take(0) =~= Seq::<(Seq<u8>, u64)>::empty());
        assert(views.take(views.len() as int) =~= views);
    }
    out
}

/// Decode a batch of packets: the count prefix, then that many packets.
/// Bytes after the last packet are ignored.
pub fn decode_packets(input: &[u8]) -> (r: Result<Vec<Packet>, DecodeError>)
    ensures
        match r {
            Ok(ps) => {
                &&& forall|i: int| 0 <= i < ps@.len() ==> (#[trigger] ps@[i]).wf()
                &&& spec_decode_packets(input@) == Ok::<Seq<(Seq<u8>, u64)>, DecodeError>(
                    packet_views(ps@),
                )
            },
            Err(e) => spec_decode_packets(input@) == Err::<Seq<(Seq<u8>, u64)>, DecodeError>(e),
        },
{
    if input.len() < 8 {
        return Err(DecodeError::Truncated);
    }
    let count = u64_from_le_bytes(slice_subrange(input, 0, 8));
    let ghost total: nat = count as nat;
    let mut result: Vec<Packet> = Vec::new();
    let mut offset: usize = 8;
    let mut done: u64 = 0;
    proof {
        assert(packet_views(result@) =~= Seq::<(Seq<u8>, u64)>::empty());
        let inner0 = spec_decode_packets_rec(input@.skip(8), total);
        if inner0 is Ok {
            assert(packet_views(result@) + inner0->Ok_0 =~= inner0->Ok_0);
        }
    }
    while done < count
        invariant
            done <= count,
            8 <= offset <= input@.len(),
            input@.len() <= usize::MAX,
            total == count as nat,
            spec_u64_from_le_bytes(input@.subrange(0, 8)) == count,
            result@.len() == done as nat,
            forall|i: int| 0 <= i < result@.len() ==> (#[trigger] result@[i]).wf(),
            spec_decode_packets_rec(input@.skip(8), total) == (match spec_decode_packets_rec(
                input@.skip(offset as int),
                (count - done) as nat,
            ) {
                Ok(tail) => Ok::<Seq<(Seq<u8>, u64)>, DecodeError>(packet_views(result@) + tail),
                Err(e) => Err::<Seq<(Seq<u8>, u64)>, DecodeError>(e),
            }),
        decreases count - done,
    {
        let rest = slice_subrange(input, offset, input.len());
        proof {
            assert(rest@ =~= input@.skip(offset as int));
        }
        match Packet::decode(rest) {
            Err(e) => {
                proof {
                    assert(spec_decode_packets_rec(input@.skip(offset as int), (count - done) as nat)
                        == Err::<Seq<(Seq<u8>, u64)>, DecodeError>(e));
                }
                return Err(e);
            },
            Ok(p) => {
                proof {
                    assert(rest@.len() >= PACKET_WIRE_SIZE);
                }
                let ghost acc_old = packet_views(result@);
                let ghost rest_old = input@.skip(offset as int);
                let ghost cd: nat = (count - done) as nat;
                result.push(p);
                offset = offset + PACKET_WIRE_SIZE;
                done = done + 1;
                proof {
                    let pv = p.parts();
                    assert(packet_views(result@) =~= acc_old.push(pv));
                    assert(rest_old.skip(PACKET_WIRE_SIZE as int) =~= input@.skip(offset as int));
                    assert(spec_decode_packet(rest_old) == Ok::<(Seq<u8>, u64), DecodeError>(pv));
                    let inner = spec_decode_packets_rec(
                        input@.skip(offset as int),
                        (count - done) as nat,
                    );
                    if inner is Ok {
                        let tail = inner->Ok_0;
                        assert(spec_decode_packets_rec(rest_old, cd) == Ok::<
                            Seq<(Seq<u8>, u64)>,
                            DecodeError,
                        >(seq![pv] + tail));
                        assert(acc_old + (seq![pv] + tail) =~= acc_old.push(pv) + tail);
                    }
                }
            },
        }
    }
    proof {
        assert(packet_views(result@) + Seq::<(Seq<u8>, u64)>::empty() =~= packet_views(result@));
    }
    Ok(result)
}

proof fn lemma_packets_rec_round_trip(views: Seq<(Seq<u8>, u64)>)
    requires
        forall|i: int| 0 <= i < views.len() ==> (#[trigger] views[i]).0.len() == PACKET_DATA_SIZE,
    ensures
        spec_decode_packets_rec(spec_encode_packets_rec(views), views.len()) == Ok::<
            Seq<(Seq<u8>, u64)>,
            DecodeError,
        >(views),
    decreases views.len(),
{
    lemma_auto_spec_u64_to_from_le_bytes();
    if views.len() == 0 {
        assert(views =~= Seq::<(Seq<u8>, u64)>::empty());
    } else {
        let w = spec_encode_packets_rec(views);
        let first = views[0];
        let rest_w = spec_encode_packets_rec(views.skip(1));
        assert(w == spec_encode_packet(first.0, first.1) + rest_w);
        lemma_packet_decode_prefix(first.0, first.1, rest_w);
        assert((first.0, first.1) == first);
        assert(spec_decode_packet(w) == Ok::<(Seq<u8>, u64), DecodeError>(first));
        assert(spec_encode_packet(first.0, first.1).len() == PACKET_WIRE_SIZE);
        assert(w.skip(PACKET_WIRE_SIZE as int) =~= rest_w);
        lemma_packets_rec_round_trip(views.skip(1));
        assert(views.skip(1).len() == views.len() - 1);
        assert(spec_decode_packets_rec(w.skip(PACKET_WIRE_SIZE as int), (views.len() - 1) as nat)
            == Ok::<Seq<(Seq<u8>, u64)>, DecodeError>(views.skip(1)));
        assert(spec_decode_packets_rec(w, views.len()) == Ok::<Seq<(Seq<u8>, u64)>, DecodeError>(
            seq![first] + views.skip(1),
        ));
        assert(seq![first] + views.skip(1) =~= views);
    }
}

/// Batch round trip: decoding the wire form of a batch of packets yields the
/// same packets, in the same order. The 8-byte count prefix is what bounds
/// the batch sizes the wire form can carry.
pub proof fn lemma_packets_round_trip(views: Seq<(Seq<u8>, u64)>)
    requires
        views.len() <= u64::MAX,
        forall|i: int| 0 <= i < views.len() ==> (#[trigger] views[i]).0.len() == PACKET_DATA_SIZE,
    ensures
        spec_decode_packets(spec_encode_packets(views)) == Ok::<Seq<(Seq<u8>, u64)>, DecodeError>(
            views,
        ),
{
    lemma_auto_spec_u64_to_from_le_bytes();
    let w = spec_encode_packets(views);
    assert(w.subrange(0, 8) =~= spec_u64_to_le_bytes(views.len() as u64));
    assert(w.skip(8) =~= spec_encode_packets_rec(views));
    lemma_packets_rec_round_trip(views);
}

/// Round trip at the packet level, with any trailing bytes after the wire
/// form: decoding yields the packet's buffer and flags again.
pub proof fn lemma_packet_decode_prefix(buffer: Seq<u8>, flags: u64, extra: Seq<u8>)
    requires
        buffer.len() == PACKET_DATA_SIZE,
    ensures
        spec_decode_packet(spec_encode_packet(buffer, flags) + extra) == Ok::<
            (Seq<u8>, u64),
            DecodeError,
        >((buffer, flags)),
{
    lemma_auto_spec_u64_to_from_le_bytes();
    let w = spec_encode_packet(buffer, flags) + extra;
    assert(w.subrange(0, 8) =~= spec_u64_to_le_bytes(buffer.len() as u64));
    assert(w.subrange(8, 8 + PACKET_DATA_SIZE as int) =~= buffer);
    assert(w.subrange(8 + PACKET_DATA_SIZE as int, PACKET_WIRE_SIZE as int)
        =~= spec_u64_to_le_bytes(flags));
}

/// Round trip at the packet level: decoding the wire form of a packet yields
/// its buffer and flags again.
pub proof fn lemma_packet_round_trip(buffer: Seq<u8>, flags: u64)
    requires
        buffer.len() == PACKET_DATA_SIZE,
    ensures
        spec_decode_packet(spec_encode_packet(buffer, flags)) == Ok::<
            (Seq<u8>, u64),
            DecodeError,
        >((buffer, flags)),
{
    lemma_packet_decode_prefix(buffer, flags, Seq::<u8>::empty());
    assert(spec_encode_packet(buffer, flags) + Seq::<u8>::empty() =~= spec_encode_packet(
        buffer,
        flags,
    ));
}

} // verus!
