//! The wire form is chosen to match what bincode produces, with its default
//! options, for a record whose byte field goes through serde_bytes: a u64
//! little-endian length prefix, then the raw bytes. These tests hold the
//! library's output against the real serializer.

use packet_codec::codec::encode;
use packet_codec::packet::{encode_packets, Packet, PACKET_DATA_SIZE};
use serde_bytes::ByteBuf;

#[test]
fn prefix_matches_bincode_u64_encoding() {
    let wire = encode(&[1, 2, 3, 4]);
    let prefix = bincode::serialize(&4u64).unwrap();
    assert_eq!(&wire[0..8], &prefix[..]);
}

#[test]
fn encode_matches_bincode_of_serde_bytes() {
    for n in [0usize, 1, 4, 32, 1000] {
        let mut data = Vec::with_capacity(n);
        for i in 0..n {
            data.push((i * 7 % 256) as u8);
        }
        let wire = encode(&data);
        let reference = bincode::serialize(&ByteBuf::from(data)).unwrap();
        assert_eq!(wire, reference);
    }
}

#[test]
fn packet_matches_bincode_of_bytes_and_flags() {
    let p = Packet::default();
    let wire = p.encode();
    let reference =
        bincode::serialize(&(ByteBuf::from(vec![0u8; PACKET_DATA_SIZE]), 3u64)).unwrap();
    assert_eq!(wire, reference);
}

#[test]
fn batch_matches_bincode_of_vec() {
    let batch = vec![Packet::default(), Packet::default()];
    let wire = encode_packets(&batch);
    let element = (ByteBuf::from(vec![0u8; PACKET_DATA_SIZE]), 3u64);
    let reference = bincode::serialize(&vec![element.clone(), element]).unwrap();
    assert_eq!(wire, reference);
}

#[test]
fn decode_accepts_bincode_output() {
    let reference = bincode::serialize(&ByteBuf::from(vec![9u8, 8, 7])).unwrap();
    assert_eq!(
        packet_codec::codec::decode(&reference, 3),
        Ok(vec![9u8, 8, 7])
    );
}
