use packet_codec::codec::DecodeError;
use packet_codec::packet::{
    decode_packets, encode_packets, Packet, PACKET_DATA_SIZE, PACKET_WIRE_SIZE,
};

fn patterned_packet(seed: u8, flags: u64) -> Packet {
    let mut buffer = Vec::with_capacity(PACKET_DATA_SIZE);
    for i in 0..PACKET_DATA_SIZE {
        buffer.push(seed.wrapping_add((i % 251) as u8));
    }
    Packet::new(buffer, flags).unwrap()
}

#[test]
fn data_size_is_mtu_less_headers() {
    assert_eq!(PACKET_DATA_SIZE, 1232);
    assert_eq!(PACKET_WIRE_SIZE, 1248);
}

#[test]
fn default_packet_is_zeroed_with_flags_three() {
    let p = Packet::default();
    assert_eq!(p.flags, 3);
    assert_eq!(p.buffer.bytes, vec![0u8; PACKET_DATA_SIZE]);
}

#[test]
fn new_rejects_wrong_buffer_length() {
    assert!(Packet::new(vec![0u8; PACKET_DATA_SIZE - 1], 0).is_none());
    assert!(Packet::new(vec![0u8; PACKET_DATA_SIZE + 1], 0).is_none());
    assert!(Packet::new(vec![0u8; PACKET_DATA_SIZE], 0).is_some());
}

#[test]
fn packet_wire_form_layout() {
    let p = Packet::default();
    let wire = p.encode();
    assert_eq!(wire.len(), PACKET_WIRE_SIZE);
    // buffer length prefix
    assert_eq!(&wire[0..8], &(PACKET_DATA_SIZE as u64).to_le_bytes());
    // zeroed content
    assert_eq!(&wire[8..8 + PACKET_DATA_SIZE], &vec![0u8; PACKET_DATA_SIZE][..]);
    // flags as trailing little-endian word
    assert_eq!(&wire[8 + PACKET_DATA_SIZE..], &3u64.to_le_bytes());
}

#[test]
fn packet_round_trip() {
    let p = patterned_packet(7, 0xdead_beef_0bad_f00d);
    let wire = p.encode();
    let back = Packet::decode(&wire).unwrap();
    assert_eq!(back.buffer.bytes, p.buffer.bytes);
    assert_eq!(back.flags, p.flags);
}

#[test]
fn packet_decode_truncated() {
    let p = Packet::default();
    let wire = p.encode();
    assert_eq!(
        Packet::decode(&wire[..wire.len() - 1]).unwrap_err(),
        DecodeError::Truncated
    );
    assert_eq!(Packet::decode(&wire[..5]).unwrap_err(), DecodeError::Truncated);
}

#[test]
fn packet_decode_corrupted_prefix() {
    let p = Packet::default();
    let mut wire = p.encode();
    wire[0] = wire[0].wrapping_add(1);
    assert_eq!(Packet::decode(&wire).unwrap_err(), DecodeError::LengthMismatch);
}

#[test]
fn batch_round_trip() {
    let batch = vec![
        patterned_packet(1, 3),
        patterned_packet(2, 0),
        patterned_packet(3, u64::MAX),
    ];
    let wire = encode_packets(&batch);
    assert_eq!(wire.len(), 8 + 3 * PACKET_WIRE_SIZE);
    assert_eq!(&wire[0..8], &3u64.to_le_bytes());
    let back = decode_packets(&wire).unwrap();
    assert_eq!(back.len(), 3);
    for (a, b) in batch.iter().zip(back.iter()) {
        assert_eq!(a.buffer.bytes, b.buffer.bytes);
        assert_eq!(a.flags, b.flags);
    }
}

#[test]
fn empty_batch_wire_form() {
    let wire = encode_packets(&Vec::new());
    assert_eq!(wire, vec![0u8; 8]);
    assert_eq!(decode_packets(&wire).unwrap().len(), 0);
}

#[test]
fn batch_count_larger_than_contents_is_truncated() {
    let batch = vec![Packet::default()];
    let mut wire = encode_packets(&batch);
    // declare two packets while only one follows
    wire[0] = 2;
    assert_eq!(decode_packets(&wire).unwrap_err(), DecodeError::Truncated);
}

#[test]
fn batch_with_corrupted_inner_prefix_is_mismatch() {
    let batch = vec![Packet::default(), Packet::default()];
    let mut wire = encode_packets(&batch);
    // corrupt the second packet's buffer length prefix
    wire[8 + PACKET_WIRE_SIZE] = 0xff;
    assert_eq!(decode_packets(&wire).unwrap_err(), DecodeError::LengthMismatch);
}
