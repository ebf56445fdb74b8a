use aoc25::ping::{build_echo_request, icmp_checksum};

#[test]
fn checksum_even_length_roundtrip() {
    // build packet with checksum zeroed, compute checksum, insert and verify whole-packet checksum == 0
    let identifier = 0x1234u16;
    let sequence = 0x0001u16;
    let payload = b"abcd"; // even length payload
    let mut packet = vec![8u8, 0u8, 0u8, 0u8];
    packet.extend_from_slice(&identifier.to_be_bytes());
    packet.extend_from_slice(&sequence.to_be_bytes());
    packet.extend_from_slice(payload);

    let checksum = icmp_checksum(&packet);
    packet[2] = (checksum >> 8) as u8;
    packet[3] = (checksum & 0xff) as u8;

    // recomputing checksum over packet with checksum field set should yield 0
    assert_eq!(icmp_checksum(&packet), 0u16);
}

#[test]
fn checksum_odd_length_roundtrip() {
    let identifier = 0x4321u16;
    let sequence = 0x0002u16;
    let payload = b"abc"; // odd length payload
    let mut packet = vec![8u8, 0u8, 0u8, 0u8];
    packet.extend_from_slice(&identifier.to_be_bytes());
    packet.extend_from_slice(&sequence.to_be_bytes());
    packet.extend_from_slice(payload);

    let checksum = icmp_checksum(&packet);
    packet[2] = (checksum >> 8) as u8;
    packet[3] = (checksum & 0xff) as u8;

    // recomputing checksum over packet with checksum field set should yield 0
    assert_eq!(icmp_checksum(&packet), 0u16);
}

#[test]
fn build_echo_request_sets_checksum() {
    let id = 0x1111u16;
    let seq = 0x2222u16;
    let payload = b"pingpayload";
    let packet = build_echo_request(id, seq, payload);
    // packet[2..4] should be non-zero for non-empty payload
    assert!(packet[2] != 0 || packet[3] != 0);
    // recomputing checksum should be zero
    assert_eq!(icmp_checksum(&packet), 0u16);
    // identifier and sequence preserved
    assert_eq!(u16::from_be_bytes([packet[4], packet[5]]), id);
    assert_eq!(u16::from_be_bytes([packet[6], packet[7]]), seq);
}

#[test]
fn checksum_known_values() {
    assert_eq!(icmp_checksum(&[]), 0xffff);
    assert_eq!(icmp_checksum(&[0x00, 0x01, 0xf2, 0x03]), 0x0dfb);
    // a carry out of the top is folded back in
    assert_eq!(icmp_checksum(&[0xff, 0xff, 0x00, 0x02]), 0xfffd);
    // an odd last byte is the high half of a word
    assert_eq!(icmp_checksum(&[0x12]), 0xedff);
}
