use bytes::Bytes;
use rtun::proto::{
    decode_datagram, decode_target_port, encode_datagram, encode_target_port, DATAGRAM_HEADER,
};

#[test]
fn datagram_round_trips_and_rejects_runts() {
    let dg = encode_datagram(7, 51820, b"payload");
    assert_eq!(decode_datagram(&dg), Some((7, 51820, Bytes::from_static(b"payload"))));
    // an empty payload is legal: a zero-length UDP datagram is a real thing
    assert_eq!(decode_datagram(&encode_datagram(1, 2, b"")).unwrap().2.len(), 0);
    for runt in [0usize, 1, 5] {
        assert!(decode_datagram(&Bytes::from(vec![0u8; runt])).is_none(), "{runt} bytes");
    }
}

#[test]
fn the_header_is_big_endian() {
    let dg = encode_datagram(0x0102_0304, 0xA0B0, &[9]);
    assert_eq!(&dg[..], &[1, 2, 3, 4, 0xA0, 0xB0, 9]);
    assert_eq!(dg.len(), DATAGRAM_HEADER + 1);
    assert_eq!(
        decode_datagram(&Bytes::from_static(&[0xff, 0, 0, 1, 0, 22])),
        Some((0xff00_0001, 22, Bytes::new()))
    );
}

#[test]
fn the_payload_shares_the_buffer() {
    let dg = encode_datagram(1, 2, b"payload");
    let (_, _, payload) = decode_datagram(&dg).unwrap();
    assert_eq!(payload.as_ptr(), dg[DATAGRAM_HEADER..].as_ptr());
}

#[test]
fn a_stream_opens_with_its_port() {
    assert_eq!(encode_target_port(0x1234), [0x12, 0x34]);
    for port in [0u16, 1, 22, 255, 256, 65535] {
        assert_eq!(decode_target_port(encode_target_port(port)), port);
    }
}

#[test]
fn the_protocol_has_a_name() {
    assert_eq!(rtun::ALPN.as_bytes(), b"rtun/0");
}
