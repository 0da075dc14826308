use nitro::client::Client;
use nitro::codec_v1::EncoderV1;
use nitro::decoder::{Decode, DecodeContext};
use nitro::encoder::{Encode, EncodeContext};

const BYTES: [u8; 16] = [
    0xa1, 0xa2, 0xa3, 0xa4, 0xb1, 0xb2, 0xc1, 0xc2, 0xd1, 0xd2, 0xd3, 0xd4, 0xd5, 0xd6, 0xd7, 0xd8,
];

#[test]
fn client_from_bytes_keeps_the_bytes() {
    let c = Client::from_bytes(&BYTES);
    assert_eq!(c.as_bytes(), BYTES.to_vec());
    assert_eq!(c.to_string(), "a1a2a3a4-b1b2-c1c2-d1d2-d3d4d5d6d7d8");
    assert_eq!(c.as_uuid(), uuid::Uuid::from_bytes(BYTES));
    assert_eq!(Client::from_uuid(c.as_uuid()), c);
}

#[test]
fn client_default_is_a_random_version_four_uuid() {
    let a = Client::default();
    let b = Client::default();
    assert_eq!(a.bytes[6] >> 4, 4);
    assert_eq!(a.bytes[8] >> 6, 2);
    assert_ne!(a, b);
}

#[test]
fn client_reads_back_from_bytes() {
    let c = Client::from_bytes(&BYTES);
    let mut e = EncoderV1::new();
    c.encode(&mut e, &mut EncodeContext::default());
    let mut d = e.decoder();
    assert_eq!(Client::decode(&mut d, &DecodeContext::default()), Ok(c));
}
