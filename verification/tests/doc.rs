use nitro::codec_v1::EncoderV1;
use nitro::decoder::{Decode, DecodeContext};
use nitro::doc::DocId;
use nitro::encoder::{Encode, EncodeContext};

const BYTES: [u8; 16] = [
    0xa1, 0xa2, 0xa3, 0xa4, 0xb1, 0xb2, 0xc1, 0xc2, 0xd1, 0xd2, 0xd3, 0xd4, 0xd5, 0xd6, 0xd7, 0xd8,
];

#[test]
fn doc_id_text_is_hyphenated_lowercase() {
    let id = DocId::from_bytes(&BYTES);
    assert_eq!(id.to_string(), "a1a2a3a4-b1b2-c1c2-d1d2-d3d4d5d6d7d8");
    assert_eq!(id.as_bytes(), BYTES);
}

#[test]
fn doc_id_text_reads_back() {
    let id = DocId::from_bytes(&BYTES);
    assert_eq!(DocId::from_str(&id.to_string()), Ok(id));
    assert_eq!(DocId::from_str("A1A2A3A4B1B2C1C2D1D2D3D4D5D6D7D8"), Ok(id));
    assert!(DocId::from_str("not an id").is_err());
}

#[test]
fn doc_id_new_is_version_four() {
    let a = DocId::new();
    let b = DocId::new();
    assert_eq!(a.as_bytes()[6] >> 4, 4);
    assert_eq!(a.as_bytes()[8] >> 6, 2);
    assert_ne!(a, b);
    assert_eq!(DocId::from_uuid(a.as_uuid()), a);
}

#[test]
fn doc_id_reads_back_from_bytes() {
    let id = DocId::from_bytes(&BYTES);
    let mut e = EncoderV1::new();
    id.encode(&mut e, &mut EncodeContext::default());
    let mut d = e.decoder();
    assert_eq!(DocId::decode(&mut d, &DecodeContext::default()), Ok(id));
}

#[test]
fn doc_id_of_a_uuid_holds_its_bytes() {
    let u = uuid::Uuid::from_bytes(BYTES);
    let id = DocId::from_uuid(u);
    assert_eq!(id.as_bytes(), BYTES);
    assert_eq!(id.as_uuid(), u);
}
