use nitro::change::{ChangeId, ChangeStore, ClientChangeStore};
use nitro::codec::decoder::Decoder as OldDecoder;
use nitro::codec::encoder::Encoder as OldEncoder;
use nitro::codec::v1::{DecoderV1 as OldDecoderV1, EncoderV1 as OldEncoderV1};
use nitro::codec_v1::{DecoderV1, EncoderV1};
use nitro::decoder::{Decode, DecodeContext, Decoder};
use nitro::delete::DeleteItem;
use nitro::encoder::{Encode, EncodeContext, Encoder};
use nitro::id::{Id, IdRange};

#[test]
fn v1_test_encoder_v1() {
    let mut encoder = OldEncoderV1::new(0);
    encoder.u8(1);
    encoder.u32(2);
    encoder.u64(3);
    encoder.string("hello");
    encoder.bytes(&[1, 2, 3, 4]);

    let buf = encoder.buffer();
    let mut decoder = OldDecoderV1::new(buf);
    assert_eq!(decoder.u8().unwrap(), 1);
    assert_eq!(decoder.u32().unwrap(), 2);
    assert_eq!(decoder.u64().unwrap(), 3);
    assert_eq!(decoder.string().unwrap(), "hello");
    assert_eq!(decoder.bytes().unwrap(), vec![1, 2, 3, 4]);
}

#[test]
fn codec_v1_test_encoder_v1() {
    let mut encoder = EncoderV1::with_capacity(0);
    encoder.u8(1);
    encoder.u32(2);
    encoder.u64(3);
    encoder.string("hello");
    encoder.bytes(&[1, 2, 3, 4]);

    let buf = encoder.buffer();
    let mut decoder = DecoderV1::new(buf);
    assert_eq!(decoder.u8().unwrap(), 1);
    assert_eq!(decoder.u32().unwrap(), 2);
    assert_eq!(decoder.u64().unwrap(), 3);
    assert_eq!(decoder.string().unwrap(), "hello");
    assert_eq!(decoder.bytes().unwrap(), vec![1, 2, 3, 4]);
}

fn same_delete(a: &DeleteItem, b: &DeleteItem) -> bool {
    a.id.client == b.id.client
        && a.id.clock == b.id.clock
        && a.range.client == b.range.client
        && a.range.start == b.range.start
        && a.range.end == b.range.end
}

#[test]
fn test_encode_decode_delete_items() {
    let d1 = DeleteItem::new(Id::new(1, 1), IdRange::new(1, 10, 11));
    let d2 = DeleteItem::new(Id::new(2, 2), IdRange::new(2, 20, 21));
    let d3 = DeleteItem::new(Id::new(3, 3), IdRange::new(3, 30, 31));

    let mut e = EncoderV1::new();
    d1.encode(&mut e, &mut EncodeContext::default());
    d2.encode(&mut e, &mut EncodeContext::default());
    d3.encode(&mut e, &mut EncodeContext::default());

    let mut d = e.decoder();

    let dd1 = DeleteItem::decode(&mut d, &DecodeContext::default()).unwrap();
    let dd2 = DeleteItem::decode(&mut d, &DecodeContext::default()).unwrap();
    let dd3 = DeleteItem::decode(&mut d, &DecodeContext::default()).unwrap();

    assert!(same_delete(&d1, &dd1));
    assert!(same_delete(&d2, &dd2));
    assert!(same_delete(&d3, &dd3));
}

#[test]
fn header_is_the_version_byte() {
    let e = EncoderV1::new();
    assert_eq!(e.buffer(), vec![1]);
    assert_eq!(e.size(), 1);
    let old = OldEncoderV1::new(4);
    assert_eq!(old.size(), 1);
}

#[test]
fn integers_are_big_endian() {
    let mut e = EncoderV1::new();
    e.u16(0x0102);
    e.u32(0x0304_0506);
    e.u64(0x0708_090a_0b0c_0d0e);
    assert_eq!(
        e.buffer(),
        vec![1, 1, 2, 3, 4, 5, 6, 7, 8, 9, 10, 11, 12, 13, 14]
    );
    let mut d = e.decoder();
    assert_eq!(d.u16().unwrap(), 0x0102);
    assert_eq!(d.u32().unwrap(), 0x0304_0506);
    assert_eq!(d.u64().unwrap(), 0x0708_090a_0b0c_0d0e);
}

#[test]
fn strings_and_bytes_carry_their_length() {
    let mut e = EncoderV1::new();
    e.string("hé");
    e.bytes(&[9, 8]);
    e.slice(&[7]);
    assert_eq!(e.buffer(), vec![1, 0, 0, 0, 3, 0x68, 0xc3, 0xa9, 0, 0, 0, 2, 9, 8, 7]);
    let mut d = e.decoder();
    assert_eq!(d.string().unwrap(), "hé");
    assert_eq!(d.bytes().unwrap(), vec![9, 8]);
    assert_eq!(d.slice(1).unwrap(), vec![7]);
}

#[test]
fn invalid_utf8_is_an_error() {
    let mut e = EncoderV1::new();
    e.bytes(&[0xff, 0xfe]);
    let mut d = e.decoder();
    assert!(d.string().is_err());
    // only the length was read; the two bytes are still there
    assert_eq!(d.slice(2).unwrap(), vec![0xff, 0xfe]);
}

#[test]
fn uuid_round_trip() {
    let id: Vec<u8> = (0u8..16).collect();
    let mut e = EncoderV1::new();
    e.uuid(&id);
    let mut d = e.decoder();
    assert_eq!(d.uuid().unwrap().to_vec(), id);
}

#[test]
fn ranges_are_written_with_their_size() {
    let mut e = EncoderV1::new();
    IdRange::new(7, 10, 14).encode(&mut e, &mut EncodeContext::new(1));
    assert_eq!(e.buffer(), vec![1, 0, 0, 0, 7, 0, 0, 0, 10, 0, 0, 0, 5]);
    let mut d = e.decoder();
    let r = IdRange::decode(&mut d, &DecodeContext::new(1)).unwrap();
    assert_eq!((r.client, r.start, r.end), (7, 10, 14));
}

#[test]
fn lists_and_options_of_changes() {
    let list = vec![ChangeId::new(1, 0, 3), ChangeId::new(2, 4, 9)];
    let mut e = EncoderV1::new();
    list.encode(&mut e, &mut EncodeContext::default());
    let mut d = e.decoder();
    let back: Vec<ChangeId> = Vec::decode(&mut d, &DecodeContext::default()).unwrap();
    assert_eq!(back, list);

    // an option is read with a flag byte in front of the value
    let mut e = EncoderV1::new();
    e.u8(1);
    ChangeId::new(3, 1, 2).encode(&mut e, &mut EncodeContext::default());
    e.u8(0);
    let mut d = e.decoder();
    let some: Option<ChangeId> = Option::decode(&mut d, &DecodeContext::default()).unwrap();
    let none: Option<ChangeId> = Option::decode(&mut d, &DecodeContext::default()).unwrap();
    assert_eq!(some, Some(ChangeId::new(3, 1, 2)));
    assert_eq!(none, None);
}

#[test]
fn strings_and_flags_decode() {
    let mut e = EncoderV1::new();
    String::from("abc").encode(&mut e, &mut EncodeContext::default());
    e.u8(2);
    e.u8(0);
    let mut d = e.decoder();
    assert_eq!(String::decode(&mut d, &DecodeContext::default()).unwrap(), "abc");
    assert!(bool::decode(&mut d, &DecodeContext::default()).unwrap());
    assert!(!bool::decode(&mut d, &DecodeContext::default()).unwrap());
}

#[test]
fn client_change_store_reads_back_in_order() {
    let mut s = ClientChangeStore::new();
    s.insert(ChangeId::new(1, 4, 6));
    s.insert(ChangeId::new(1, 0, 2));
    let mut e = EncoderV1::new();
    s.encode(&mut e, &mut EncodeContext::default());
    let mut d = e.decoder();
    let back = ClientChangeStore::decode(&mut d, &DecodeContext::default()).unwrap();
    assert_eq!(back, s);
    assert_eq!(back.iter(), &[ChangeId::new(1, 0, 2), ChangeId::new(1, 4, 6)][..]);
}

#[test]
fn client_change_store_refuses_a_change_ending_before_it_starts() {
    let mut e = EncoderV1::new();
    e.u32(1);
    ChangeId::new(1, 5, 2).encode(&mut e, &mut EncodeContext::default());
    let mut d = e.decoder();
    assert!(ClientChangeStore::decode(&mut d, &DecodeContext::default()).is_err());
}

#[test]
fn change_store_reads_back_with_one_change_per_client() {
    let mut cs = ChangeStore::new();
    cs.insert(ChangeId::new(1, 0, 3));
    cs.insert(ChangeId::new(2, 5, 5));
    let mut e = EncoderV1::new();
    cs.encode(&mut e, &mut EncodeContext::default());
    let mut d = e.decoder();
    let back = ChangeStore::decode(&mut d, &DecodeContext::default()).unwrap();
    assert_eq!(back.size(), 2);
    assert_eq!(back.get(&Id::new(1, 2)), Some(&ChangeId::new(1, 0, 3)));
    assert_eq!(back.get(&Id::new(2, 5)), Some(&ChangeId::new(2, 5, 5)));
    assert_eq!(back.get(&Id::new(2, 6)), None);
}
