use nitro::any::Any;
use nitro::codec_v1::EncoderV1;
use nitro::decoder::{Decode, DecodeContext};
use nitro::encoder::{Encode, EncodeContext, Encoder};

fn read_back(a: &Any) -> Any {
    let mut e = EncoderV1::new();
    a.encode(&mut e, &mut EncodeContext::default());
    e.u8(0x01);
    let mut d = e.decoder();
    Any::decode(&mut d, &DecodeContext::default()).unwrap()
}

#[test]
fn any_flags_read_back() {
    assert_eq!(read_back(&Any::Null), Any::Null);
    assert_eq!(read_back(&Any::True), Any::True);
    assert_eq!(read_back(&Any::False), Any::False);
}

#[test]
fn any_floats_read_back_as_null() {
    assert_eq!(read_back(&Any::F64(0x4000_0000_0000_0000)), Any::Null);
}

#[test]
fn any_kinds_without_a_tag_write_nothing() {
    // nothing is written for the number, so the byte after it is read in its place
    assert_eq!(read_back(&Any::U32(7)), Any::True);
    assert_eq!(Any::default(), Any::Null);
}
