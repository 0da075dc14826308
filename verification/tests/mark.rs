use nitro::codec_v1::EncoderV1;
use nitro::encoder::{Encode, EncodeContext, Encoder};
use nitro::id::IdRange;
use nitro::mark::{Mark, MarkContent, MarkValue};

#[test]
fn mark_keys_name_the_mark() {
    let range = IdRange::new(1, 0, 3);
    assert_eq!(MarkContent::new(range, Mark::Bold).get_key(), "bold");
    assert_eq!(MarkContent::new(range, Mark::StrikeThrough).get_key(), "strikethrough");
    assert_eq!(MarkContent::new(range, Mark::Color("red".to_string())).get_key(), "color");
    assert_eq!(
        MarkContent::new(range, Mark::Custom("comment".to_string(), "{}".to_string())).get_key(),
        "comment"
    );
    assert_eq!(MarkContent::new(range, Mark::NoMark).get_key(), "_");
    assert_eq!(MarkContent::new(range, Mark::Id(7)).get_key(), "id");
}

#[test]
fn mark_split_keeps_the_mark_on_both_halves() {
    let mark = MarkContent::new(IdRange::new(2, 10, 19), Mark::Link("x".to_string()));
    assert_eq!(mark.size(), 10);
    let (left, right) = mark.split(4);
    assert_eq!((left.range.start, left.range.end), (10, 13));
    assert_eq!((right.range.start, right.range.end), (14, 19));
    assert_eq!(left.data, Mark::Link("x".to_string()));
    assert_eq!(right.data, Mark::Link("x".to_string()));
    assert_eq!(left.size() + right.size(), 10);
}

#[test]
fn mark_is_written_as_its_range() {
    let mark = MarkContent::new(IdRange::new(1, 2, 4), Mark::Italic);
    let mut encoder = EncoderV1::with_capacity(0);
    mark.encode(&mut encoder, &mut EncodeContext::default());
    let buf = encoder.buffer();
    assert_eq!(&buf[1..], &[0, 0, 0, 1, 0, 0, 0, 2, 0, 0, 0, 3]);
}

#[test]
fn mark_key_values() {
    let range = IdRange::new(1, 2, 3);
    let bold = MarkContent::new(range, Mark::Bold);
    assert_eq!(bold.key_value_with_range(), ("bold".to_string(), MarkValue::RangedFlag("(1, 2, 3)".to_string())));
    assert_eq!(bold.key_value_without_range(), ("bold".to_string(), MarkValue::Flag));
    let link = MarkContent::new(range, Mark::Link("u".to_string()));
    assert_eq!(link.get_key_value(), ("link".to_string(), MarkValue::Text("u".to_string())));
    let custom = MarkContent::new(range, Mark::Custom("n".to_string(), "{}".to_string()));
    assert_eq!(custom.key_value_without_range(), ("n".to_string(), MarkValue::Text("{}".to_string())));
    assert_eq!(MarkContent::new(range, Mark::Id(7)).key_value_with_range().1, MarkValue::Number(7));
    assert_eq!(MarkContent::new(range, Mark::NoMark).key_value_with_range(), ("_".to_string(), MarkValue::Null));
}
