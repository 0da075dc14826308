use nitro::any::Any;
use nitro::codec_v1::{DecoderV1, VERSION};
use nitro::decoder::DecodeContext;
use nitro::item::{decode_item, Content, ItemKind};

fn id_bytes(client: u32, clock: u32) -> Vec<u8> {
    let mut v = client.to_be_bytes().to_vec();
    v.extend_from_slice(&clock.to_be_bytes());
    v
}

fn ids(id: Option<nitro::id::Id>) -> Option<(u32, u32)> {
    id.map(|i| (i.client, i.clock))
}

#[test]
fn decode_item_with_a_left_origin_and_no_content() {
    let mut bytes = vec![(1u8 << 4) | 0b0010];
    bytes.extend(id_bytes(1, 2));
    bytes.extend(id_bytes(1, 1));
    let mut d = DecoderV1::new([vec![VERSION], bytes].concat());
    let item = decode_item(&mut d, &DecodeContext::default()).unwrap();
    assert_eq!(item.kind, ItemKind::List);
    assert_eq!((item.id.client, item.id.clock), (1, 2));
    assert_eq!(ids(item.left_id), Some((1, 1)));
    assert_eq!(ids(item.parent_id), None);
    assert_eq!(ids(item.right_id), None);
    assert_eq!(item.field, None);
    assert!(matches!(item.content, Content::Null));
}

#[test]
fn decode_item_with_string_content_field_and_move_ids() {
    let mut bytes = vec![(3u8 << 4) | 0b1101];
    bytes.extend([0x02, 0, 0, 0, 2, b'h', b'i']);
    bytes.extend(7u32.to_be_bytes());
    bytes.extend(id_bytes(2, 10));
    bytes.extend(id_bytes(0, 1));
    bytes.extend(id_bytes(2, 3));
    bytes.extend(id_bytes(2, 4));
    bytes.extend(id_bytes(2, 5));
    let mut d = DecoderV1::new([vec![VERSION], bytes].concat());
    let item = decode_item(&mut d, &DecodeContext::default()).unwrap();
    assert_eq!(item.kind, ItemKind::String);
    assert_eq!((item.id.client, item.id.clock), (2, 10));
    assert_eq!(ids(item.parent_id), Some((0, 1)));
    assert_eq!(ids(item.left_id), None);
    assert_eq!(ids(item.right_id), Some((2, 3)));
    assert_eq!(ids(item.target_id), Some((2, 4)));
    assert_eq!(ids(item.mover_id), Some((2, 5)));
    assert_eq!(item.field, Some(7));
    match item.content {
        Content::String(s) => assert_eq!(s, "hi"),
        other => panic!("unexpected content {:?}", other),
    }
}

#[test]
fn decode_item_of_a_document_root_has_no_parent() {
    let mut bytes = vec![0b1000u8];
    bytes.push(0x11);
    bytes.extend([9u8; 16]);
    bytes.extend(1234u64.to_be_bytes());
    bytes.extend([5u8; 16]);
    bytes.push(0x01);
    bytes.extend(id_bytes(0, 0));
    let mut d = DecoderV1::new([vec![VERSION], bytes].concat());
    let item = decode_item(&mut d, &DecodeContext::default()).unwrap();
    assert_eq!(item.kind, ItemKind::KeyMap);
    assert_eq!(ids(item.parent_id), None);
    assert_eq!(ids(item.left_id), None);
    match item.content {
        Content::Doc(p) => {
            assert_eq!(p.id.as_bytes(), [9u8; 16]);
            assert_eq!(p.created_at, 1234);
            assert_eq!(p.created_by.as_bytes(), vec![5u8; 16]);
            assert_eq!(p.props, Any::True);
        }
        other => panic!("unexpected content {:?}", other),
    }
}

#[test]
fn decode_item_kind_numbers_past_the_known_kinds_are_atoms() {
    let mut bytes = vec![(12u8 << 4) | 0b1010];
    bytes.extend([0x13]);
    bytes.extend(id_bytes(4, 4));
    bytes.extend(id_bytes(1, 1));
    bytes.extend(id_bytes(1, 0));
    let mut d = DecoderV1::new([vec![VERSION], bytes].concat());
    let item = decode_item(&mut d, &DecodeContext::default()).unwrap();
    assert_eq!(item.kind, ItemKind::Atom);
    match item.content {
        Content::Id(i) => assert_eq!((i.client, i.clock), (4, 4)),
        other => panic!("unexpected content {:?}", other),
    }
    assert_eq!((item.id.client, item.id.clock), (1, 1));
    assert_eq!(ids(item.left_id), Some((1, 0)));
}

#[test]
fn decode_item_refuses_unknown_content() {
    let mut bytes = vec![0b1000u8, 0x07];
    bytes.extend(id_bytes(0, 0));
    let mut d = DecoderV1::new([vec![VERSION], bytes].concat());
    assert!(decode_item(&mut d, &DecodeContext::default()).is_err());
}

fn string_item(text: &str) -> nitro::item::ItemData {
    nitro::item::ItemData {
        kind: ItemKind::String,
        id: nitro::id::Id::new(3, 10),
        parent_id: Some(nitro::id::Id::new(0, 1)),
        left_id: Some(nitro::id::Id::new(3, 2)),
        right_id: Some(nitro::id::Id::new(4, 7)),
        field: None,
        content: Content::String(text.to_string()),
        target_id: None,
        mover_id: None,
    }
}

#[test]
fn item_split_cuts_ids_origins_and_text() {
    let item = string_item("hello");
    let (a, b) = item.split(2).unwrap();
    assert_eq!((a.id.client, a.id.clock), (3, 10));
    assert_eq!((b.id.client, b.id.clock), (3, 12));
    assert_eq!(ids(a.left_id), Some((3, 2)));
    assert_eq!(ids(a.right_id), Some((3, 12)));
    assert_eq!(ids(b.left_id), Some((3, 11)));
    assert_eq!(ids(b.right_id), Some((4, 7)));
    assert_eq!(ids(a.parent_id), Some((0, 1)));
    assert_eq!(ids(b.parent_id), Some((0, 1)));
    match (a.content, b.content) {
        (Content::String(x), Content::String(y)) => {
            assert_eq!(x, "he");
            assert_eq!(y, "llo");
        }
        other => panic!("unexpected contents {:?}", other),
    }
}

#[test]
fn item_split_refuses_offsets_outside_the_content() {
    let item = string_item("hello");
    assert!(item.split(0).is_err());
    assert!(item.split(5).is_err());
    assert!(item.split(9).is_err());
}

#[test]
fn item_split_refuses_other_kinds() {
    let mut item = string_item("hello");
    item.kind = ItemKind::List;
    assert!(item.split(2).is_err());
    let mut other = string_item("hello");
    other.content = Content::Null;
    assert!(other.split(2).is_err());
}
