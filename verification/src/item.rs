use crate::any::Any;
use crate::bytes::from_be64;
use crate::client::Client;
use crate::codec_v1::DecoderV1;
use crate::decoder::{be32_at, holds_prefixed, prefixed, Decode, DecodeContext, Decoder, Parsed};
use crate::doc::DocId;
use crate::id::{Id, IdRange};
use vstd::utf8::{encode_utf8, is_char_boundary};
use crate::mark::MarkContent;
use vstd::prelude::*;

verus! {

/// The kind of a document item.
#[derive(Clone, Copy, Debug, PartialEq, Eq)]
pub enum ItemKind {
    KeyMap,
    List,
    Text,
    String,
    Atom,
    Proxy,
    Move,
    Mark,
    PlainText,
}

/// The kind a four-bit kind number names; numbers past the known kinds are atoms.
pub open spec fn kind_of(bits: u8) -> ItemKind {
    if bits == 0 {
        ItemKind::KeyMap
    } else if bits == 1 {
        ItemKind::List
    } else if bits == 2 {
        ItemKind::Text
    } else if bits == 3 {
        ItemKind::String
    } else if bits == 5 {
        ItemKind::Proxy
    } else if bits == 6 {
        ItemKind::Move
    } else if bits == 7 {
        ItemKind::Mark
    } else if bits == 8 {
        ItemKind::PlainText
    } else {
        ItemKind::Atom
    }
}

/// The kind a four-bit kind number names.
pub fn kind_from_bits(bits: u8) -> (r: ItemKind)
    ensures
        r == kind_of(bits),
        bits <= 8 ==> kind_number(r) == bits,
{
    match bits {
        0 => ItemKind::KeyMap,
        1 => ItemKind::List,
        2 => ItemKind::Text,
        3 => ItemKind::String,
        5 => ItemKind::Proxy,
        6 => ItemKind::Move,
        7 => ItemKind::Mark,
        8 => ItemKind::PlainText,
        _ => ItemKind::Atom,
    }
}

/// The properties a document is created with: its id, when and by whom, and custom
/// properties.
#[derive(Debug)]
pub struct DocProps {
    pub id: DocId,
    pub created_at: u64,
    pub created_by: Client,
    pub props: Any,
}

/// The properties of a document as values.
pub struct DocPropsView {
    pub id: Seq<u8>,
    pub created_at: u64,
    pub created_by: Seq<u8>,
    pub props: Any,
}

impl DeepView for DocProps {
    type V = DocPropsView;

    open spec fn deep_view(&self) -> DocPropsView {
        DocPropsView {
            id: self.id.deep_view(),
            created_at: self.created_at,
            created_by: self.created_by.deep_view(),
            props: self.props,
        }
    }
}

/// The properties are the document's id, the creation time as 64 bits, the creating client
/// and the custom properties.
impl Decode for DocProps {
    open spec fn parse(bytes: Seq<u8>) -> Parsed<DocPropsView> {
        if bytes.len() < 40 {
            Parsed::Fault
        } else {
            match Any::parse(bytes.skip(40)) {
                Parsed::Value(props, w) => Parsed::Value(
                    DocPropsView {
                        id: bytes.take(16),
                        created_at: from_be64(bytes.skip(16)),
                        created_by: bytes.skip(24).take(16),
                        props,
                    },
                    40 + w,
                ),
                Parsed::Fault => Parsed::Fault,
                Parsed::Invalid => Parsed::Invalid,
            }
        }
    }

    fn decode<D: Decoder>(d: &mut D, ctx: &DecodeContext) -> (r: Result<DocProps, String>) {
        let ghost b = d.rest();
        let id = match DocId::decode(d, ctx) {
            Ok(v) => v,
            Err(e) => return Err(e),
        };
        let created_at = match d.u64() {
            Ok(v) => v,
            Err(e) => return Err(e),
        };
        let created_by = match Client::decode(d, ctx) {
            Ok(v) => v,
            Err(e) => return Err(e),
        };
        proof {
            assert(b.skip(16).skip(8) =~= b.skip(24));
            assert(b.skip(24).skip(16) =~= b.skip(40));
        }
        let props = match Any::decode(d, ctx) {
            Ok(v) => v,
            Err(e) => return Err(e),
        };
        proof {
            if let Parsed::Value(_, w) = Any::parse(b.skip(40)) {
                assert(b.skip(40).skip(w as int) =~= b.skip((40 + w) as int));
            }
        }
        Ok(DocProps { id, created_at, created_by, props })
    }
}

/// What an item holds.
#[derive(Debug)]
pub enum Content {
    Doc(DocProps),
    Id(Id),
    Mark(MarkContent),
    Binary(Vec<u8>),
    String(String),
    Embed(Any),
    Null,
}

/// What an item holds, as values; a mark is known by its kind alone.
pub enum ContentView {
    Doc(DocPropsView),
    Id(Id),
    Mark,
    Binary(Seq<u8>),
    String(Seq<char>),
    Embed(Any),
    Null,
}

impl DeepView for Content {
    type V = ContentView;

    open spec fn deep_view(&self) -> ContentView {
        match self {
            Content::Doc(p) => ContentView::Doc(p.deep_view()),
            Content::Id(id) => ContentView::Id(*id),
            Content::Mark(_) => ContentView::Mark,
            Content::Binary(b) => ContentView::Binary(b@),
            Content::String(s) => ContentView::String(s@),
            Content::Embed(a) => ContentView::Embed(*a),
            Content::Null => ContentView::Null,
        }
    }
}

/// Shifts what was read after a first byte by that byte.
pub open spec fn after_tag<V>(p: Parsed<V>) -> Parsed<V> {
    match p {
        Parsed::Value(v, w) => Parsed::Value(v, w + 1),
        Parsed::Fault => Parsed::Fault,
        Parsed::Invalid => Parsed::Invalid,
    }
}

/// Content is read from its tag byte: bytes (1), a string (2), document properties (17) or
/// an id (19) follow their tag; an embedded value (16) and null (18) read as null with
/// nothing after the tag. Marks (0) and lists of types (3) have no reading here, and
/// neither has any other tag: they are refused.
impl Decode for Content {
    open spec fn parse(bytes: Seq<u8>) -> Parsed<ContentView> {
        if bytes.len() < 1 {
            Parsed::Fault
        } else {
            let tag = bytes[0];
            let rest = bytes.skip(1);
            if tag == 0x01 {
                if !holds_prefixed(rest) {
                    Parsed::Fault
                } else {
                    Parsed::Value(
                        ContentView::Binary(prefixed(rest)),
                        (5 + be32_at(rest)) as nat,
                    )
                }
            } else if tag == 0x02 {
                after_tag(
                    match String::parse(rest) {
                        Parsed::Value(s, w) => Parsed::Value(ContentView::String(s), w),
                        Parsed::Fault => Parsed::Fault,
                        Parsed::Invalid => Parsed::Invalid,
                    },
                )
            } else if tag == 0x10 || tag == 0x12 {
                Parsed::Value(ContentView::Null, 1)
            } else if tag == 0x11 {
                after_tag(
                    match DocProps::parse(rest) {
                        Parsed::Value(p, w) => Parsed::Value(ContentView::Doc(p), w),
                        Parsed::Fault => Parsed::Fault,
                        Parsed::Invalid => Parsed::Invalid,
                    },
                )
            } else if tag == 0x13 {
                after_tag(
                    match Id::parse(rest) {
                        Parsed::Value(id, w) => Parsed::Value(ContentView::Id(id), w),
                        Parsed::Fault => Parsed::Fault,
                        Parsed::Invalid => Parsed::Invalid,
                    },
                )
            } else {
                Parsed::Invalid
            }
        }
    }

    fn decode<D: Decoder>(d: &mut D, ctx: &DecodeContext) -> (r: Result<Content, String>) {
        let ghost b = d.rest();
        let tag = match d.u8() {
            Ok(v) => v,
            Err(e) => return Err(e),
        };
        let ghost rest = d.rest();
        proof {
            assert(rest =~= b.skip(1));
        }
        if tag == 0x01 {
            let v = match d.bytes() {
                Ok(v) => v,
                Err(e) => return Err(e),
            };
            proof {
                assert(b.skip(1).skip(4 + be32_at(rest) as int) =~= b.skip(5 + be32_at(rest) as int));
            }
            Ok(Content::Binary(v))
        } else if tag == 0x02 {
            let s = match String::decode(d, ctx) {
                Ok(v) => v,
                Err(e) => return Err(e),
            };
            proof {
                if let Parsed::Value(_, w) = String::parse(rest) {
                    assert(b.skip(1).skip(w as int) =~= b.skip((w + 1) as int));
                }
            }
            Ok(Content::String(s))
        } else if tag == 0x10 || tag == 0x12 {
            Ok(Content::Null)
        } else if tag == 0x11 {
            let p = match DocProps::decode(d, ctx) {
                Ok(v) => v,
                Err(e) => return Err(e),
            };
            proof {
                if let Parsed::Value(_, w) = DocProps::parse(rest) {
                    assert(b.skip(1).skip(w as int) =~= b.skip((w + 1) as int));
                }
            }
            Ok(Content::Doc(p))
        } else if tag == 0x13 {
            let id = match Id::decode(d, ctx) {
                Ok(v) => v,
                Err(e) => return Err(e),
            };
            proof {
                assert(b.skip(1).skip(8) =~= b.skip(9));
            }
            Ok(Content::Id(id))
        } else {
            Err(String::from_str("invalid content flags"))
        }
    }
}

/// The data of a document item as it is stored: its kind and id, where it was inserted
/// (its parent, or the items it was inserted between), its field, what it holds, and, for
/// a move, the ids of the moved item and of the move.
#[derive(Debug)]
pub struct ItemData {
    pub kind: ItemKind,
    pub id: Id,
    pub parent_id: Option<Id>,
    pub left_id: Option<Id>,
    pub right_id: Option<Id>,
    pub field: Option<u32>,
    pub content: Content,
    pub target_id: Option<Id>,
    pub mover_id: Option<Id>,
}

/// The data of an item as values.
pub struct ItemDataView {
    pub kind: ItemKind,
    pub id: Id,
    pub parent_id: Option<Id>,
    pub left_id: Option<Id>,
    pub right_id: Option<Id>,
    pub field: Option<u32>,
    pub content: ContentView,
    pub target_id: Option<Id>,
    pub mover_id: Option<Id>,
}

impl DeepView for ItemData {
    type V = ItemDataView;

    open spec fn deep_view(&self) -> ItemDataView {
        ItemDataView {
            kind: self.kind,
            id: self.id,
            parent_id: self.parent_id,
            left_id: self.left_id,
            right_id: self.right_id,
            field: self.field,
            content: self.content.deep_view(),
            target_id: self.target_id,
            mover_id: self.mover_id,
        }
    }
}

/// The `i`-th of the ids written one after the other from the front of `s`.
pub open spec fn id_in(s: Seq<u8>, i: int) -> Id {
    Id { client: be32_at(s.skip(8 * i)), clock: be32_at(s.skip(8 * i).skip(4)) }
}

/// How many ids follow the content and field of an item: its own id, its parent or left
/// origin unless it is a document root, and its right origin, target and mover when the
/// lowest flag is set.
pub open spec fn id_count(flags: u8, root: bool) -> int {
    1 + (if root {
        0int
    } else {
        1int
    }) + (if flags & 1 != 0 {
        3int
    } else {
        0int
    })
}

/// What reading an item from the front of `bytes` gives. The first byte holds the kind in
/// its high four bits and flags in the low four: content follows (8), a 32-bit field
/// follows (4), the item has a left origin rather than a parent (2), and it has a right
/// origin, a target and a mover (1). Then come the content, the field, the id, the parent
/// or left origin (none for a document root), and the right origin, target and mover.
pub open spec fn item_parse(bytes: Seq<u8>) -> Parsed<ItemDataView> {
    if bytes.len() < 1 {
        Parsed::Fault
    } else {
        let flags = bytes[0];
        let content = if flags & 8 != 0 {
            Content::parse(bytes.skip(1))
        } else {
            Parsed::Value(ContentView::Null, 0)
        };
        match content {
            Parsed::Value(c, w) => {
                let r = bytes.skip(1 + w as int);
                let fw: int = if flags & 4 != 0 {
                    4
                } else {
                    0
                };
                let root = c is Doc;
                let n = id_count(flags, root);
                if r.len() < fw + 8 * n {
                    Parsed::Fault
                } else {
                    let ids = r.skip(fw);
                    let second = if root {
                        None
                    } else {
                        Some(id_in(ids, 1))
                    };
                    let k: int = if root {
                        1
                    } else {
                        2
                    };
                    let moved = flags & 1 != 0;
                    Parsed::Value(
                        ItemDataView {
                            kind: kind_of(flags >> 4),
                            id: id_in(ids, 0),
                            parent_id: if flags & 2 == 0 {
                                second
                            } else {
                                None
                            },
                            left_id: if flags & 2 != 0 {
                                second
                            } else {
                                None
                            },
                            right_id: if moved {
                                Some(id_in(ids, k))
                            } else {
                                None
                            },
                            field: if flags & 4 != 0 {
                                Some(be32_at(r))
                            } else {
                                None
                            },
                            content: c,
                            target_id: if moved {
                                Some(id_in(ids, k + 1))
                            } else {
                                None
                            },
                            mover_id: if moved {
                                Some(id_in(ids, k + 2))
                            } else {
                                None
                            },
                        },
                        (1 + w + fw + 8 * n) as nat,
                    )
                }
            },
            Parsed::Fault => Parsed::Fault,
            Parsed::Invalid => Parsed::Invalid,
        }
    }
}

/// Reads the id at `pos`, the `i`-th of the ids from `start` on.
fn read_id(d: &mut DecoderV1, ctx: &DecodeContext, Ghost(b): Ghost<Seq<u8>>, Ghost(start): Ghost<int>, Ghost(i): Ghost<int>) -> (r: Id)
    requires
        old(d).wf(),
        0 <= start,
        0 <= i,
        start + 8 * i + 8 <= b.len(),
        old(d).rest() == b.skip(start + 8 * i),
    ensures
        final(d).wf(),
        final(d).rest() == b.skip(start + 8 * i + 8),
        r == id_in(b.skip(start), i),
{
    let r = match Id::decode(d, ctx) {
        Ok(v) => v,
        Err(_) => Id::new(0, 0),
    };
    proof {
        assert(b.skip(start + 8 * i).skip(8) =~= b.skip(start + 8 * i + 8));
        assert(b.skip(start).skip(8 * i) =~= b.skip(start + 8 * i));
    }
    r
}

/// Reads an item.
#[verifier::rlimit(60)]
pub fn decode_item(d: &mut DecoderV1, ctx: &DecodeContext) -> (r: Result<ItemData, String>)
    requires
        old(d).wf(),
        !(item_parse(old(d).rest()) is Fault),
    ensures
        final(d).wf(),
        match item_parse(old(d).rest()) {
            Parsed::Value(v, w) => r matches Ok(x) && x.deep_view() == v && w <= old(
                d,
            ).rest().len() && final(d).rest() == old(d).rest().skip(w as int),
            Parsed::Invalid => r is Err,
            Parsed::Fault => true,
        },
{
    let ghost b = d.rest();
    let flags = match d.u8() {
        Ok(v) => v,
        Err(e) => return Err(e),
    };
    let kind = kind_from_bits(flags >> 4);
    let ghost mut w: int = 0;
    let content = if flags & 0b1000 != 0 {
        let c = match Content::decode(d, ctx) {
            Ok(v) => v,
            Err(e) => return Err(e),
        };
        proof {
            if let Parsed::Value(_, cw) = Content::parse(b.skip(1)) {
                w = cw as int;
                assert(b.skip(1).skip(cw as int) =~= b.skip(1 + cw as int));
            }
        }
        c
    } else {
        proof {
            assert(b.skip(1) =~= b.skip(1 + 0int));
        }
        Content::Null
    };
    let ghost r0 = b.skip(1 + w);
    let field = if flags & 0b100 != 0 {
        let v = match d.u32() {
            Ok(v) => v,
            Err(e) => return Err(e),
        };
        Some(v)
    } else {
        None
    };
    let ghost fw: int = if flags & 4 != 0 {
        4
    } else {
        0
    };
    let ghost start = 1 + w + fw;
    proof {
        assert(r0.skip(fw) =~= b.skip(start));
        assert(d.rest() =~= b.skip(start + 8 * 0));
    }
    let is_root = match &content {
        Content::Doc(_) => true,
        _ => false,
    };
    let id = read_id(d, ctx, Ghost(b), Ghost(start), Ghost(0));
    let mut k: usize = 1;
    let mut parent_id = None;
    let mut left_id = None;
    if !is_root {
        let second = read_id(d, ctx, Ghost(b), Ghost(start), Ghost(1));
        if flags & 0b10 == 0 {
            parent_id = Some(second);
        } else {
            left_id = Some(second);
        }
        k = 2;
    }
    let mut right_id = None;
    let mut target_id = None;
    let mut mover_id = None;
    if flags & 0b1 != 0 {
        right_id = Some(read_id(d, ctx, Ghost(b), Ghost(start), Ghost(k as int)));
        target_id = Some(read_id(d, ctx, Ghost(b), Ghost(start), Ghost(k + 1)));
        mover_id = Some(read_id(d, ctx, Ghost(b), Ghost(start), Ghost(k + 2)));
    }
    proof {
        assert(b.skip(start) =~= r0.skip(fw));
    }
    Ok(ItemData { kind, id, parent_id, left_id, right_id, field, content, target_id, mover_id })
}

/// How many ids the content of an item spans: the bytes of a string, the range of a mark;
/// other contents do not split.
pub open spec fn split_size(c: &Content) -> Option<int> {
    match c {
        Content::String(s) => Some(encode_utf8(s@).len() as int),
        Content::Mark(m) => Some(m.range.spec_size()),
        _ => None,
    }
}

/// Whether the item is of a kind that splits, with a content that does, and `offset` falls
/// strictly inside that content.
pub open spec fn splits_at(item: &ItemData, offset: u32) -> bool {
    &&& (item.kind is String || item.kind is Mark)
    &&& split_size(&item.content) matches Some(n) && 0 < offset < n
}

impl ItemData {
    /// Cuts a string or mark item in two at `offset` ids from its start: the left part keeps
    /// the id and the left origin and has the right part as its right origin; the right part
    /// starts `offset` ids later, has the left part's last id as its left origin and keeps the
    /// right origin. An item of another kind or content, or an offset outside its content,
    /// is refused.
    pub fn split(&self, offset: u32) -> (r: Result<(ItemData, ItemData), String>)
        requires
            self.content matches Content::String(s) ==> 1 <= encode_utf8(s@).len() <= u32::MAX
                && self.id.clock + encode_utf8(s@).len() <= u32::MAX,
            self.content matches Content::Mark(m) ==> m.range.start <= m.range.end
                && m.range.end - m.range.start + 1 <= u32::MAX && self.id.clock + m.range.spec_size()
                <= u32::MAX,
            splits_at(self, offset) ==> (self.content matches Content::String(s) ==> is_char_boundary(
                encode_utf8(s@),
                offset as int,
            )),
        ensures
            r is Ok <==> splits_at(self, offset),
            r matches Ok(parts) ==> {
                let (a, b) = parts;
                let mid = Id { client: self.id.client, clock: (self.id.clock + offset) as u32 };
                &&& a.kind == self.kind && b.kind == self.kind
                &&& a.id == self.id && b.id == mid
                &&& a.left_id == self.left_id && a.right_id == Some(mid)
                &&& b.left_id == Some(Id { client: self.id.client, clock: (mid.clock - 1) as u32 })
                &&& b.right_id == self.right_id
                &&& a.parent_id == self.parent_id && b.parent_id == self.parent_id
                &&& a.field == self.field && b.field == self.field
                &&& a.target_id == self.target_id && b.target_id == self.target_id
                &&& a.mover_id == self.mover_id && b.mover_id == self.mover_id
                &&& self.content matches Content::String(s) ==> (a.content matches Content::String(
                    x,
                ) && b.content matches Content::String(y) && encode_utf8(x@) == encode_utf8(
                    s@,
                ).subrange(0, offset as int) && encode_utf8(y@) == encode_utf8(s@).subrange(
                    offset as int,
                    encode_utf8(s@).len() as int,
                ))
                &&& self.content matches Content::Mark(m) ==> (a.content matches Content::Mark(x)
                    && b.content matches Content::Mark(y) && x.data == m.data && y.data == m.data
                    && x.range.client == m.range.client && y.range.client == m.range.client
                    && x.range.start == m.range.start && x.range.end == m.range.start + offset - 1
                    && y.range.start == m.range.start + offset && y.range.end == m.range.end)
            },
    {
        match self.kind {
            ItemKind::String | ItemKind::Mark => {},
            _ => {
                return Err(String::from_str("Cannot split item of this kind"));
            },
        }
        let size: u32 = match &self.content {
            Content::String(s) => s.as_str().len() as u32,
            Content::Mark(m) => m.size(),
            _ => {
                return Err(String::from_str("Cannot split non-string item"));
            },
        };
        let range = IdRange::new(self.id.client, self.id.clock, self.id.clock + size - 1);
        let (left_range, right_range) = match range.split(offset) {
            Ok(v) => v,
            Err(e) => return Err(e),
        };
        let (lc, rc) = match &self.content {
            Content::String(s) => {
                let (l, r) = s.as_str().split_at(offset as usize);
                (Content::String(l.to_owned()), Content::String(r.to_owned()))
            },
            Content::Mark(m) => {
                let (l, r) = m.split(offset);
                (Content::Mark(l), Content::Mark(r))
            },
            _ => {
                return Err(String::from_str("Cannot split non-string item"));
            },
        };
        let left = ItemData {
            kind: self.kind,
            id: left_range.start_id(),
            parent_id: self.parent_id,
            left_id: self.left_id,
            right_id: Some(right_range.start_id()),
            field: self.field,
            content: lc,
            target_id: self.target_id,
            mover_id: self.mover_id,
        };
        let right = ItemData {
            kind: self.kind,
            id: right_range.start_id(),
            parent_id: self.parent_id,
            left_id: Some(left_range.end_id()),
            right_id: self.right_id,
            field: self.field,
            content: rc,
            target_id: self.target_id,
            mover_id: self.mover_id,
        };
        Ok((left, right))
    }
}

/// The number an item kind is written with: map 0, list 1, text 2, string 3, atom 4,
/// proxy 5, move 6, mark 7, plain text 8.
pub open spec fn kind_number(k: ItemKind) -> u8 {
    match k {
        ItemKind::KeyMap => 0,
        ItemKind::List => 1,
        ItemKind::Text => 2,
        ItemKind::String => 3,
        ItemKind::Atom => 4,
        ItemKind::Proxy => 5,
        ItemKind::Move => 6,
        ItemKind::Mark => 7,
        ItemKind::PlainText => 8,
    }
}

/// The number an item kind is written with.
pub fn kind_to_bits(k: ItemKind) -> (r: u8)
    ensures
        r == kind_number(k),
        r <= 8,
{
    match k {
        ItemKind::KeyMap => 0,
        ItemKind::List => 1,
        ItemKind::Text => 2,
        ItemKind::String => 3,
        ItemKind::Atom => 4,
        ItemKind::Proxy => 5,
        ItemKind::Move => 6,
        ItemKind::Mark => 7,
        ItemKind::PlainText => 8,
    }
}

/// Kind read-back law: every kind reads back from the number it is written with, and no two
/// kinds are written with the same number.
pub proof fn lemma_kind_read_back(k: ItemKind, j: ItemKind)
    ensures
        kind_of(kind_number(k)) == k,
        kind_number(k) == kind_number(j) ==> k == j,
{
}

} // verus!
