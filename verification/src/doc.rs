use crate::decoder::{Decode, DecodeContext, Decoder, Parsed};
use crate::encoder::{Encode, EncodeContext, Encoder};
use crate::roundtrip::Roundtrip;
use vstd::prelude::*;

verus! {

#[verifier::external_type_specification]
#[verifier::external_body]
pub struct ExUuid(uuid::Uuid);

/// The lowercase hexadecimal digits.
pub open spec fn hex_digits() -> Seq<char> {
    seq!['0', '1', '2', '3', '4', '5', '6', '7', '8', '9', 'a', 'b', 'c', 'd', 'e', 'f']
}

/// Each byte as two lowercase hexadecimal digits, high digit first.
pub open spec fn hex_of(bytes: Seq<u8>) -> Seq<char>
    decreases bytes.len(),
{
    if bytes.len() == 0 {
        Seq::empty()
    } else {
        hex_of(bytes.drop_last()) + seq![
            hex_digits()[bytes.last() as int / 16],
            hex_digits()[bytes.last() as int % 16],
        ]
    }
}

/// The hyphenated text of sixteen id bytes: groups of 4, 2, 2, 2 and 6 bytes in lowercase
/// hexadecimal, joined by hyphens.
pub open spec fn hyphenated(b: Seq<u8>) -> Seq<char> {
    hex_of(b.subrange(0, 4)) + seq!['-'] + hex_of(b.subrange(4, 6)) + seq!['-'] + hex_of(
        b.subrange(6, 8),
    ) + seq!['-'] + hex_of(b.subrange(8, 10)) + seq!['-'] + hex_of(b.subrange(10, 16))
}

/// What `uuid::Uuid::parse_str` gives for a text: the sixteen bytes of the id it reads, or
/// the text of the error.
pub uninterp spec fn parsed_uuid(s: Seq<char>) -> Result<Seq<u8>, Seq<char>>;

/// Sixteen random bytes marked as a version-4 id: `uuid::Uuid::new_v4`, which draws from
/// the operating system's generator and then sets the version nibble of byte 6 to 4 and the
/// two top bits of byte 8 to `10`. Nothing else of the bytes is promised.
#[verifier::external_body]
pub(crate) fn uuid_v4() -> (r: [u8; 16])
    ensures
        r@[6] / 16 == 4,
        r@[8] / 64 == 2,
{
    *uuid::Uuid::new_v4().as_bytes()
}

/// What `uuid::Uuid::from_bytes` gives for sixteen bytes.
pub uninterp spec fn uuid_from_bytes(b: Seq<u8>) -> uuid::Uuid;

/// The bytes of an id: `uuid::Uuid::as_bytes`, which hands out the sixteen bytes the id
/// holds. An id is `from_bytes` of its bytes, and `from_bytes` of sixteen bytes gives them
/// back.
#[verifier::external_body]
pub(crate) fn uuid_bytes(uuid: &uuid::Uuid) -> (r: [u8; 16])
    ensures
        *uuid == uuid_from_bytes(r@),
        forall|b: Seq<u8>| b.len() == 16 && *uuid == uuid_from_bytes(b) ==> r@ == b,
{
    *uuid.as_bytes()
}

/// The id of sixteen bytes: `uuid::Uuid::from_bytes`.
#[verifier::external_body]
pub(crate) fn uuid_of(bytes: [u8; 16]) -> (r: uuid::Uuid)
    ensures
        r == uuid_from_bytes(bytes@),
{
    uuid::Uuid::from_bytes(bytes)
}

/// The text of the id of sixteen bytes: `uuid::Uuid::from_bytes`, then its `Display`,
/// which the crate writes hyphenated in lowercase.
#[verifier::external_body]
pub(crate) fn uuid_text(bytes: &[u8; 16]) -> (r: String)
    ensures
        r@ == hyphenated(bytes@),
{
    uuid::Uuid::from_bytes(*bytes).to_string()
}

/// Reads an id from a text: `uuid::Uuid::parse_str`, which takes the simple, hyphenated,
/// braced and URN forms, and the text of its error. Besides naming the outcome, the
/// contract states that the hyphenated text of some bytes reads back as those bytes.
#[verifier::external_body]
fn uuid_parse(s: &str) -> (r: Result<[u8; 16], String>)
    ensures
        r is Ok ==> parsed_uuid(s@) is Ok && parsed_uuid(s@)->Ok_0 == r->Ok_0@,
        r is Err ==> parsed_uuid(s@) is Err && parsed_uuid(s@)->Err_0 == r->Err_0@,
        r is Err ==> forall|b: Seq<u8>| b.len() == 16 ==> s@ != hyphenated(b),
        r is Ok ==> forall|b: Seq<u8>| b.len() == 16 && s@ == hyphenated(b) ==> r->Ok_0@ == b,
{
    match uuid::Uuid::parse_str(s) {
        Ok(u) => Ok(*u.as_bytes()),
        Err(e) => Err(e.to_string()),
    }
}

/// The id of a document: the sixteen bytes of a UUID.
#[derive(Default, Clone, Copy, Debug, PartialEq, Eq, PartialOrd, Ord, Hash)]
pub struct DocId {
    pub bytes: [u8; 16],
}

impl DocId {
    /// A new random id of version 4.
    pub fn new() -> (r: DocId)
        ensures
            r.bytes@[6] / 16 == 4,
            r.bytes@[8] / 64 == 2,
    {
        DocId { bytes: uuid_v4() }
    }

    /// The id of a UUID: the sixteen bytes the UUID holds.
    pub fn from_uuid(uuid: uuid::Uuid) -> (r: DocId)
        ensures
            uuid == uuid_from_bytes(r.bytes@),
            forall|b: Seq<u8>| b.len() == 16 && uuid == uuid_from_bytes(b) ==> r.bytes@ == b,
    {
        DocId { bytes: uuid_bytes(&uuid) }
    }

    /// The id of sixteen bytes.
    pub fn from_bytes(bytes: &[u8; 16]) -> (r: DocId)
        ensures
            r.bytes == *bytes,
    {
        DocId { bytes: *bytes }
    }

    /// Reads an id from its text; a text that is no UUID gives the reader's error.
    pub fn from_str(s: &str) -> (r: Result<DocId, String>)
        ensures
            r is Ok ==> parsed_uuid(s@) is Ok && parsed_uuid(s@)->Ok_0 == r->Ok_0.bytes@,
            r is Err ==> parsed_uuid(s@) is Err && parsed_uuid(s@)->Err_0 == r->Err_0@,
            forall|id: DocId| s@ == hyphenated(id.bytes@) ==> (r matches Ok(x) && x == id),
    {
        match uuid_parse(s) {
            Ok(bytes) => {
                proof {
                    assert forall|id: DocId| s@ == hyphenated(id.bytes@) implies DocId {
                        bytes,
                    } == id by {
                        assert(id.bytes@.len() == 16);
                        assert(bytes@ == id.bytes@);
                        assert(bytes =~= id.bytes);
                    }
                }
                Ok(DocId { bytes })
            },
            Err(m) => {
                proof {
                    assert forall|id: DocId| s@ == hyphenated(id.bytes@) implies false by {
                        assert(id.bytes@.len() == 16);
                    }
                }
                Err(m)
            },
        }
    }

    /// The hyphenated lowercase text of the id.
    pub fn to_string(&self) -> (r: String)
        ensures
            r@ == hyphenated(self.bytes@),
    {
        uuid_text(&self.bytes)
    }

    /// The sixteen bytes of the id.
    pub fn as_bytes(&self) -> (r: [u8; 16])
        ensures
            r == self.bytes,
    {
        self.bytes
    }

    /// The id as a UUID: the UUID of its sixteen bytes.
    pub fn as_uuid(&self) -> (r: uuid::Uuid)
        ensures
            r == uuid_from_bytes(self.bytes@),
    {
        uuid_of(self.bytes)
    }
}

/// An id is written as its sixteen bytes.
impl Encode for DocId {
    open spec fn encoding(&self) -> Seq<u8> {
        self.bytes@
    }

    open spec fn encodable(&self) -> bool {
        true
    }

    fn encode<E: Encoder>(&self, e: &mut E, _cx: &mut EncodeContext) {
        e.uuid(self.bytes.as_slice());
    }
}

impl DeepView for DocId {
    type V = Seq<u8>;

    open spec fn deep_view(&self) -> Seq<u8> {
        self.bytes@
    }
}

/// An id is read as sixteen bytes.
impl Decode for DocId {
    open spec fn parse(bytes: Seq<u8>) -> Parsed<Seq<u8>> {
        if bytes.len() < 16 {
            Parsed::Fault
        } else {
            Parsed::Value(bytes.take(16), 16)
        }
    }

    fn decode<D: Decoder>(d: &mut D, _ctx: &DecodeContext) -> (r: Result<DocId, String>) {
        match d.uuid() {
            Ok(bytes) => Ok(DocId { bytes }),
            Err(e) => Err(e),
        }
    }
}

/// An id always reads back.
impl Roundtrip for DocId {
    open spec fn reads_back(&self) -> bool {
        true
    }

    proof fn lemma_roundtrip(&self, rest: Seq<u8>) {
        assert((self.bytes@ + rest).take(16) =~= self.bytes@);
    }
}

} // verus!
