use crate::decoder::{Decode, DecodeContext, Decoder, Parsed};
use crate::doc::{hyphenated, uuid_bytes, uuid_from_bytes, uuid_of, uuid_text, uuid_v4};
use crate::encoder::{Encode, EncodeContext, Encoder};
use crate::roundtrip::Roundtrip;
use vstd::prelude::*;

verus! {

/// A client of a document: the sixteen bytes of its UUID.
#[derive(Clone, Copy, Debug, PartialEq, Eq, PartialOrd, Ord, Hash)]
pub struct Client {
    pub bytes: [u8; 16],
}

impl Default for Client {
    /// A new random client, its UUID of version 4.
    fn default() -> (r: Client)
        ensures
            r.bytes@[6] / 16 == 4,
            r.bytes@[8] / 64 == 2,
    {
        Client { bytes: uuid_v4() }
    }
}

impl Client {
    /// The client of a UUID: the sixteen bytes the UUID holds.
    pub fn from_uuid(uuid: uuid::Uuid) -> (r: Client)
        ensures
            uuid == uuid_from_bytes(r.bytes@),
            forall|b: Seq<u8>| b.len() == 16 && uuid == uuid_from_bytes(b) ==> r.bytes@ == b,
    {
        Client { bytes: uuid_bytes(&uuid) }
    }

    /// The client of sixteen bytes, read as a UUID; other lengths are no client.
    pub fn from_bytes(bytes: &[u8]) -> (r: Client)
        requires
            bytes@.len() == 16,
        ensures
            r.bytes@ == bytes@,
    {
        let mut array = [0u8; 16];
        let mut i: usize = 0;
        while i < 16
            invariant
                bytes@.len() == 16,
                i <= 16,
                forall|j: int| 0 <= j < i ==> array@[j] == bytes@[j],
            decreases 16 - i,
        {
            array.set(i, bytes[i]);
            i = i + 1;
        }
        assert(array@ =~= bytes@);
        let uuid = uuid_of(array);
        Client { bytes: uuid_bytes(&uuid) }
    }

    /// The client's UUID.
    pub fn as_uuid(&self) -> (r: uuid::Uuid)
        ensures
            r == uuid_from_bytes(self.bytes@),
    {
        uuid_of(self.bytes)
    }

    /// The sixteen bytes of the client's UUID.
    pub fn as_bytes(&self) -> (r: Vec<u8>)
        ensures
            r@ == self.bytes@,
    {
        let mut out: Vec<u8> = Vec::new();
        let mut i: usize = 0;
        while i < 16
            invariant
                i <= 16,
                out@ == self.bytes@.take(i as int),
            decreases 16 - i,
        {
            out.push(self.bytes[i]);
            i = i + 1;
            assert(out@ =~= self.bytes@.take(i as int));
        }
        assert(self.bytes@.take(16) =~= self.bytes@);
        out
    }

    /// The hyphenated lowercase text of the client's UUID.
    pub fn to_string(&self) -> (r: String)
        ensures
            r@ == hyphenated(self.bytes@),
    {
        uuid_text(&self.bytes)
    }
}

/// A client is written as the sixteen bytes of its UUID.
impl Encode for Client {
    open spec fn encoding(&self) -> Seq<u8> {
        self.bytes@
    }

    open spec fn encodable(&self) -> bool {
        true
    }

    fn encode<E: Encoder>(&self, e: &mut E, _cx: &mut EncodeContext) {
        e.uuid(self.bytes.as_slice());
    }
}

impl DeepView for Client {
    type V = Seq<u8>;

    open spec fn deep_view(&self) -> Seq<u8> {
        self.bytes@
    }
}

/// A client is read as sixteen bytes, taken as a UUID.
impl Decode for Client {
    open spec fn parse(bytes: Seq<u8>) -> Parsed<Seq<u8>> {
        if bytes.len() < 16 {
            Parsed::Fault
        } else {
            Parsed::Value(bytes.take(16), 16)
        }
    }

    fn decode<D: Decoder>(d: &mut D, _ctx: &DecodeContext) -> (r: Result<Client, String>) {
        match d.uuid() {
            Ok(bytes) => {
                let uuid = uuid_of(bytes);
                Ok(Client { bytes: uuid_bytes(&uuid) })
            },
            Err(e) => Err(e),
        }
    }
}

/// A client always reads back.
impl Roundtrip for Client {
    open spec fn reads_back(&self) -> bool {
        true
    }

    proof fn lemma_roundtrip(&self, rest: Seq<u8>) {
        assert((self.bytes@ + rest).take(16) =~= self.bytes@);
    }
}

} // verus!
