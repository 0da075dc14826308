use crate::decoder::{Decode, DecodeContext, Decoder, Parsed};
use crate::encoder::{Encode, EncodeContext, Encoder};
use crate::roundtrip::Roundtrip;
use vstd::prelude::*;

verus! {

/// A value embedded in a document. Floating-point numbers are held by their bit patterns.
#[derive(Debug, PartialEq)]
pub enum Any {
    Null,
    True,
    False,
    F32(u32),
    F64(u64),
    I8(i8),
    I16(i16),
    I32(i32),
    I64(i64),
    U8(u8),
    U16(u16),
    U32(u32),
    U64(u64),
    String(String),
    Binary(Vec<u8>),
    Array(Vec<Any>),
    Pairs(Vec<AnyField>),
    KV(Vec<(String, String)>),
}

impl Default for Any {
    fn default() -> (r: Any)
        ensures
            r is Null,
    {
        Any::Null
    }
}

/// A named value of a map of values.
#[derive(Debug, PartialEq)]
pub struct AnyField {
    pub name: String,
    pub value: Any,
}

/// The tag byte that leads a value's encoding, when it writes one.
pub open spec fn any_tag(a: Any) -> Option<u8> {
    match a {
        Any::Null => Some(0x00u8),
        Any::True => Some(0x01u8),
        Any::False => Some(0x02u8),
        Any::F32(_) => Some(0x03u8),
        Any::F64(_) => Some(0x04u8),
        _ => None,
    }
}

/// The null, true, false and the two float kinds write their tag byte alone; the other
/// kinds write nothing.
impl Encode for Any {
    open spec fn encoding(&self) -> Seq<u8> {
        match any_tag(*self) {
            Some(t) => seq![t],
            None => Seq::empty(),
        }
    }

    open spec fn encodable(&self) -> bool {
        true
    }

    fn encode<E: Encoder>(&self, e: &mut E, _cx: &mut EncodeContext) {
        match self {
            Any::Null => e.u8(0x00),
            Any::True => e.u8(0x01),
            Any::False => e.u8(0x02),
            Any::F32(_) => e.u8(0x03),
            Any::F64(_) => e.u8(0x04),
            _ => {},
        }
        assert(e.written() =~= old(e).written() + self.encoding());
    }
}

impl DeepView for Any {
    type V = Any;

    open spec fn deep_view(&self) -> Any {
        *self
    }
}

/// A value is read from its tag byte: 0 is null, 1 true, 2 false, and the tags of the other
/// scalar, text and byte kinds up to 14 are read as null without reading further; the array
/// tag 15 and every tag after it are not read at all, and the reader stops there.
impl Decode for Any {
    open spec fn parse(bytes: Seq<u8>) -> Parsed<Any> {
        if bytes.len() < 1 {
            Parsed::Fault
        } else if bytes[0] == 0x01 {
            Parsed::Value(Any::True, 1)
        } else if bytes[0] == 0x02 {
            Parsed::Value(Any::False, 1)
        } else if bytes[0] <= 0x0E {
            Parsed::Value(Any::Null, 1)
        } else {
            Parsed::Fault
        }
    }

    fn decode<D: Decoder>(d: &mut D, _ctx: &DecodeContext) -> (r: Result<Any, String>) {
        let flags = match d.u8() {
            Ok(f) => f,
            Err(e) => return Err(e),
        };
        if flags == 0x01 {
            Ok(Any::True)
        } else if flags == 0x02 {
            Ok(Any::False)
        } else {
            Ok(Any::Null)
        }
    }
}

/// Null, true and false read back; the other kinds keep no value in their encoding.
impl Roundtrip for Any {
    open spec fn reads_back(&self) -> bool {
        *self is Null || *self is True || *self is False
    }

    proof fn lemma_roundtrip(&self, rest: Seq<u8>) {
        assert((self.encoding() + rest)[0] == self.encoding()[0]);
    }
}

} // verus!
