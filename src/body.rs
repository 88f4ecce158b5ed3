use vstd::prelude::*;
use vstd::utf8::encode_utf8;

verus! {

/// A message payload: UTF-8 text or opaque bytes.
pub enum HttpBody {
    Text(String),
    Binary(Vec<u8>),
}

impl HttpBody {
    /// The bytes that stand for this body on the wire.
    pub open spec fn bytes(&self) -> Seq<u8> {
        match self {
            HttpBody::Text(text) => encode_utf8(text@),
            HttpBody::Binary(bytes) => bytes@,
        }
    }

    pub fn as_bytes(&self) -> (r: &[u8])
        ensures
            r@ == self.bytes(),
    {
        match self {
            HttpBody::Text(text) => text.as_str().as_bytes(),
            HttpBody::Binary(bytes) => bytes.as_slice(),
        }
    }
}

} // verus!
