//! The serialization contract: a bidirectional mapping between typed values
//! and byte sequences.
//!
//! Every 32-bit quantity is encoded as exactly 4 bytes in big-endian order;
//! size-typed integers narrow and widen through the 32-bit representation;
//! text is encoded as its UTF-8 bytes.  Serialization is total; only
//! deserialization can fail, and each implementation states exactly on which
//! byte sequences it does.

use vstd::prelude::*;
use vstd::slice::slice_to_vec;
use vstd::string::StringSliceAdditionalSpecFns;
use vstd::utf8::decode_utf8;
use vstd::utf8::encode_utf8;
use vstd::utf8::encode_utf8_decode_utf8;
use vstd::utf8::encode_utf8_valid_utf8;
use vstd::utf8::valid_utf8;

verus! {

/// A tagged failure describing why a byte sequence could not be converted
/// back into a typed value.  Carries a human-readable message only.
#[derive(Debug)]
pub struct DeserializationError {
    error: String,
}

impl DeserializationError {
    /// The message carried by the error.
    pub closed spec fn message(&self) -> Seq<char> {
        self.error@
    }

    pub fn new() -> (r: Self)
        ensures
            r.message() == "Error to deserialize string!"@,
    {
        DeserializationError { error: "Error to deserialize string!".to_owned() }
    }
}

/// The 4-byte big-endian encoding of a 32-bit value.
pub open spec fn spec_u32_to_be_bytes(x: u32) -> Seq<u8> {
    seq![
        ((x >> 24) & 0xff) as u8,
        ((x >> 16) & 0xff) as u8,
        ((x >> 8) & 0xff) as u8,
        (x & 0xff) as u8,
    ]
}

/// The 32-bit value read from the first 4 bytes of a sequence, big-endian.
pub open spec fn spec_u32_from_be_bytes(s: Seq<u8>) -> u32
    recommends
        s.len() >= 4,
{
    ((s[0] as u32) << 24) | ((s[1] as u32) << 16) | ((s[2] as u32) << 8) | (s[3] as u32)
}

/// Reading back the 4 big-endian bytes of a 32-bit value recovers the value.
pub proof fn lemma_u32_be_bytes_roundtrip(x: u32)
    ensures
        spec_u32_to_be_bytes(x).len() == 4,
        spec_u32_from_be_bytes(spec_u32_to_be_bytes(x)) == x,
{
    let s = spec_u32_to_be_bytes(x);
    assert(s[0] == ((x >> 24) & 0xff) as u8);
    assert(s[1] == ((x >> 16) & 0xff) as u8);
    assert(s[2] == ((x >> 8) & 0xff) as u8);
    assert(s[3] == (x & 0xff) as u8);
    assert(((((x >> 24) & 0xff) as u8 as u32) << 24) | ((((x >> 16) & 0xff) as u8 as u32) << 16)
        | ((((x >> 8) & 0xff) as u8 as u32) << 8) | ((x & 0xff) as u8 as u32) == x) by (bit_vector);
}

/// A value that converts to and from a byte sequence.
///
/// `ser_spec` and `deser_spec` state the encoding over the value's
/// mathematical view; `codec_exact` names the views on which the two are
/// exact inverses, which `lemma_codec_roundtrip` proves.  `serialize` is
/// total and `deserialize` succeeds exactly when `deser_spec` does.
pub trait Serializable: View + Sized {
    /// The byte sequence a value with this view serializes to.
    spec fn ser_spec(m: Self::V) -> Seq<u8>;

    /// The view deserialized from a byte sequence, or `None` where the bytes
    /// are rejected.
    spec fn deser_spec(b: Seq<u8>) -> Option<Self::V>;

    /// The views whose encoding deserializes back to the same view.
    spec fn codec_exact(m: Self::V) -> bool;

    /// Round trip: deserializing a serialized value recovers the value.
    proof fn lemma_codec_roundtrip(m: Self::V)
        requires
            Self::codec_exact(m),
        ensures
            Self::deser_spec(Self::ser_spec(m)) == Some(m),
    ;

    fn serialize(&self) -> (r: Vec<u8>)
        ensures
            r@ == Self::ser_spec(self@),
    ;

    fn deserialize(bytes: &[u8]) -> (r: Result<Self, DeserializationError>)
        ensures
            match r {
                Ok(v) => Self::deser_spec(bytes@) == Some(v@),
                Err(_) => Self::deser_spec(bytes@) is None,
            },
    ;
}

impl Serializable for u32 {
    open spec fn ser_spec(m: u32) -> Seq<u8> {
        spec_u32_to_be_bytes(m)
    }

    open spec fn deser_spec(b: Seq<u8>) -> Option<u32> {
        if b.len() >= 4 {
            Some(spec_u32_from_be_bytes(b))
        } else {
            None
        }
    }

    open spec fn codec_exact(m: u32) -> bool {
        true
    }

    proof fn lemma_codec_roundtrip(m: u32) {
        lemma_u32_be_bytes_roundtrip(m);
    }

    fn serialize(&self) -> (r: Vec<u8>)
        ensures
            r@ == Self::ser_spec(self@),
    {
        let b1: u8 = ((*self >> 24) & 0xff) as u8;
        let b2: u8 = ((*self >> 16) & 0xff) as u8;
        let b3: u8 = ((*self >> 8) & 0xff) as u8;
        let b4: u8 = (*self & 0xff) as u8;
        let mut r: Vec<u8> = Vec::with_capacity(4);
        r.push(b1);
        r.push(b2);
        r.push(b3);
        r.push(b4);
        proof {
            assert(r@ =~= spec_u32_to_be_bytes(*self));
        }
        r
    }

    fn deserialize(bytes: &[u8]) -> (r: Result<Self, DeserializationError>)
        ensures
            match r {
                Ok(v) => Self::deser_spec(bytes@) == Some(v@),
                Err(_) => Self::deser_spec(bytes@) is None,
            },
    {
        if bytes.len() < 4 {
            Err(DeserializationError::new())
        } else {
            let b0 = bytes[0];
            let b1 = bytes[1];
            let b2 = bytes[2];
            let b3 = bytes[3];
            let v: u32 = ((b0 as u32) << 24) | ((b1 as u32) << 16) | ((b2 as u32) << 8)
                | (b3 as u32);
            Ok(v)
        }
    }
}

impl Serializable for usize {
    open spec fn ser_spec(m: usize) -> Seq<u8> {
        spec_u32_to_be_bytes(m as u32)
    }

    open spec fn deser_spec(b: Seq<u8>) -> Option<usize> {
        if b.len() >= 4 {
            Some(spec_u32_from_be_bytes(b) as usize)
        } else {
            None
        }
    }

    open spec fn codec_exact(m: usize) -> bool {
        m <= u32::MAX
    }

    proof fn lemma_codec_roundtrip(m: usize) {
        lemma_u32_be_bytes_roundtrip(m as u32);
    }

    fn serialize(&self) -> (r: Vec<u8>)
        ensures
            r@ == Self::ser_spec(self@),
    {
        #[verifier::truncate]
        let narrowed: u32 = *self as u32;
        narrowed.serialize()
    }

    fn deserialize(bytes: &[u8]) -> (r: Result<Self, DeserializationError>)
        ensures
            match r {
                Ok(v) => Self::deser_spec(bytes@) == Some(v@),
                Err(_) => Self::deser_spec(bytes@) is None,
            },
    {
        match u32::deserialize(bytes) {
            Ok(v) => Ok(v as usize),
            Err(e) => Err(e),
        }
    }
}

impl Serializable for String {
    open spec fn ser_spec(m: Seq<char>) -> Seq<u8> {
        encode_utf8(m)
    }

    open spec fn deser_spec(b: Seq<u8>) -> Option<Seq<char>> {
        if valid_utf8(b) {
            Some(decode_utf8(b))
        } else {
            None
        }
    }

    open spec fn codec_exact(m: Seq<char>) -> bool {
        true
    }

    proof fn lemma_codec_roundtrip(m: Seq<char>) {
        encode_utf8_valid_utf8(m);
        encode_utf8_decode_utf8(m);
    }

    fn serialize(&self) -> (r: Vec<u8>)
        ensures
            r@ == Self::ser_spec(self@),
    {
        slice_to_vec(self.as_str().as_bytes())
    }

    fn deserialize(bytes: &[u8]) -> (r: Result<Self, DeserializationError>)
        ensures
            match r {
                Ok(v) => Self::deser_spec(bytes@) == Some(v@),
                Err(_) => Self::deser_spec(bytes@) is None,
            },
    {
        match bytes_to_text(bytes) {
            Some(s) => Ok(s),
            None => Err(DeserializationError::new()),
        }
    }
}

/// Relies on `String::from_utf8`: it returns the decoded text exactly when
/// the bytes are a valid UTF-8 encoding, and rejects them otherwise.
#[verifier::external_body]
fn bytes_to_text(bytes: &[u8]) -> (r: Option<String>)
    ensures
        match r {
            Some(s) => valid_utf8(bytes@) && s@ == decode_utf8(bytes@),
            None => !valid_utf8(bytes@),
        },
{
    String::from_utf8(bytes.to_vec()).ok()
}

/// The optional successor identity read from a wire word: 0 is the sentinel
/// for "no next page".
pub open spec fn spec_next_of_wire(v: u32) -> Option<u32> {
    if v == 0 {
        None
    } else {
        Some(v)
    }
}

/// The wire word for an optional successor identity.
pub open spec fn spec_wire_of_next(n: Option<u32>) -> u32 {
    match n {
        None => 0,
        Some(v) => v,
    }
}

/// Turns a wire word into the optional successor identity it denotes.
pub fn to_option(value: u32) -> (r: Option<u32>)
    ensures
        r == spec_next_of_wire(value),
{
    if value == 0 {
        None
    } else {
        Some(value)
    }
}

/// Round trip for text: deserializing serialized text yields the original
/// characters, for every character sequence.
pub proof fn lemma_text_roundtrip(m: Seq<char>)
    ensures
        String::deser_spec(String::ser_spec(m)) == Some(m),
{
    String::lemma_codec_roundtrip(m);
}

/// Corruption detection: a single byte outside the ASCII range is never a
/// complete UTF-8 encoding, so deserializing it as text is rejected.
pub proof fn lemma_corrupt_byte_rejected(b: u8)
    requires
        b >= 0x80,
    ensures
        String::deser_spec(seq![b]) is None,
{
    assert(!valid_utf8(seq![b]));
}

} // verus!
