//! The text marshaling boundary: a byte-range view of a text value, and the
//! decode back into text — the one data-dependent failure at the library's
//! edge, surfaced as a recoverable error.

use vstd::prelude::*;

verus! {

use vstd::utf8::encode_utf8;
use vstd::utf8::encode_utf8_decode_utf8;
use vstd::utf8::encode_utf8_valid_utf8;
use vstd::utf8::valid_utf8;
use vstd::slice::slice_to_vec;

/// Error returned when a byte range does not decode as text.
#[derive(Clone, Copy, PartialEq, Eq, Structural, Debug)]
pub struct DecodeError;

/// A byte-range view of a text value.
pub struct StringRef {
    bytes: Vec<u8>,
}

impl View for StringRef {
    type V = Seq<u8>;

    closed spec fn view(&self) -> Seq<u8> {
        self.bytes@
    }
}

/// Relies on `str::from_utf8`: it succeeds exactly on the byte ranges that
/// are valid UTF-8, and then returns the text those bytes encode (the same
/// contract vstd itself gives the unchecked variant).
#[verifier::external_body]
fn bytes_to_str(b: &[u8]) -> (r: Option<&str>)
    ensures
        match r {
            Some(s) => valid_utf8(b@) && encode_utf8(s@) == b@,
            None => !valid_utf8(b@),
        },
{
    std::str::from_utf8(b).ok()
}

impl StringRef {
    /// Encode a text value as a view over its underlying bytes.
    pub fn from_text(s: &str) -> (r: StringRef)
        ensures
            r@ == encode_utf8(s@),
            valid_utf8(r@),
    {
        proof {
            encode_utf8_valid_utf8(s@);
        }
        StringRef { bytes: slice_to_vec(s.as_bytes()) }
    }

    /// Wrap raw bytes, which need not be valid text.
    pub fn from_bytes(bytes: Vec<u8>) -> (r: StringRef)
        ensures
            r@ == bytes@,
    {
        StringRef { bytes }
    }

    /// The number of bytes in the view.
    pub fn len(&self) -> (n: usize)
        ensures
            n == self@.len(),
    {
        self.bytes.len()
    }

    /// Decode the byte range back into text. Returns the text whose encoding
    /// is exactly this view's bytes when they are valid UTF-8, and an error
    /// if and only if they are not.
    pub fn to_text(&self) -> (r: Result<String, DecodeError>)
        ensures
            match r {
                Ok(s) => valid_utf8(self@) && encode_utf8(s@) == self@,
                Err(_) => !valid_utf8(self@),
            },
    {
        match bytes_to_str(self.bytes.as_slice()) {
            Some(s) => Ok(s.to_owned()),
            None => Err(DecodeError),
        }
    }
}

/// Texts with the same byte encoding are the same text: decoding a view made
/// by `from_text` can only return the text it was made from.
pub proof fn lemma_encode_injective(s: Seq<char>, t: Seq<char>)
    requires
        encode_utf8(s) == encode_utf8(t),
    ensures
        s == t,
{
    encode_utf8_decode_utf8(s);
    encode_utf8_decode_utf8(t);
}

} // verus!
