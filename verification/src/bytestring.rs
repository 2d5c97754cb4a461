//! A read-only string that is a view into a shared, reference-counted buffer.

use bytes::Bytes;
use vstd::prelude::*;
use vstd::std_specs::cmp::PartialEqSpec;
use vstd::utf8::{decode_utf8, encode_utf8, valid_utf8};

verus! {

broadcast use {vstd::utf8::encode_utf8_valid_utf8, vstd::utf8::encode_utf8_decode_utf8};

/// `bytes::Bytes`, a cheaply clonable handle to a range of an immutable buffer.
#[verifier::external_type_specification]
#[verifier::external_body]
pub struct ExBytes(bytes::Bytes);

/// The bytes that a `Bytes` handle gives access to, in order.
pub uninterp spec fn bytes_content(b: Bytes) -> Seq<u8>;

/// `Bytes::from(String)` takes over the string's buffer: the handle holds the
/// string's UTF-8 encoding.
pub assume_specification[ <bytes::Bytes as core::convert::From<String>>::from ](s: String) -> (r:
    bytes::Bytes)
    ensures
        bytes_content(r) == encode_utf8(s@),
;

/// `Bytes::as_ref` borrows the handle's range as a slice.
pub assume_specification[ <bytes::Bytes as core::convert::AsRef<[u8]>>::as_ref ](
    b: &bytes::Bytes,
) -> (r: &[u8])
    ensures
        r@ == bytes_content(*b),
;

/// `Bytes::clone` makes a second handle to the same range; no byte is copied.
pub assume_specification[ <bytes::Bytes as core::clone::Clone>::clone ](b: &bytes::Bytes) -> (r:
    bytes::Bytes)
    ensures
        bytes_content(r) == bytes_content(*b),
;

/// `Bytes::slice` with the range `start..end`: a handle to that part of the
/// same buffer. It panics unless `start <= end <= len`, which `requires` rules out.
#[verifier::external_body]
fn bytes_slice(b: &Bytes, start: usize, end: usize) -> (r: Bytes)
    requires
        start <= end <= bytes_content(*b).len(),
    ensures
        bytes_content(r) == bytes_content(*b).subrange(start as int, end as int),
{
    b.slice(start..end)
}

/// `core::str::from_utf8`: the bytes as a string slice when they are valid
/// UTF-8, and nothing when they are not.
#[verifier::external_body]
fn str_from_utf8(bytes: &[u8]) -> (r: Option<&str>)
    ensures
        r is Some <==> valid_utf8(bytes@),
        r matches Some(s) ==> s@ == decode_utf8(bytes@),
{
    core::str::from_utf8(bytes).ok()
}

/// Why a range of a buffer cannot back a string.
#[derive(Clone, Copy, Debug, PartialEq, Eq)]
pub enum InvalidSlice {
    /// The range does not lie within the buffer.
    OutOfBounds,
    /// The bytes of the range are not valid UTF-8.
    NotUtf8,
}

/// The text that the bytes `start..end` of a buffer hold, or why they hold none.
pub open spec fn slice_text(content: Seq<u8>, start: int, end: int) -> Result<
    Seq<char>,
    InvalidSlice,
> {
    if !(0 <= start <= end <= content.len()) {
        Err(InvalidSlice::OutOfBounds)
    } else if !valid_utf8(content.subrange(start, end)) {
        Err(InvalidSlice::NotUtf8)
    } else {
        Ok(decode_utf8(content.subrange(start, end)))
    }
}

/// A read-only string backed by a `Bytes` handle. It either owns its buffer or
/// shares a range of a larger one; which of the two cannot be told from outside.
#[derive(Debug, Hash)]
pub struct ByteString {
    bytes: Bytes,
}

impl View for ByteString {
    type V = Seq<char>;

    /// The text of the string.
    closed spec fn view(&self) -> Seq<char> {
        decode_utf8(bytes_content(self.bytes))
    }
}

impl ByteString {
    #[verifier::type_invariant]
    spec fn well_formed(&self) -> bool {
        valid_utf8(bytes_content(self.bytes))
    }

    /// The bytes that back the string: the UTF-8 encoding of its text.
    pub closed spec fn spec_bytes(&self) -> Seq<u8> {
        bytes_content(self.bytes)
    }

    /// A string that views the bytes `start..end` of `origin` without copying
    /// them. The range must lie within the buffer and hold valid UTF-8.
    pub fn new(origin: &Bytes, start: usize, end: usize) -> (res: Result<ByteString, InvalidSlice>)
        ensures
            match slice_text(bytes_content(*origin), start as int, end as int) {
                Ok(text) => res is Ok && res->Ok_0@ == text && res->Ok_0.spec_bytes()
                    == bytes_content(*origin).subrange(start as int, end as int),
                Err(e) => res == Err::<ByteString, _>(e),
            },
    {
        if start > end || end > origin.as_ref().len() {
            return Err(InvalidSlice::OutOfBounds);
        }
        let bytes = bytes_slice(origin, start, end);
        if str_from_utf8(bytes.as_ref()).is_none() {
            return Err(InvalidSlice::NotUtf8);
        }
        Ok(ByteString { bytes })
    }

    /// A string that owns a buffer of its own, taken over from `s`.
    pub fn from_string(s: String) -> (r: ByteString)
        ensures
            r@ == s@,
            r.spec_bytes() == encode_utf8(s@),
    {
        ByteString { bytes: Bytes::from(s) }
    }

    /// A string that owns a fresh copy of `s`.
    pub fn from_str(s: &str) -> (r: ByteString)
        ensures
            r@ == s@,
            r.spec_bytes() == encode_utf8(s@),
    {
        ByteString { bytes: Bytes::from(s.to_owned()) }
    }

    /// The text as a string slice.
    pub fn as_str(&self) -> (s: &str)
        ensures
            s@ == self@,
    {
        proof {
            use_type_invariant(self);
        }
        match str_from_utf8(self.bytes.as_ref()) {
            Some(s) => s,
            None => "",
        }
    }

    /// The handle that backs the string.
    pub fn inner(&self) -> (b: &Bytes)
        ensures
            bytes_content(*b) == self.spec_bytes(),
            bytes_content(*b) == encode_utf8(self@),
    {
        proof {
            use_type_invariant(self);
            vstd::utf8::decode_utf8_encode_utf8(bytes_content(self.bytes));
        }
        &self.bytes
    }

    /// The length of the text in bytes.
    pub fn len(&self) -> (n: usize)
        ensures
            n == encode_utf8(self@).len(),
    {
        proof {
            use_type_invariant(self);
            vstd::utf8::decode_utf8_encode_utf8(bytes_content(self.bytes));
        }
        self.bytes.as_ref().len()
    }
}

impl Clone for ByteString {
    /// A second handle to the same bytes; nothing is copied.
    fn clone(&self) -> (r: Self)
        ensures
            r@ == self@,
            r.spec_bytes() == self.spec_bytes(),
    {
        proof {
            use_type_invariant(self);
        }
        ByteString { bytes: self.bytes.clone() }
    }
}

impl From<String> for ByteString {
    /// A string that owns a buffer of its own, taken over from `s`.
    fn from(s: String) -> (r: ByteString)
        ensures
            r@ == s@,
    {
        ByteString::from_string(s)
    }
}

/// Which handle backs the result is not a matter of the text alone, so the
/// conversion is described by the contract of `from`, not by a function of
/// the argument.
impl vstd::std_specs::convert::FromSpecImpl<String> for ByteString {
    open spec fn obeys_from_spec() -> bool {
        false
    }

    open spec fn from_spec(s: String) -> ByteString {
        arbitrary()
    }
}

impl From<&str> for ByteString {
    /// A string that owns a fresh copy of `s`.
    fn from(s: &str) -> (r: ByteString)
        ensures
            r@ == s@,
    {
        ByteString::from_str(s)
    }
}

/// As for `String`: the contract of `from` describes the conversion.
impl vstd::std_specs::convert::FromSpecImpl<&str> for ByteString {
    open spec fn obeys_from_spec() -> bool {
        false
    }

    open spec fn from_spec(s: &str) -> ByteString {
        arbitrary()
    }
}

/// Whether two byte slices hold the same bytes.
fn same_bytes(a: &[u8], b: &[u8]) -> (r: bool)
    ensures
        r == (a@ == b@),
{
    if a.len() != b.len() {
        return false;
    }
    let mut i: usize = 0;
    while i < a.len()
        invariant
            i <= a.len() == b.len(),
            forall|j: int| 0 <= j < i ==> a@[j] == b@[j],
        decreases a.len() - i,
    {
        if a[i] != b[i] {
            return false;
        }
        i = i + 1;
    }
    assert(a@ =~= b@);
    true
}

impl PartialEq for ByteString {
    /// Two strings are equal when their texts are, whatever buffers back them.
    fn eq(&self, other: &Self) -> (r: bool) {
        proof {
            use_type_invariant(self);
            use_type_invariant(other);
            vstd::utf8::decode_utf8_encode_utf8(bytes_content(self.bytes));
            vstd::utf8::decode_utf8_encode_utf8(bytes_content(other.bytes));
        }
        same_bytes(self.bytes.as_ref(), other.bytes.as_ref())
    }
}

impl Eq for ByteString {

}

impl vstd::std_specs::cmp::PartialEqSpecImpl for ByteString {
    open spec fn obeys_eq_spec() -> bool {
        true
    }

    open spec fn eq_spec(&self, other: &Self) -> bool {
        self@ == other@
    }
}

impl ByteString {
    /// Whether the text equals `s`.
    pub fn eq_str(&self, s: &str) -> (r: bool)
        ensures
            r == (self@ == s@),
    {
        proof {
            use_type_invariant(self);
            vstd::utf8::decode_utf8_encode_utf8(bytes_content(self.bytes));
        }
        same_bytes(self.bytes.as_ref(), s.as_bytes())
    }
}

/// Strings with the same text are equal and share one encoding, whether each
/// owns its buffer or views a part of another.
pub proof fn lemma_equality_ignores_buffer(a: ByteString, b: ByteString)
    requires
        a@ == b@,
        valid_utf8(a.spec_bytes()),
        valid_utf8(b.spec_bytes()),
    ensures
        a.eq_spec(&b),
        a.spec_bytes() == b.spec_bytes(),
{
    vstd::utf8::decode_utf8_encode_utf8(a.spec_bytes());
    vstd::utf8::decode_utf8_encode_utf8(b.spec_bytes());
}

} // verus!
