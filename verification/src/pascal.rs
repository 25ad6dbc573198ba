//! Strings prefixed by a single length byte.

use vstd::prelude::*;
use vstd::slice::*;
use vstd::string::*;
use vstd::utf8::*;

use crate::error::CodecError;

verus! {

/// The length byte followed by at most `max_length` bytes of `text`.
pub open spec fn pascal_bytes(text: Seq<u8>, max_length: u8) -> Seq<u8> {
    let n: int = if text.len() > max_length { max_length as int } else { text.len() as int };
    seq![n as u8] + text.subrange(0, n)
}

/// The bytes that the length byte of `bytes` announces, where that many
/// follow it.
pub open spec fn pascal_payload(bytes: Seq<u8>) -> Option<Seq<u8>> {
    if bytes.len() >= 1 && bytes[0] as int <= bytes.len() - 1 {
        Some(bytes.subrange(1, 1 + bytes[0] as int))
    } else {
        None
    }
}

/// The text that a length-prefixed buffer carries, where it carries one.
pub open spec fn pascal_text(bytes: Seq<u8>) -> Option<Seq<char>> {
    match pascal_payload(bytes) {
        Some(payload) => if valid_utf8(payload) {
            Some(decode_utf8(payload))
        } else {
            None
        },
        None => None,
    }
}

/// `String::from_utf8` of std: the bytes become a string exactly when they
/// are valid UTF-8, and the string then holds the characters they encode.
#[verifier::external_body]
fn string_from_utf8(bytes: Vec<u8>) -> (r: Option<String>)
    ensures
        r is Some <==> valid_utf8(bytes@),
        r is Some ==> r->0@ == decode_utf8(bytes@),
{
    String::from_utf8(bytes).ok()
}

/// Reads a length-prefixed string: the first byte is the number of bytes of
/// text that follow it.
pub fn from_pascal_string(pstring: &[u8]) -> (r: Result<String, CodecError>)
    ensures
        match r {
            Ok(s) => pascal_text(pstring@) == Some(s@),
            Err(e) => e == CodecError::MalformedString && pascal_text(pstring@) is None,
        },
{
    if pstring.len() == 0 {
        return Err(CodecError::MalformedString);
    }
    let length: usize = pstring[0] as usize;
    if pstring.len() - 1 < length {
        return Err(CodecError::MalformedString);
    }
    let payload = slice_to_vec(slice_subrange(pstring, 1, length + 1));
    match string_from_utf8(payload) {
        Some(s) => Ok(s),
        None => Err(CodecError::MalformedString),
    }
}

/// Writes `data` as a length-prefixed string, cut after `max_length` bytes
/// where it is longer.
pub fn to_pascal_string(data: &str, max_length: u8) -> (r: Vec<u8>)
    ensures
        r@ == pascal_bytes(data.spec_bytes(), max_length),
{
    let bytes = data.as_bytes();
    let length: u8 = if bytes.len() > max_length as usize {
        max_length
    } else {
        bytes.len() as u8
    };
    let mut builder: Vec<u8> = Vec::new();
    builder.push(length);
    let mut i: usize = 0;
    while i < length as usize
        invariant
            i <= length as usize <= bytes@.len(),
            builder@ == seq![length] + bytes@.subrange(0, i as int),
        decreases length as usize - i,
    {
        builder.push(bytes[i]);
        i += 1;
        assert(builder@ =~= seq![length] + bytes@.subrange(0, i as int));
    }
    builder
}

/// The bytes of `text` that a limit lets through.
pub open spec fn kept_bytes(text: Seq<u8>, max_length: u8) -> Seq<u8> {
    if text.len() > max_length {
        text.subrange(0, max_length as int)
    } else {
        text
    }
}

/// What was written with a limit reads back as the first `max_length`
/// bytes of the text, or as all of it where it is shorter; as text, where
/// those bytes are text.
pub proof fn lemma_pascal_payload_of_bytes(text: Seq<u8>, max_length: u8)
    ensures
        pascal_payload(pascal_bytes(text, max_length)) == Some(kept_bytes(text, max_length)),
        pascal_text(pascal_bytes(text, max_length)) == if valid_utf8(
            kept_bytes(text, max_length),
        ) {
            Some(decode_utf8(kept_bytes(text, max_length)))
        } else {
            None
        },
{
    let n: int = if text.len() > max_length { max_length as int } else { text.len() as int };
    let b = pascal_bytes(text, max_length);
    assert(b.len() == n + 1);
    assert(b[0] == n as u8);
    assert(b.subrange(1, 1 + n) =~= text.subrange(0, n));
    assert(text.len() <= max_length ==> text.subrange(0, n) =~= text);
}

/// A text of at most `max_length` bytes reads back as it was written.
pub proof fn lemma_pascal_round_trip(text: Seq<char>, max_length: u8)
    requires
        encode_utf8(text).len() <= max_length,
    ensures
        pascal_text(pascal_bytes(encode_utf8(text), max_length)) == Some(text),
{
    lemma_pascal_payload_of_bytes(encode_utf8(text), max_length);
    encode_utf8_valid_utf8(text);
    encode_utf8_decode_utf8(text);
}

} // verus!
