//! Conversions between byte sequences and character strings.
//!
//! The codec and the authenticator do their work on bytes; this module holds
//! the one trusted conversion from bytes back to a `String` and the lemma
//! that ASCII bytes decode to the corresponding ASCII characters.

use vstd::prelude::*;
use vstd::utf8::*;

verus! {

/// The characters an all-ASCII byte sequence stands for, byte by byte.
pub open spec fn ascii_chars_of(v: Seq<u8>) -> Seq<char> {
    v.map_values(|b: u8| b as char)
}

/// True when every byte of the sequence is an ASCII byte.
pub open spec fn is_ascii_bytes(v: Seq<u8>) -> bool {
    forall|i: int| 0 <= i < v.len() ==> v[i] < 0x80
}

/// Relies on `String::from_utf8`: it succeeds exactly on valid UTF-8 input
/// and returns the string made of the decoded characters.
#[verifier::external_body]
pub fn bytes_to_string(v: Vec<u8>) -> (r: Option<String>)
    ensures
        r is Some <==> valid_utf8(v@),
        r matches Some(s) ==> s@ == decode_utf8(v@),
{
    match String::from_utf8(v) {
        Ok(s) => Some(s),
        Err(_) => None,
    }
}

/// A sequence of ASCII bytes is valid UTF-8 and decodes to the
/// corresponding ASCII characters.
pub proof fn lemma_ascii_bytes_utf8(v: Seq<u8>)
    requires
        is_ascii_bytes(v),
    ensures
        valid_utf8(v),
        decode_utf8(v) == ascii_chars_of(v),
        encode_utf8(ascii_chars_of(v)) == v,
        is_ascii_chars(ascii_chars_of(v)),
{
    broadcast use vstd::utf8::group_utf8_lib;

    let chars = ascii_chars_of(v);
    assert forall|i: int| 0 <= i < chars.len() implies '\0' <= #[trigger] chars[i]
        <= '\u{7f}' by {
        assert(chars[i] == v[i] as char);
        assert(v[i] < 0x80);
    }
    assert(is_ascii_chars(chars));
    is_ascii_chars_encode_utf8(chars);
    assert(encode_utf8(chars) =~= v);
    encode_utf8_valid_utf8(chars);
    encode_utf8_decode_utf8(chars);
}

} // verus!
