//! Fixed-shape JSON response bodies.
//!
//! The enclosing handler wraps these bytes in an HTTP response with its
//! status code and headers; this type computes the body itself, with the
//! message escaped as a JSON string.

use vstd::prelude::*;
use vstd::utf8::encode_utf8;

use crate::json::escape_bytes;
use crate::json::push_escaped;

verus! {

/// The JSON body carrying one human-readable message.
pub open spec fn message_body_bytes(message: Seq<char>) -> Seq<u8> {
    encode_utf8("{\"message\":\""@) + (escape_bytes(encode_utf8(message)) + encode_utf8("\"}"@))
}

/// A builder of JSON response bodies with a fixed shape.
pub struct ApiResponse;

impl ApiResponse {
    /// A fresh body builder.
    pub fn new() -> Self {
        ApiResponse
    }

    /// The body `{"message":"..."}` for one message, escaped as a JSON
    /// string.
    pub fn message_body(&self, message: &str) -> (r: Vec<u8>)
        ensures
            r@ == message_body_bytes(message@),
    {
        let mut out: Vec<u8> = Vec::new();
        out.extend_from_slice("{\"message\":\"".as_bytes());
        push_escaped(&mut out, message);
        out.extend_from_slice("\"}".as_bytes());
        proof {
            assert(out@ =~= message_body_bytes(message@));
        }
        out
    }

    /// The fixed body of the unauthorized response: it never carries
    /// internal diagnostic detail.
    pub fn unauthorized_body(&self) -> (r: Vec<u8>)
        ensures
            r@ == message_body_bytes("Unauthorized."@),
    {
        self.message_body("Unauthorized.")
    }
}

} // verus!
