//! The token codec: it signs a claims payload into an opaque credential
//! string and verifies such a string back into claims.
//!
//! A credential is three base64url segments joined by dots: a fixed header,
//! the claims payload as JSON, and an HMAC-SHA256 signature over the first
//! two segments. The payload serializer and parser are verified down to the
//! bytes; only the signature itself is computed by the outside signing
//! library, behind trusted wrappers.

use vstd::prelude::*;
use vstd::string::StrSliceExecFns;
use vstd::string::StringSliceAdditionalSpecFns;
use vstd::utf8::*;

use crate::b64::b64_decode;
use crate::b64::b64_encode;
use crate::b64::base64url_decode;
use crate::b64::base64url_encode;
use crate::b64::is_b64url_seq;
use crate::b64::lemma_b64_decode_encode;
use crate::error::AuthError;
use crate::error::SerializableError;
use crate::json::escape_bytes;
use crate::json::expect_lit;
use crate::json::expect_lit_exec;
use crate::json::int_bytes;
use crate::json::is_digit;
use crate::json::lemma_expect_lit_inverse;
use crate::json::lemma_expect_lit_mismatch;
use crate::json::lemma_expect_lit_prefix;
use crate::json::lemma_scan_i64_inverse;
use crate::json::lemma_scan_jstr_inverse;
use crate::json::lemma_scan_escape;
use crate::json::lemma_scan_int_bytes;
use crate::json::push_escaped;
use crate::json::push_i64;
use crate::json::scan_i64;
use crate::json::scan_i64_exec;
use crate::json::scan_jstr;
use crate::json::scan_jstr_exec;
use crate::text::bytes_to_string;
use crate::text::is_ascii_bytes;
use crate::text::lemma_ascii_bytes_utf8;
use crate::types::AuthClaims;
use crate::types::AuthUser;
use crate::types::ClaimsView;
use crate::types::TokenType;
use crate::types::UserView;

verus! {

/// The UTF-8 bytes of a literal.
pub open spec fn lit_bytes(s: &str) -> Seq<u8> {
    encode_utf8(s@)
}

/// The bytes a text value contributes to the payload: its UTF-8 encoding,
/// escaped as a JSON string body.
pub open spec fn jstr_body(t: Seq<char>) -> Seq<u8> {
    escape_bytes(encode_utf8(t))
}

/// The payload bytes from the token-type label onward, closing the label's
/// string and opening the identity field.
pub open spec fn token_type_piece(t: TokenType) -> Seq<u8> {
    match t {
        TokenType::AccessToken => lit_bytes("AccessToken\",\"user_details\":"),
        TokenType::RefreshToken => lit_bytes("RefreshToken\",\"user_details\":"),
    }
}

/// The payload bytes for the optional middle name, running up to the opening
/// quote of the last name.
pub open spec fn middle_name_piece(m: Option<Seq<char>>) -> Seq<u8> {
    match m {
        None => lit_bytes("null,\"last_name\":\""),
        Some(mn) => lit_bytes("\"") + (jstr_body(mn) + lit_bytes("\",\"last_name\":\"")),
    }
}

/// The payload bytes for the optional embedded identity, including the
/// closing brace of the whole payload object.
pub open spec fn user_details_piece(u: Option<UserView>) -> Seq<u8> {
    match u {
        None => lit_bytes("null}"),
        Some(uv) => lit_bytes("{\"id\":\"") + (jstr_body(uv.id) + (lit_bytes(
            "\",\"first_name\":\"",
        ) + (jstr_body(uv.first_name) + (lit_bytes("\",\"middle_name\":") + (middle_name_piece(
            uv.middle_name,
        ) + (jstr_body(uv.last_name) + (lit_bytes("\",\"email\":\"") + (jstr_body(uv.email)
            + lit_bytes("\"}}"))))))))),
    }
}

/// The JSON bytes a claims value is written as.
pub open spec fn payload_bytes(c: ClaimsView) -> Seq<u8> {
    lit_bytes("{\"sub\":\"") + (jstr_body(c.subject) + (lit_bytes("\",\"exp\":") + (int_bytes(
        c.expires_in,
    ) + (lit_bytes(",\"token_type\":\"") + (token_type_piece(c.token_type) + user_details_piece(
        c.user_details,
    ))))))
}

/// The JSON bytes of the fixed credential header.
pub open spec fn header_bytes() -> Seq<u8> {
    lit_bytes("{\"alg\":\"HS256\",\"typ\":\"JWT\"}")
}

/// Concatenation on the empty sequence.
proof fn lemma_empty_concat(x: Seq<u8>)
    ensures
        Seq::<u8>::empty() + x == x,
{
    assert(Seq::<u8>::empty() + x =~= x);
}

/// Rebalance three appended pieces into right-nested form.
proof fn lemma_assoc3(b: Seq<u8>, x1: Seq<u8>, x2: Seq<u8>, x3: Seq<u8>)
    ensures
        ((b + x1) + x2) + x3 == b + (x1 + (x2 + x3)),
{
    assert(((b + x1) + x2) + x3 =~= b + (x1 + (x2 + x3)));
}

/// Rebalance seven appended pieces into right-nested form.
proof fn lemma_assoc7(
    b: Seq<u8>,
    x1: Seq<u8>,
    x2: Seq<u8>,
    x3: Seq<u8>,
    x4: Seq<u8>,
    x5: Seq<u8>,
    x6: Seq<u8>,
    x7: Seq<u8>,
)
    ensures
        ((((((b + x1) + x2) + x3) + x4) + x5) + x6) + x7 == b + (x1 + (x2 + (x3 + (x4 + (x5 + (x6
            + x7)))))),
{
    assert(((((((b + x1) + x2) + x3) + x4) + x5) + x6) + x7 =~= b + (x1 + (x2 + (x3 + (x4 + (x5 + (
    x6 + x7)))))));
}

/// Rebalance ten appended pieces into right-nested form.
proof fn lemma_assoc10(
    b: Seq<u8>,
    x1: Seq<u8>,
    x2: Seq<u8>,
    x3: Seq<u8>,
    x4: Seq<u8>,
    x5: Seq<u8>,
    x6: Seq<u8>,
    x7: Seq<u8>,
    x8: Seq<u8>,
    x9: Seq<u8>,
    x10: Seq<u8>,
)
    ensures
        (((((((((b + x1) + x2) + x3) + x4) + x5) + x6) + x7) + x8) + x9) + x10 == b + (x1 + (x2 + (
        x3 + (x4 + (x5 + (x6 + (x7 + (x8 + (x9 + x10))))))))),
{
    assert((((((((((b + x1) + x2) + x3) + x4) + x5) + x6) + x7) + x8) + x9) + x10 =~= b + (x1 + (x2
        + (x3 + (x4 + (x5 + (x6 + (x7 + (x8 + (x9 + x10))))))))));
}

/// Append the payload bytes of the optional embedded identity.
fn push_user_details(out: &mut Vec<u8>, user: &Option<AuthUser>)
    ensures
        final(out)@ == old(out)@ + user_details_piece(
            match user {
                Some(u) => Some(u@),
                None => None,
            },
        ),
{
    match user {
        None => {
            out.extend_from_slice("null}".as_bytes());
        },
        Some(u) => {
            out.extend_from_slice("{\"id\":\"".as_bytes());
            push_escaped(out, u.id.as_str());
            out.extend_from_slice("\",\"first_name\":\"".as_bytes());
            push_escaped(out, u.first_name.as_str());
            out.extend_from_slice("\",\"middle_name\":".as_bytes());
            let ghost before_middle = out@;
            match &u.middle_name {
                None => out.extend_from_slice("null,\"last_name\":\"".as_bytes()),
                Some(m) => {
                    out.extend_from_slice("\"".as_bytes());
                    push_escaped(out, m.as_str());
                    out.extend_from_slice("\",\"last_name\":\"".as_bytes());
                    proof {
                        lemma_assoc3(
                            before_middle,
                            lit_bytes("\""),
                            jstr_body(m@),
                            lit_bytes("\",\"last_name\":\""),
                        );
                    }
                },
            }
            proof {
                assert(out@ == before_middle + middle_name_piece(u@.middle_name));
            }
            push_escaped(out, u.last_name.as_str());
            out.extend_from_slice("\",\"email\":\"".as_bytes());
            push_escaped(out, u.email.as_str());
            out.extend_from_slice("\"}}".as_bytes());
            proof {
                lemma_assoc10(
                    old(out)@,
                    lit_bytes("{\"id\":\""),
                    jstr_body(u@.id),
                    lit_bytes("\",\"first_name\":\""),
                    jstr_body(u@.first_name),
                    lit_bytes("\",\"middle_name\":"),
                    middle_name_piece(u@.middle_name),
                    jstr_body(u@.last_name),
                    lit_bytes("\",\"email\":\""),
                    jstr_body(u@.email),
                    lit_bytes("\"}}"),
                );
            }
        },
    }
}

/// Build the payload bytes of a claims value.
pub fn build_payload(claims: &AuthClaims) -> (out: Vec<u8>)
    ensures
        out@ == payload_bytes(claims@),
{
    let mut out: Vec<u8> = Vec::new();
    out.extend_from_slice("{\"sub\":\"".as_bytes());
    push_escaped(&mut out, claims.subject.as_str());
    out.extend_from_slice("\",\"exp\":".as_bytes());
    push_i64(&mut out, claims.expires_in);
    out.extend_from_slice(",\"token_type\":\"".as_bytes());
    match claims.token_type {
        TokenType::AccessToken => out.extend_from_slice("AccessToken\",\"user_details\":".as_bytes()),
        TokenType::RefreshToken => out.extend_from_slice(
            "RefreshToken\",\"user_details\":".as_bytes(),
        ),
    }
    push_user_details(&mut out, &claims.user_details);
    proof {
        lemma_assoc7(
            Seq::<u8>::empty(),
            lit_bytes("{\"sub\":\""),
            jstr_body(claims@.subject),
            lit_bytes("\",\"exp\":"),
            int_bytes(claims@.expires_in),
            lit_bytes(",\"token_type\":\""),
            token_type_piece(claims@.token_type),
            user_details_piece(
                match &claims.user_details {
                    Some(u) => Some(u@),
                    None => None,
                },
            ),
        );
        lemma_empty_concat(payload_bytes(claims@));
        assert(out@ == payload_bytes(claims@));
    }
    out
}

/// The base64url signature bytes the signing primitive computes for a
/// message under a secret. HMAC-SHA256 is a function of exactly these two
/// inputs, so the result carries a name; nothing in this crate states what
/// the bytes are.
pub uninterp spec fn sig_of(secret: Seq<u8>, message: Seq<u8>) -> Seq<u8>;

/// Relies on `jsonwebtoken::crypto::sign` with `Algorithm::HS256`: it
/// returns `Ok` of the base64url encoding (an alphabet without dots) of the
/// HMAC-SHA256 of the message under the secret, a function of the secret
/// and message alone.
#[verifier::external_body]
fn hmac_sign(secret: &Vec<u8>, message: &Vec<u8>) -> (r: Result<String, jsonwebtoken::errors::Error>)
    ensures
        r is Ok,
        r matches Ok(s) ==> encode_utf8(s@) == sig_of(secret@, message@),
        r matches Ok(s) ==> is_b64url_seq(encode_utf8(s@)),
{
    jsonwebtoken::crypto::sign(
        message.as_slice(),
        &jsonwebtoken::EncodingKey::from_secret(secret.as_slice()),
        jsonwebtoken::Algorithm::HS256,
    )
}

/// Relies on `jsonwebtoken::crypto::verify` with `Algorithm::HS256`: it
/// re-signs the message under the secret and returns `Ok` of whether the
/// given signature text equals that signature byte for byte.
#[verifier::external_body]
fn hmac_check(secret: &Vec<u8>, message: &Vec<u8>, signature: &str) -> (r: Result<
    bool,
    jsonwebtoken::errors::Error,
>)
    ensures
        r is Ok,
        r matches Ok(b) ==> b == (encode_utf8(signature@) == sig_of(secret@, message@)),
{
    jsonwebtoken::crypto::verify(
        signature,
        message.as_slice(),
        &jsonwebtoken::DecodingKey::from_secret(secret.as_slice()),
        jsonwebtoken::Algorithm::HS256,
    )
}

/// Relies on `chrono::Utc::now` for the current time as seconds since the
/// Unix epoch; nothing is promised of the value.
#[verifier::external_body]
fn current_timestamp() -> i64 {
    chrono::Utc::now().timestamp()
}

/// The index of the first dot, or minus one.
pub open spec fn find_dot(s: Seq<u8>) -> int
    decreases s.len(),
{
    if s.len() == 0 {
        -1
    } else if s[0] == 0x2e {
        0
    } else if find_dot(s.skip(1)) == -1 {
        -1
    } else {
        1 + find_dot(s.skip(1))
    }
}

/// `find_dot` returns minus one exactly when there is no dot, and otherwise
/// the index of the first one.
pub proof fn lemma_find_dot(s: Seq<u8>)
    ensures
        find_dot(s) == -1 ==> forall|t: int| 0 <= t < s.len() ==> s[t] != 0x2e,
        find_dot(s) != -1 ==> 0 <= find_dot(s) < s.len() && s[find_dot(s)] == 0x2e && forall|
            t: int,
        | 0 <= t < find_dot(s) ==> s[t] != 0x2e,
    decreases s.len(),
{
    if s.len() == 0 {
    } else if s[0] == 0x2e {
    } else {
        lemma_find_dot(s.skip(1));
        if find_dot(s) == -1 {
            assert forall|t: int| 0 <= t < s.len() implies s[t] != 0x2e by {
                if t >= 1 {
                    assert(s.skip(1)[t - 1] == s[t]);
                }
            }
        } else {
            assert(s[find_dot(s)] == s.skip(1)[find_dot(s) - 1]);
            assert forall|t: int| 0 <= t < find_dot(s) implies s[t] != 0x2e by {
                if t >= 1 {
                    assert(s.skip(1)[t - 1] == s[t]);
                }
            }
        }
    }
}

/// A dot at `k` with none before it pins `find_dot` to `k`.
pub proof fn lemma_find_dot_at(s: Seq<u8>, k: int)
    requires
        0 <= k < s.len(),
        s[k] == 0x2e,
        forall|t: int| 0 <= t < k ==> s[t] != 0x2e,
    ensures
        find_dot(s) == k,
    decreases k,
{
    if k == 0 {
    } else {
        assert(s[0] != 0x2e);
        assert(s.skip(1)[k - 1] == s[k]);
        assert forall|t: int| 0 <= t < k - 1 implies s.skip(1)[t] != 0x2e by {
            assert(s.skip(1)[t] == s[t + 1]);
        }
        lemma_find_dot_at(s.skip(1), k - 1);
    }
}

/// No dot anywhere pins `find_dot` to minus one.
pub proof fn lemma_find_dot_none(s: Seq<u8>)
    requires
        forall|t: int| 0 <= t < s.len() ==> s[t] != 0x2e,
    ensures
        find_dot(s) == -1,
    decreases s.len(),
{
    if s.len() != 0 {
        assert forall|t: int| 0 <= t < s.skip(1).len() implies s.skip(1)[t] != 0x2e by {
            assert(s.skip(1)[t] == s[t + 1]);
        }
        lemma_find_dot_none(s.skip(1));
    }
}

/// The three segments of a credential: the bytes before the first dot,
/// between the first and the second, and after the second, provided there
/// are exactly two dots.
pub open spec fn split_token(s: Seq<u8>) -> Option<(Seq<u8>, Seq<u8>, Seq<u8>)> {
    let i = find_dot(s);
    if i < 0 {
        None
    } else {
        let rest = s.skip(i + 1);
        let j = find_dot(rest);
        if j < 0 {
            None
        } else {
            let sig = rest.skip(j + 1);
            if find_dot(sig) >= 0 {
                None
            } else {
                Some((s.take(i), rest.take(j), sig))
            }
        }
    }
}

/// Why verification of a credential failed: it could not be read as a
/// well-formed credential at all, its expiry had passed, or its signature
/// did not match.
#[derive(Clone, Copy, Debug, PartialEq, Eq, Structural)]
pub enum VerifyFailure {
    Malformed,
    Expired,
    SignatureInvalid,
}

/// What verifying `bytes` under `secret` at time `now` returns: the parsed
/// claims where the credential has the canonical three-segment shape, a
/// header equal to this crate's, a payload in canonical form, an expiry not
/// yet passed, and the signature the signing primitive computes for the
/// first two segments — and the exact failure otherwise. The expiry is
/// checked before the signature, so an expired credential reports
/// `Expired` regardless of its signature.
pub open spec fn spec_verify(secret: Seq<u8>, bytes: Seq<u8>, now: int) -> Result<
    ClaimsView,
    VerifyFailure,
> {
    match split_token(bytes) {
        None => Err(VerifyFailure::Malformed),
        Some((h, p, sig)) => {
            if b64_decode(h) != Some(header_bytes()) {
                Err(VerifyFailure::Malformed)
            } else {
                match b64_decode(p) {
                    None => Err(VerifyFailure::Malformed),
                    Some(pb) => match parse_claims(pb) {
                        None => Err(VerifyFailure::Malformed),
                        Some(c) => if c.expires_in < now {
                            Err(VerifyFailure::Expired)
                        } else if valid_utf8(sig) && sig == sig_of(secret, h + (seq![0x2eu8] + p)) {
                            Ok(c)
                        } else {
                            Err(VerifyFailure::SignatureInvalid)
                        },
                    },
                }
            }
        },
    }
}

/// Read an optional middle name: either the `null` form or a JSON string,
/// in both cases running up to the opening quote of the last name.
pub open spec fn parse_middle(s: Seq<u8>) -> Option<(Option<Seq<u8>>, Seq<u8>)> {
    match expect_lit(s, lit_bytes("null,\"last_name\":\"")) {
        Some(s1) => Some((None, s1)),
        None => match expect_lit(s, lit_bytes("\"")) {
            None => None,
            Some(s1) => match scan_jstr(s1) {
                None => None,
                Some((mb, s2)) => match expect_lit(s2, lit_bytes("\",\"last_name\":\"")) {
                    None => None,
                    Some(s3) => if valid_utf8(mb) {
                        Some((Some(mb), s3))
                    } else {
                        None
                    },
                },
            },
        },
    }
}

/// Read the optional embedded identity together with the payload's closing
/// brace; nothing may follow.
pub open spec fn parse_user_details(s: Seq<u8>) -> Option<Option<UserView>> {
    if expect_lit(s, lit_bytes("null}")) == Some(Seq::<u8>::empty()) {
        Some(None)
    } else {
        match expect_lit(s, lit_bytes("{\"id\":\"")) {
            None => None,
            Some(s1) => match scan_jstr(s1) {
                None => None,
                Some((idb, s2)) => match expect_lit(s2, lit_bytes("\",\"first_name\":\"")) {
                    None => None,
                    Some(s3) => match scan_jstr(s3) {
                        None => None,
                        Some((fnb, s4)) => match expect_lit(s4, lit_bytes("\",\"middle_name\":")) {
                            None => None,
                            Some(s5) => match parse_middle(s5) {
                                None => None,
                                Some((mid, s6)) => match scan_jstr(s6) {
                                    None => None,
                                    Some((lnb, s7)) => match expect_lit(
                                        s7,
                                        lit_bytes("\",\"email\":\""),
                                    ) {
                                        None => None,
                                        Some(s8) => match scan_jstr(s8) {
                                            None => None,
                                            Some((emb, s9)) => match expect_lit(
                                                s9,
                                                lit_bytes("\"}}"),
                                            ) {
                                                None => None,
                                                Some(s10) => if s10.len() != 0 {
                                                    None
                                                } else if !valid_utf8(idb) || !valid_utf8(fnb)
                                                    || !valid_utf8(lnb) || !valid_utf8(emb) {
                                                    None
                                                } else {
                                                    Some(
                                                        Some(
                                                            UserView {
                                                                id: decode_utf8(idb),
                                                                first_name: decode_utf8(fnb),
                                                                middle_name: match mid {
                                                                    None => None,
                                                                    Some(mb) => Some(
                                                                        decode_utf8(mb),
                                                                    ),
                                                                },
                                                                last_name: decode_utf8(lnb),
                                                                email: decode_utf8(emb),
                                                            },
                                                        ),
                                                    )
                                                },
                                            },
                                        },
                                    },
                                },
                            },
                        },
                    },
                },
            },
        }
    }
}

/// Read the token-type label, closing its string and opening the identity
/// field.
pub open spec fn parse_token_type(s: Seq<u8>) -> Option<(TokenType, Seq<u8>)> {
    match expect_lit(s, lit_bytes("AccessToken\",\"user_details\":")) {
        Some(s1) => Some((TokenType::AccessToken, s1)),
        None => match expect_lit(s, lit_bytes("RefreshToken\",\"user_details\":")) {
            Some(s1) => Some((TokenType::RefreshToken, s1)),
            None => None,
        },
    }
}

/// Rebalance a bracketed piece followed by a remainder.
proof fn lemma_assoc_nested(a: Seq<u8>, b: Seq<u8>, c: Seq<u8>, d: Seq<u8>)
    ensures
        (a + (b + c)) + d == a + (b + (c + d)),
{
    assert((a + (b + c)) + d =~= a + (b + (c + d)));
}

/// The byte-for-byte reading of an all-ASCII literal.
proof fn lemma_lit_byte(s: &str)
    requires
        is_ascii_chars(s@),
    ensures
        lit_bytes(s).len() == s@.len(),
        forall|i: int|
            #![trigger lit_bytes(s)[i]]
            0 <= i < s@.len() ==> lit_bytes(s)[i] == s@[i] as u8,
{
    is_ascii_chars_encode_utf8(s@);
}

/// Parse a payload back into a claims value: the exact inverse of
/// [`payload_bytes`] on its image, and `None` on every byte sequence not in
/// the canonical form this crate writes.
pub open spec fn parse_claims(s: Seq<u8>) -> Option<ClaimsView> {
    match expect_lit(s, lit_bytes("{\"sub\":\"")) {
        None => None,
        Some(s1) => match scan_jstr(s1) {
            None => None,
            Some((subb, s2)) => match expect_lit(s2, lit_bytes("\",\"exp\":")) {
                None => None,
                Some(s3) => match scan_i64(s3) {
                    None => None,
                    Some((exp, s4)) => match expect_lit(s4, lit_bytes(",\"token_type\":\"")) {
                        None => None,
                        Some(s5) => match parse_token_type(s5) {
                            None => None,
                            Some((tt, s6)) => match parse_user_details(s6) {
                                None => None,
                                Some(ud) => if valid_utf8(subb) {
                                    Some(
                                        ClaimsView {
                                            subject: decode_utf8(subb),
                                            expires_in: exp,
                                            token_type: tt,
                                            user_details: ud,
                                        },
                                    )
                                } else {
                                    None
                                },
                            },
                        },
                    },
                },
            },
        },
    }
}

/// Reading a serialized middle name consumes exactly its piece.
proof fn lemma_parse_middle_piece(m: Option<Seq<char>>, rest: Seq<u8>)
    ensures
        parse_middle(middle_name_piece(m) + rest) == Some(
            (
                match m {
                    None => None,
                    Some(mn) => Some(encode_utf8(mn)),
                },
                rest,
            ),
        ),
{
    broadcast use vstd::utf8::group_utf8_lib;

    reveal_strlit("null,\"last_name\":\"");
    reveal_strlit("\"");
    reveal_strlit("\",\"last_name\":\"");
    assert(is_ascii_chars("null,\"last_name\":\""@));
    assert(is_ascii_chars("\""@));
    assert(is_ascii_chars("\",\"last_name\":\""@));
    lemma_lit_byte("null,\"last_name\":\"");
    lemma_lit_byte("\"");
    lemma_lit_byte("\",\"last_name\":\"");
    match m {
        None => {
            lemma_expect_lit_prefix(lit_bytes("null,\"last_name\":\""), rest);
        },
        Some(mn) => {
            let s = middle_name_piece(m) + rest;
            lemma_assoc_nested(
                lit_bytes("\""),
                jstr_body(mn),
                lit_bytes("\",\"last_name\":\""),
                rest,
            );
            assert(s == lit_bytes("\"") + (jstr_body(mn) + (lit_bytes("\",\"last_name\":\"")
                + rest)));
            assert(s[0] == 0x22);
            assert(lit_bytes("null,\"last_name\":\"")[0] == 0x6e);
            lemma_expect_lit_mismatch(s, lit_bytes("null,\"last_name\":\""));
            lemma_expect_lit_prefix(
                lit_bytes("\""),
                jstr_body(mn) + (lit_bytes("\",\"last_name\":\"") + rest),
            );
            let tail = lit_bytes("\",\"last_name\":\"") + rest;
            assert(tail[0] == 0x22);
            lemma_scan_escape(encode_utf8(mn), tail);
            lemma_expect_lit_prefix(lit_bytes("\",\"last_name\":\""), rest);
            assert(valid_utf8(encode_utf8(mn)));
        },
    }
}

/// Reading a serialized identity consumes the whole remaining input and
/// gives back the identity.
proof fn lemma_parse_user_piece(u: Option<UserView>)
    ensures
        parse_user_details(user_details_piece(u)) == Some(u),
{
    broadcast use vstd::utf8::group_utf8_lib;

    reveal_strlit("null}");
    reveal_strlit("{\"id\":\"");
    reveal_strlit("\",\"first_name\":\"");
    reveal_strlit("\",\"middle_name\":");
    reveal_strlit("\",\"email\":\"");
    reveal_strlit("\"}}");
    assert(is_ascii_chars("null}"@));
    assert(is_ascii_chars("{\"id\":\""@));
    assert(is_ascii_chars("\",\"first_name\":\""@));
    assert(is_ascii_chars("\",\"middle_name\":"@));
    assert(is_ascii_chars("\",\"email\":\""@));
    assert(is_ascii_chars("\"}}"@));
    lemma_lit_byte("null}");
    lemma_lit_byte("{\"id\":\"");
    lemma_lit_byte("\",\"first_name\":\"");
    lemma_lit_byte("\",\"middle_name\":");
    lemma_lit_byte("\",\"email\":\"");
    lemma_lit_byte("\"}}");
    match u {
        None => {
            let l = lit_bytes("null}");
            assert(l + Seq::<u8>::empty() =~= l);
            lemma_expect_lit_prefix(l, Seq::<u8>::empty());
            assert(expect_lit(user_details_piece(u), l) == Some(Seq::<u8>::empty()));
        },
        Some(uv) => {
            let s = user_details_piece(u);
            let r1 = jstr_body(uv.id) + (lit_bytes("\",\"first_name\":\"") + (jstr_body(
                uv.first_name,
            ) + (lit_bytes("\",\"middle_name\":") + (middle_name_piece(uv.middle_name) + (jstr_body(
                uv.last_name,
            ) + (lit_bytes("\",\"email\":\"") + (jstr_body(uv.email) + lit_bytes("\"}}"))))))));
            assert(s == lit_bytes("{\"id\":\"") + r1);
            assert(s[0] == 0x7b);
            assert(lit_bytes("null}")[0] == 0x6e);
            lemma_expect_lit_mismatch(s, lit_bytes("null}"));
            lemma_expect_lit_prefix(lit_bytes("{\"id\":\""), r1);
            let r2 = lit_bytes("\",\"first_name\":\"") + (jstr_body(uv.first_name) + (lit_bytes(
                "\",\"middle_name\":",
            ) + (middle_name_piece(uv.middle_name) + (jstr_body(uv.last_name) + (lit_bytes(
                "\",\"email\":\"",
            ) + (jstr_body(uv.email) + lit_bytes("\"}}")))))));
            assert(r2[0] == 0x22);
            lemma_scan_escape(encode_utf8(uv.id), r2);
            let r3 = jstr_body(uv.first_name) + (lit_bytes("\",\"middle_name\":")
                + (middle_name_piece(uv.middle_name) + (jstr_body(uv.last_name) + (lit_bytes(
                "\",\"email\":\"",
            ) + (jstr_body(uv.email) + lit_bytes("\"}}"))))));
            lemma_expect_lit_prefix(lit_bytes("\",\"first_name\":\""), r3);
            let r4 = lit_bytes("\",\"middle_name\":") + (middle_name_piece(uv.middle_name)
                + (jstr_body(uv.last_name) + (lit_bytes("\",\"email\":\"") + (jstr_body(uv.email)
                + lit_bytes("\"}}")))));
            assert(r4[0] == 0x22);
            lemma_scan_escape(encode_utf8(uv.first_name), r4);
            let r5 = middle_name_piece(uv.middle_name) + (jstr_body(uv.last_name) + (lit_bytes(
                "\",\"email\":\"",
            ) + (jstr_body(uv.email) + lit_bytes("\"}}"))));
            lemma_expect_lit_prefix(lit_bytes("\",\"middle_name\":"), r5);
            let r6 = jstr_body(uv.last_name) + (lit_bytes("\",\"email\":\"") + (jstr_body(uv.email)
                + lit_bytes("\"}}")));
            lemma_parse_middle_piece(uv.middle_name, r6);
            let r7 = lit_bytes("\",\"email\":\"") + (jstr_body(uv.email) + lit_bytes("\"}}"));
            assert(r7[0] == 0x22);
            lemma_scan_escape(encode_utf8(uv.last_name), r7);
            let r8 = jstr_body(uv.email) + lit_bytes("\"}}");
            lemma_expect_lit_prefix(lit_bytes("\",\"email\":\""), r8);
            let r9 = lit_bytes("\"}}");
            assert(r9[0] == 0x22);
            lemma_scan_escape(encode_utf8(uv.email), r9);
            assert(r9 + Seq::<u8>::empty() =~= r9);
            lemma_expect_lit_prefix(r9, Seq::<u8>::empty());
            assert(expect_lit(r9, r9) == Some(Seq::<u8>::empty()));
            assert(parse_user_details(s) matches Some(x) && x matches Some(w) && w =~= uv);
        },
    }
}

/// Reading a serialized token-type label gives back the label.
proof fn lemma_parse_token_type_piece(t: TokenType, rest: Seq<u8>)
    ensures
        parse_token_type(token_type_piece(t) + rest) == Some((t, rest)),
{
    reveal_strlit("AccessToken\",\"user_details\":");
    reveal_strlit("RefreshToken\",\"user_details\":");
    assert(is_ascii_chars("AccessToken\",\"user_details\":"@));
    assert(is_ascii_chars("RefreshToken\",\"user_details\":"@));
    lemma_lit_byte("AccessToken\",\"user_details\":");
    lemma_lit_byte("RefreshToken\",\"user_details\":");
    match t {
        TokenType::AccessToken => {
            lemma_expect_lit_prefix(lit_bytes("AccessToken\",\"user_details\":"), rest);
        },
        TokenType::RefreshToken => {
            let s = token_type_piece(t) + rest;
            assert(s[0] == 0x52);
            assert(lit_bytes("AccessToken\",\"user_details\":")[0] == 0x41);
            lemma_expect_lit_mismatch(s, lit_bytes("AccessToken\",\"user_details\":"));
            lemma_expect_lit_prefix(lit_bytes("RefreshToken\",\"user_details\":"), rest);
        },
    }
}

/// Parsing inverts serialization: every claims value whose expiry fits a
/// 64-bit signed integer reads back exactly as it was written.
#[verifier::rlimit(100)]
pub proof fn lemma_parse_payload(c: ClaimsView)
    requires
        -0x8000_0000_0000_0000 <= c.expires_in <= 0x7fff_ffff_ffff_ffff,
    ensures
        parse_claims(payload_bytes(c)) == Some(c),
{
    broadcast use vstd::utf8::group_utf8_lib;

    reveal_strlit("{\"sub\":\"");
    reveal_strlit("\",\"exp\":");
    reveal_strlit(",\"token_type\":\"");
    assert(is_ascii_chars("{\"sub\":\""@));
    assert(is_ascii_chars("\",\"exp\":"@));
    assert(is_ascii_chars(",\"token_type\":\""@));
    lemma_lit_byte("{\"sub\":\"");
    lemma_lit_byte("\",\"exp\":");
    lemma_lit_byte(",\"token_type\":\"");
    let s = payload_bytes(c);
    let r1 = jstr_body(c.subject) + (lit_bytes("\",\"exp\":") + (int_bytes(c.expires_in)
        + (lit_bytes(",\"token_type\":\"") + (token_type_piece(c.token_type) + user_details_piece(
        c.user_details,
    )))));
    lemma_expect_lit_prefix(lit_bytes("{\"sub\":\""), r1);
    let r2 = lit_bytes("\",\"exp\":") + (int_bytes(c.expires_in) + (lit_bytes(
        ",\"token_type\":\"",
    ) + (token_type_piece(c.token_type) + user_details_piece(c.user_details))));
    assert(r2[0] == 0x22);
    lemma_scan_escape(encode_utf8(c.subject), r2);
    let r3 = int_bytes(c.expires_in) + (lit_bytes(",\"token_type\":\"") + (token_type_piece(
        c.token_type,
    ) + user_details_piece(c.user_details)));
    lemma_expect_lit_prefix(lit_bytes("\",\"exp\":"), r3);
    let r4 = lit_bytes(",\"token_type\":\"") + (token_type_piece(c.token_type)
        + user_details_piece(c.user_details));
    assert(r4[0] == 0x2c);
    assert(!is_digit(r4[0]));
    lemma_scan_int_bytes(c.expires_in, r4);
    let r5 = token_type_piece(c.token_type) + user_details_piece(c.user_details);
    lemma_expect_lit_prefix(lit_bytes(",\"token_type\":\""), r5);
    lemma_parse_token_type_piece(c.token_type, user_details_piece(c.user_details));
    lemma_parse_user_piece(c.user_details);
    assert(valid_utf8(encode_utf8(c.subject)));
    assert(parse_claims(s) matches Some(x) && x =~= c);
}

/// Reading a middle name only accepts the canonical piece.
proof fn lemma_parse_middle_inverse(s: Seq<u8>)
    ensures
        parse_middle(s) matches Some(p) ==> s == middle_name_piece(
            match p.0 {
                None => None,
                Some(mb) => Some(decode_utf8(mb)),
            },
        ) + p.1,
{
    broadcast use vstd::utf8::group_utf8_lib;

    if parse_middle(s) is Some {
        let p = parse_middle(s).unwrap();
        if expect_lit(s, lit_bytes("null,\"last_name\":\"")) is Some {
            lemma_expect_lit_inverse(s, lit_bytes("null,\"last_name\":\""));
        } else {
            lemma_expect_lit_inverse(s, lit_bytes("\""));
            let s1 = expect_lit(s, lit_bytes("\"")).unwrap();
            lemma_scan_jstr_inverse(s1);
            let (mb, s2) = scan_jstr(s1).unwrap();
            lemma_expect_lit_inverse(s2, lit_bytes("\",\"last_name\":\""));
            let s3 = expect_lit(s2, lit_bytes("\",\"last_name\":\"")).unwrap();
            assert(valid_utf8(mb));
            assert(encode_utf8(decode_utf8(mb)) == mb);
            assert(jstr_body(decode_utf8(mb)) == escape_bytes(mb));
            lemma_assoc_nested(lit_bytes("\""), escape_bytes(mb), lit_bytes("\",\"last_name\":\""), s3);
            assert(s == (lit_bytes("\"") + (escape_bytes(mb) + lit_bytes("\",\"last_name\":\"")))
                + s3);
        }
    }
}

/// Reading an identity only accepts the canonical piece, and it must end
/// the input.
proof fn lemma_parse_user_inverse(s: Seq<u8>)
    ensures
        parse_user_details(s) matches Some(ud) ==> s == user_details_piece(ud),
{
    broadcast use vstd::utf8::group_utf8_lib;

    if parse_user_details(s) is Some {
        let ud = parse_user_details(s).unwrap();
        if expect_lit(s, lit_bytes("null}")) == Some(Seq::<u8>::empty()) {
            lemma_expect_lit_inverse(s, lit_bytes("null}"));
            assert(s =~= lit_bytes("null}"));
        } else {
            lemma_expect_lit_inverse(s, lit_bytes("{\"id\":\""));
            let s1 = expect_lit(s, lit_bytes("{\"id\":\"")).unwrap();
            lemma_scan_jstr_inverse(s1);
            let (idb, s2) = scan_jstr(s1).unwrap();
            lemma_expect_lit_inverse(s2, lit_bytes("\",\"first_name\":\""));
            let s3 = expect_lit(s2, lit_bytes("\",\"first_name\":\"")).unwrap();
            lemma_scan_jstr_inverse(s3);
            let (fnb, s4) = scan_jstr(s3).unwrap();
            lemma_expect_lit_inverse(s4, lit_bytes("\",\"middle_name\":"));
            let s5 = expect_lit(s4, lit_bytes("\",\"middle_name\":")).unwrap();
            lemma_parse_middle_inverse(s5);
            let (mid, s6) = parse_middle(s5).unwrap();
            lemma_scan_jstr_inverse(s6);
            let (lnb, s7) = scan_jstr(s6).unwrap();
            lemma_expect_lit_inverse(s7, lit_bytes("\",\"email\":\""));
            let s8 = expect_lit(s7, lit_bytes("\",\"email\":\"")).unwrap();
            lemma_scan_jstr_inverse(s8);
            let (emb, s9) = scan_jstr(s8).unwrap();
            lemma_expect_lit_inverse(s9, lit_bytes("\"}}"));
            let s10 = expect_lit(s9, lit_bytes("\"}}")).unwrap();
            assert(s10.len() == 0);
            assert(s9 =~= lit_bytes("\"}}"));
            let uv = (match ud {
                Some(u) => u,
                None => arbitrary(),
            });
            assert(encode_utf8(decode_utf8(idb)) == idb);
            assert(encode_utf8(decode_utf8(fnb)) == fnb);
            assert(encode_utf8(decode_utf8(lnb)) == lnb);
            assert(encode_utf8(decode_utf8(emb)) == emb);
            assert(jstr_body(uv.id) == escape_bytes(idb));
            assert(jstr_body(uv.first_name) == escape_bytes(fnb));
            assert(jstr_body(uv.last_name) == escape_bytes(lnb));
            assert(jstr_body(uv.email) == escape_bytes(emb));
            assert(middle_name_piece(uv.middle_name) == (match mid {
                None => middle_name_piece(None),
                Some(mb) => middle_name_piece(Some(decode_utf8(mb))),
            }));
            assert(s == user_details_piece(ud));
        }
    }
}

/// Reading a token-type label only accepts the canonical spelling.
proof fn lemma_parse_token_type_inverse(s: Seq<u8>)
    ensures
        parse_token_type(s) matches Some(p) ==> s == token_type_piece(p.0) + p.1,
{
    if parse_token_type(s) is Some {
        if expect_lit(s, lit_bytes("AccessToken\",\"user_details\":")) is Some {
            lemma_expect_lit_inverse(s, lit_bytes("AccessToken\",\"user_details\":"));
        } else {
            lemma_expect_lit_inverse(s, lit_bytes("RefreshToken\",\"user_details\":"));
        }
    }
}

/// Parsing only accepts the canonical written form: whatever parses to a
/// claims value is exactly what [`payload_bytes`] writes for it.
pub proof fn lemma_parse_claims_inverse(s: Seq<u8>)
    ensures
        parse_claims(s) matches Some(c) ==> s == payload_bytes(c),
{
    broadcast use vstd::utf8::group_utf8_lib;

    if parse_claims(s) is Some {
        let c = parse_claims(s).unwrap();
        lemma_expect_lit_inverse(s, lit_bytes("{\"sub\":\""));
        let s1 = expect_lit(s, lit_bytes("{\"sub\":\"")).unwrap();
        lemma_scan_jstr_inverse(s1);
        let (subb, s2) = scan_jstr(s1).unwrap();
        lemma_expect_lit_inverse(s2, lit_bytes("\",\"exp\":"));
        let s3 = expect_lit(s2, lit_bytes("\",\"exp\":")).unwrap();
        lemma_scan_i64_inverse(s3);
        let (exp, s4) = scan_i64(s3).unwrap();
        lemma_expect_lit_inverse(s4, lit_bytes(",\"token_type\":\""));
        let s5 = expect_lit(s4, lit_bytes(",\"token_type\":\"")).unwrap();
        lemma_parse_token_type_inverse(s5);
        let (tt, s6) = parse_token_type(s5).unwrap();
        lemma_parse_user_inverse(s6);
        assert(encode_utf8(decode_utf8(subb)) == subb);
        assert(jstr_body(c.subject) == escape_bytes(subb));
        assert(s == payload_bytes(c));
    }
}

/// Read an optional middle name starting at index `i`.
fn parse_middle_exec(s: &Vec<u8>, i: usize) -> (r: Option<(Option<String>, usize)>)
    requires
        i <= s@.len(),
    ensures
        match parse_middle(s@.skip(i as int)) {
            Some(p) => r matches Some(q) && i <= q.1 <= s@.len() && s@.skip(q.1 as int) == p.1
                && (match (q.0, p.0) {
                (Some(ms), Some(mb)) => ms@ == decode_utf8(mb),
                (None, None) => true,
                _ => false,
            }),
            None => r is None,
        },
{
    if let Some(j) = expect_lit_exec(s, i, "null,\"last_name\":\"") {
        return Some((None, j));
    }
    let j1 = match expect_lit_exec(s, i, "\"") {
        Some(j) => j,
        None => {
            return None;
        },
    };
    let (mv, j2) = match scan_jstr_exec(s, j1) {
        Some(p) => p,
        None => {
            return None;
        },
    };
    let j3 = match expect_lit_exec(s, j2, "\",\"last_name\":\"") {
        Some(j) => j,
        None => {
            return None;
        },
    };
    let ghost mb = mv@;
    match bytes_to_string(mv) {
        Some(ms) => Some((Some(ms), j3)),
        None => None,
    }
}

/// Read the optional embedded identity starting at index `i`; it must run
/// to the end of the input.
fn parse_user_details_exec(s: &Vec<u8>, i: usize) -> (r: Option<Option<AuthUser>>)
    requires
        i <= s@.len(),
    ensures
        match parse_user_details(s@.skip(i as int)) {
            Some(ud) => r matches Some(x) && ud == (match x {
                Some(u) => Some(u@),
                None => None,
            }),
            None => r is None,
        },
{
    if let Some(j) = expect_lit_exec(s, i, "null}") {
        if j == s.len() {
            proof {
                assert(s@.skip(j as int) =~= Seq::<u8>::empty());
            }
            return Some(None);
        }
        proof {
            assert(s@.skip(j as int).len() > 0);
        }
    }
    let j1 = match expect_lit_exec(s, i, "{\"id\":\"") {
        Some(j) => j,
        None => {
            return None;
        },
    };
    let (idv, j2) = match scan_jstr_exec(s, j1) {
        Some(p) => p,
        None => {
            return None;
        },
    };
    let j3 = match expect_lit_exec(s, j2, "\",\"first_name\":\"") {
        Some(j) => j,
        None => {
            return None;
        },
    };
    let (fnv, j4) = match scan_jstr_exec(s, j3) {
        Some(p) => p,
        None => {
            return None;
        },
    };
    let j5 = match expect_lit_exec(s, j4, "\",\"middle_name\":") {
        Some(j) => j,
        None => {
            return None;
        },
    };
    let (mid, j6) = match parse_middle_exec(s, j5) {
        Some(p) => p,
        None => {
            return None;
        },
    };
    let (lnv, j7) = match scan_jstr_exec(s, j6) {
        Some(p) => p,
        None => {
            return None;
        },
    };
    let j8 = match expect_lit_exec(s, j7, "\",\"email\":\"") {
        Some(j) => j,
        None => {
            return None;
        },
    };
    let (emv, j9) = match scan_jstr_exec(s, j8) {
        Some(p) => p,
        None => {
            return None;
        },
    };
    let j10 = match expect_lit_exec(s, j9, "\"}}") {
        Some(j) => j,
        None => {
            return None;
        },
    };
    if j10 != s.len() {
        proof {
            assert(s@.skip(j10 as int).len() > 0);
        }
        return None;
    }
    proof {
        assert(s@.skip(j10 as int) =~= Seq::<u8>::empty());
    }
    let id = match bytes_to_string(idv) {
        Some(x) => x,
        None => {
            return None;
        },
    };
    let first_name = match bytes_to_string(fnv) {
        Some(x) => x,
        None => {
            return None;
        },
    };
    let last_name = match bytes_to_string(lnv) {
        Some(x) => x,
        None => {
            return None;
        },
    };
    let email = match bytes_to_string(emv) {
        Some(x) => x,
        None => {
            return None;
        },
    };
    Some(Some(AuthUser { id, first_name, middle_name: mid, last_name, email }))
}

/// Parse a payload starting at its first byte, as executable code.
pub fn parse_claims_exec(s: &Vec<u8>) -> (r: Option<AuthClaims>)
    ensures
        match parse_claims(s@) {
            Some(c) => r matches Some(cl) && cl@ == c,
            None => r is None,
        },
{
    proof {
        assert(s@.skip(0) =~= s@);
    }
    let i1 = match expect_lit_exec(s, 0, "{\"sub\":\"") {
        Some(j) => j,
        None => {
            return None;
        },
    };
    let (subv, i2) = match scan_jstr_exec(s, i1) {
        Some(p) => p,
        None => {
            return None;
        },
    };
    let i3 = match expect_lit_exec(s, i2, "\",\"exp\":") {
        Some(j) => j,
        None => {
            return None;
        },
    };
    let (exp, i4) = match scan_i64_exec(s, i3) {
        Some(p) => p,
        None => {
            return None;
        },
    };
    let i5 = match expect_lit_exec(s, i4, ",\"token_type\":\"") {
        Some(j) => j,
        None => {
            return None;
        },
    };
    let (tt, i6) = match expect_lit_exec(s, i5, "AccessToken\",\"user_details\":") {
        Some(j) => (TokenType::AccessToken, j),
        None => match expect_lit_exec(s, i5, "RefreshToken\",\"user_details\":") {
            Some(j) => (TokenType::RefreshToken, j),
            None => {
                return None;
            },
        },
    };
    let ud = match parse_user_details_exec(s, i6) {
        Some(u) => u,
        None => {
            return None;
        },
    };
    let subject = match bytes_to_string(subv) {
        Some(x) => x,
        None => {
            return None;
        },
    };
    Some(AuthClaims { subject, expires_in: exp, token_type: tt, user_details: ud })
}

/// How many seconds an issued credential stays valid.
pub const TOKEN_VALIDITY_SECS: i64 = 3600;

/// The expiry an issuance at `now` writes: `now` plus the validity window,
/// saturating at the largest representable instant.
pub open spec fn issued_expiry(now: int) -> int {
    if now + 3600 > 0x7fff_ffff_ffff_ffff {
        0x7fff_ffff_ffff_ffff
    } else {
        now + 3600
    }
}

/// The claims an issuance at `now` signs for a subject and token kind; an
/// issued credential embeds no identity.
pub open spec fn issued_claims(subject: Seq<char>, token_type: TokenType, now: int) -> ClaimsView {
    ClaimsView {
        subject,
        expires_in: issued_expiry(now),
        token_type,
        user_details: None,
    }
}

/// The signed part of a credential: base64url header, a dot, base64url
/// payload.
pub open spec fn signing_input(c: ClaimsView) -> Seq<u8> {
    b64_encode(header_bytes()) + (seq![0x2eu8] + b64_encode(payload_bytes(c)))
}

/// The full wire bytes of the credential for claims `c` under `secret`: the
/// signed part, a dot, and the signature the signing primitive computes.
pub open spec fn wire_bytes(secret: Seq<u8>, c: ClaimsView) -> Seq<u8> {
    signing_input(c) + (seq![0x2eu8] + sig_of(secret, signing_input(c)))
}

/// Copy a range of a byte vector.
pub(crate) fn sub_vec(s: &Vec<u8>, from: usize, to: usize) -> (r: Vec<u8>)
    requires
        from <= to <= s@.len(),
    ensures
        r@ == s@.subrange(from as int, to as int),
{
    let mut r: Vec<u8> = Vec::new();
    let mut k = from;
    while k < to
        invariant
            from <= k <= to <= s@.len(),
            r@ == s@.subrange(from as int, k as int),
        decreases to - k,
    {
        r.push(s[k]);
        proof {
            assert(s@.subrange(from as int, k + 1) =~= s@.subrange(from as int, k as int)
                + seq![s@[k as int]]);
        }
        k = k + 1;
    }
    r
}

/// Compare a byte vector against a fixed literal.
fn vec_eq_lit(v: &Vec<u8>, lit: &str) -> (r: bool)
    ensures
        r == (v@ == lit.spec_bytes()),
{
    proof {
        assert(v@.skip(0) =~= v@);
    }
    match expect_lit_exec(v, 0, lit) {
        Some(j) => {
            proof {
                if expect_lit(v@, lit.spec_bytes()) is Some {
                    let suf = expect_lit(v@, lit.spec_bytes()).unwrap();
                    assert(suf == v@.skip(lit.spec_bytes().len() as int));
                    assert(v@.skip(j as int).len() == v@.len() - j);
                    assert(suf.len() == v@.len() - lit.spec_bytes().len());
                    assert(j == lit.spec_bytes().len());
                    if j == v@.len() {
                        assert(suf =~= Seq::<u8>::empty());
                        assert(v@ =~= v@.take(lit.spec_bytes().len() as int) + suf);
                        assert(v@ =~= lit.spec_bytes());
                    } else {
                        assert(v@.len() != lit.spec_bytes().len());
                    }
                }
            }
            j == v.len()
        },
        None => {
            proof {
                if v@ == lit.spec_bytes() {
                    lemma_expect_lit_prefix(lit.spec_bytes(), Seq::<u8>::empty());
                    assert(lit.spec_bytes() + Seq::<u8>::empty() =~= v@);
                }
            }
            false
        },
    }
}

/// A pluggable token codec: it issues a signed credential for a subject and
/// verifies a presented credential back into claims. An implementation
/// never answers `Unauthorized`: that kind belongs to the authenticator, so
/// a caller can always tell "no credential presented" from "credential
/// presented but rejected".
/// How a verification result corresponds to what [`spec_verify`] says of
/// the token bytes under `secret` at time `now`: exactly the parsed claims
/// on success, and the failure's error kind with its fixed message
/// otherwise.
pub open spec fn verify_outcome(
    secret: Seq<u8>,
    bytes: Seq<u8>,
    now: int,
    r: Result<AuthClaims, AuthError>,
) -> bool {
    match spec_verify(secret, bytes, now) {
        Ok(c) => r matches Ok(cl) && cl@ == c,
        Err(VerifyFailure::Malformed) => r matches Err(e) && e matches AuthError::JwtTokenInvalid(
            d,
        ) && d.message@ == "InvalidToken"@,
        Err(VerifyFailure::Expired) => r matches Err(e) && e matches AuthError::JwtTokenExpired(d)
            && d.message@ == "ExpiredSignature"@,
        Err(VerifyFailure::SignatureInvalid) => r matches Err(e) && e matches
            AuthError::JwtSignatureInvalid(d) && d.message@ == "InvalidSignature"@,
    }
}

pub trait IJwtUtil: Sized {
    /// What this codec may answer when issuing a credential for a subject
    /// and token kind: the relation ties every result to exactly those
    /// inputs and this codec's key material. An implementation that keeps
    /// the default promises nothing beyond the error-kind clause.
    open spec fn generate_result(&self, subject: Seq<char>, token_type: TokenType, r: Result<
        String,
        AuthError,
    >) -> bool {
        true
    }

    /// What this codec may answer when verifying a presented credential:
    /// the relation ties every result to exactly the token it was handed
    /// and this codec's key material. An implementation that keeps the
    /// default promises nothing beyond the error-kind clause.
    open spec fn extract_result(&self, token: Seq<char>, r: Result<AuthClaims, AuthError>) -> bool {
        true
    }

    fn generate_token(&self, subject: &str, token_type: &TokenType) -> (r: Result<
        String,
        AuthError,
    >)
        ensures
            r matches Err(e) ==> e.is_token_error(),
            self.generate_result(subject@, *token_type, r),
    ;

    fn extract_claims(&self, token: &str) -> (r: Result<AuthClaims, AuthError>)
        ensures
            r matches Err(e) ==> e.is_token_error(),
            self.extract_result(token@, r),
    ;
}

/// The credential codec: it holds the shared secret and signs and verifies
/// the canonical wire form with HMAC-SHA256. Construct it once per secret
/// and share it; it holds no mutable state.
pub struct JwtUtil {
    secret: Vec<u8>,
}

impl View for JwtUtil {
    type V = Seq<u8>;

    closed spec fn view(&self) -> Seq<u8> {
        self.secret@
    }
}

impl Clone for JwtUtil {
    fn clone(&self) -> (r: Self)
        ensures
            r@ == self@,
    {
        let mut secret: Vec<u8> = Vec::new();
        secret.extend_from_slice(self.secret.as_slice());
        proof {
            assert(secret@ =~= self.secret@);
        }
        JwtUtil { secret }
    }
}

impl JwtUtil {
    /// A codec for the given shared secret; the same secret must be used
    /// for issuance and verification.
    pub fn new(app_key: &str) -> (r: Self)
        ensures
            r@ == app_key.spec_bytes(),
    {
        JwtUtil { secret: app_key.as_bytes_vec() }
    }

    /// Issue a credential for fully formed claims, embedded identity
    /// included: the result is exactly the canonical wire form of those
    /// claims under this codec's secret.
    pub fn generate_token_with_claims(&self, claims: &AuthClaims) -> (r: Result<String, AuthError>)
        ensures
            r is Ok,
            r matches Ok(t) ==> encode_utf8(t@) == wire_bytes(self@, claims@),
            is_b64url_seq(sig_of(self@, signing_input(claims@))),
    {
        broadcast use vstd::utf8::group_utf8_lib;

        let payload = build_payload(claims);
        let mut header: Vec<u8> = Vec::new();
        header.extend_from_slice("{\"alg\":\"HS256\",\"typ\":\"JWT\"}".as_bytes());
        proof {
            assert(header@ =~= header_bytes());
        }
        let hb = base64url_encode(&header);
        let pb = base64url_encode(&payload);
        let mut msg = hb;
        msg.push(0x2e);
        msg.extend_from_slice(pb.as_slice());
        proof {
            assert(msg@ =~= signing_input(claims@));
        }
        let signature = match hmac_sign(&self.secret, &msg) {
            Ok(s) => s,
            Err(_) => {
                proof {
                    assert(false);
                }
                return Err(AuthError::JwtGenerate(SerializableError { message: String::new() }));
            },
        };
        let mut token_bytes = msg;
        token_bytes.push(0x2e);
        token_bytes.extend_from_slice(signature.as_str().as_bytes());
        proof {
            assert(token_bytes@ =~= wire_bytes(self@, claims@));
            crate::b64::lemma_b64_encode_no_dot(header_bytes());
            crate::b64::lemma_b64_encode_no_dot(payload_bytes(claims@));
            crate::b64::lemma_b64url_seq_shape(sig_of(self@, signing_input(claims@)));
            assert forall|i: int| 0 <= i < token_bytes@.len() implies token_bytes@[i] < 0x80 by {
                let hl = b64_encode(header_bytes()).len() as int;
                let pl = b64_encode(payload_bytes(claims@)).len() as int;
                if i < hl {
                    assert(token_bytes@[i] == b64_encode(header_bytes())[i]);
                } else if i == hl {
                } else if i < hl + 1 + pl {
                    assert(token_bytes@[i] == b64_encode(payload_bytes(claims@))[i - hl - 1]);
                } else if i == hl + 1 + pl {
                } else {
                    assert(token_bytes@[i] == sig_of(self@, signing_input(claims@))[i - hl - pl
                        - 2]);
                }
            }
            assert(is_ascii_bytes(token_bytes@));
            lemma_ascii_bytes_utf8(token_bytes@);
        }
        match bytes_to_string(token_bytes) {
            Some(t) => Ok(t),
            None => {
                proof {
                    assert(false);
                }
                Err(AuthError::JwtGenerate(SerializableError { message: String::new() }))
            },
        }
    }

    /// Issue a credential for a subject at time `now`: the signed claims
    /// carry that subject, an expiry of `now` plus the validity window
    /// (saturating), the given kind, and no embedded identity.
    pub fn generate_token_at(&self, subject: &str, token_type: &TokenType, now: i64) -> (r: Result<
        String,
        AuthError,
    >)
        ensures
            r is Ok,
            r matches Ok(t) ==> encode_utf8(t@) == wire_bytes(
                self@,
                issued_claims(subject@, *token_type, now as int),
            ),
            is_b64url_seq(sig_of(self@, signing_input(issued_claims(subject@, *token_type, now as int)))),
    {
        let expires_in: i64 = if now > i64::MAX - TOKEN_VALIDITY_SECS {
            i64::MAX
        } else {
            now + TOKEN_VALIDITY_SECS
        };
        let claims = AuthClaims {
            subject: subject.to_owned(),
            expires_in,
            token_type: *token_type,
            user_details: None,
        };
        proof {
            assert(claims@ == issued_claims(subject@, *token_type, now as int));
        }
        self.generate_token_with_claims(&claims)
    }

    /// Verify a credential at time `now`: the result is exactly what
    /// [`spec_verify`] says of the token's bytes under this codec's secret.
    /// A credential that cannot be read reports `JwtTokenInvalid`; one whose
    /// expiry has passed reports `JwtTokenExpired`, regardless of its
    /// signature; one whose signature does not match reports
    /// `JwtSignatureInvalid`.
    #[verifier::rlimit(100)]
    pub fn extract_claims_at(&self, token: &str, now: i64) -> (r: Result<AuthClaims, AuthError>)
        ensures
            verify_outcome(self@, token.spec_bytes(), now as int, r),
    {
        let bytes = token.as_bytes_vec();
        let n = bytes.len();
        let mut i: usize = 0;
        while i < n && bytes[i] != 0x2e
            invariant
                i <= n,
                n == bytes@.len(),
                forall|t: int| 0 <= t < i ==> bytes@[t] != 0x2e,
            decreases n - i,
        {
            i = i + 1;
        }
        if i == n {
            proof {
                lemma_find_dot_none(bytes@);
            }
            return Err(
                AuthError::JwtTokenInvalid(
                    SerializableError { message: "InvalidToken".to_owned() },
                ),
            );
        }
        proof {
            lemma_find_dot_at(bytes@, i as int);
        }
        let mut j: usize = i + 1;
        while j < n && bytes[j] != 0x2e
            invariant
                i + 1 <= j <= n,
                n == bytes@.len(),
                forall|t: int| i + 1 <= t < j ==> bytes@[t] != 0x2e,
            decreases n - j,
        {
            j = j + 1;
        }
        let ghost rest = bytes@.skip(i + 1);
        if j == n {
            proof {
                assert forall|t: int| 0 <= t < rest.len() implies rest[t] != 0x2e by {
                    assert(rest[t] == bytes@[i + 1 + t]);
                }
                lemma_find_dot_none(rest);
            }
            return Err(
                AuthError::JwtTokenInvalid(
                    SerializableError { message: "InvalidToken".to_owned() },
                ),
            );
        }
        proof {
            assert(rest[j - i - 1] == bytes@[j as int]);
            assert forall|t: int| 0 <= t < j - i - 1 implies rest[t] != 0x2e by {
                assert(rest[t] == bytes@[i + 1 + t]);
            }
            lemma_find_dot_at(rest, j - i - 1);
        }
        let mut k: usize = j + 1;
        while k < n && bytes[k] != 0x2e
            invariant
                j + 1 <= k <= n,
                n == bytes@.len(),
                forall|t: int| j + 1 <= t < k ==> bytes@[t] != 0x2e,
            decreases n - k,
        {
            k = k + 1;
        }
        let ghost sigpart = rest.skip(j - i);
        proof {
            assert(sigpart =~= bytes@.skip(j + 1));
        }
        if k < n {
            proof {
                assert(sigpart[k - j - 1] == bytes@[k as int]);
                lemma_find_dot(sigpart);
            }
            return Err(
                AuthError::JwtTokenInvalid(
                    SerializableError { message: "InvalidToken".to_owned() },
                ),
            );
        }
        proof {
            assert forall|t: int| 0 <= t < sigpart.len() implies sigpart[t] != 0x2e by {
                assert(sigpart[t] == bytes@[j + 1 + t]);
            }
            lemma_find_dot_none(sigpart);
            assert(bytes@.take(i as int) =~= bytes@.subrange(0, i as int));
            assert(rest.take(j - i - 1) =~= bytes@.subrange(i + 1, j as int));
        }
        let h = sub_vec(&bytes, 0, i);
        let p = sub_vec(&bytes, i + 1, j);
        let sg = sub_vec(&bytes, j + 1, n);
        proof {
            assert(sg@ =~= sigpart);
        }
        let hd = match base64url_decode(&h) {
            Some(v) => v,
            None => {
                return Err(
                    AuthError::JwtTokenInvalid(
                        SerializableError { message: "InvalidToken".to_owned() },
                    ),
                );
            },
        };
        if !vec_eq_lit(&hd, "{\"alg\":\"HS256\",\"typ\":\"JWT\"}") {
            return Err(
                AuthError::JwtTokenInvalid(
                    SerializableError { message: "InvalidToken".to_owned() },
                ),
            );
        }
        let pd = match base64url_decode(&p) {
            Some(v) => v,
            None => {
                return Err(
                    AuthError::JwtTokenInvalid(
                        SerializableError { message: "InvalidToken".to_owned() },
                    ),
                );
            },
        };
        let claims = match parse_claims_exec(&pd) {
            Some(c) => c,
            None => {
                return Err(
                    AuthError::JwtTokenInvalid(
                        SerializableError { message: "InvalidToken".to_owned() },
                    ),
                );
            },
        };
        if claims.expires_in < now {
            return Err(
                AuthError::JwtTokenExpired(
                    SerializableError { message: "ExpiredSignature".to_owned() },
                ),
            );
        }
        let mut msg = h;
        msg.push(0x2e);
        msg.extend_from_slice(p.as_slice());
        proof {
            assert(msg@ =~= bytes@.take(i as int) + (seq![0x2eu8] + rest.take(j - i - 1)));
        }
        let sig_str = match bytes_to_string(sg) {
            Some(s) => s,
            None => {
                return Err(
                    AuthError::JwtSignatureInvalid(
                        SerializableError { message: "InvalidSignature".to_owned() },
                    ),
                );
            },
        };
        proof {
            broadcast use vstd::utf8::group_utf8_lib;

            assert(encode_utf8(sig_str@) == sigpart);
        }
        let ok = match hmac_check(&self.secret, &msg, sig_str.as_str()) {
            Ok(b) => b,
            Err(_) => {
                proof {
                    assert(false);
                }
                false
            },
        };
        if ok {
            Ok(claims)
        } else {
            Err(
                AuthError::JwtSignatureInvalid(
                    SerializableError { message: "InvalidSignature".to_owned() },
                ),
            )
        }
    }
}

impl IJwtUtil for JwtUtil {
    /// Issuance always succeeds, and the credential is the canonical wire
    /// form of the issued claims at some instant, with a signature whose
    /// bytes lie in the base64url alphabet.
    open spec fn generate_result(&self, subject: Seq<char>, token_type: TokenType, r: Result<
        String,
        AuthError,
    >) -> bool {
        match r {
            Ok(t) => exists|now: int|
                #![trigger issued_claims(subject, token_type, now)]
                encode_utf8(t@) == wire_bytes(self@, issued_claims(subject, token_type, now))
                    && is_b64url_seq(
                    sig_of(self@, signing_input(issued_claims(subject, token_type, now))),
                ),
            Err(_) => false,
        }
    }

    /// Verification answers exactly what [`spec_verify`] says of the token
    /// bytes at some instant.
    open spec fn extract_result(&self, token: Seq<char>, r: Result<AuthClaims, AuthError>) -> bool {
        exists|now: int| #[trigger] verify_outcome(self@, encode_utf8(token), now, r)
    }

    /// Issue a credential for the subject at the current time.
    fn generate_token(&self, subject: &str, token_type: &TokenType) -> (r: Result<
        String,
        AuthError,
    >) {
        let now = current_timestamp();
        let r = self.generate_token_at(subject, token_type, now);
        proof {
            let c = issued_claims(subject@, *token_type, now as int);
            assert(r matches Ok(t) && encode_utf8(t@) == wire_bytes(self@, c) && is_b64url_seq(
                sig_of(self@, signing_input(c)),
            ));
        }
        r
    }

    /// Verify a presented credential at the current time.
    fn extract_claims(&self, token: &str) -> (r: Result<AuthClaims, AuthError>) {
        let now = current_timestamp();
        let r = self.extract_claims_at(token, now);
        proof {
            assert(verify_outcome(self@, encode_utf8(token@), now as int, r));
        }
        r
    }
}

/// A credential assembled from the canonical signed part for claims `c` and
/// any dot-free signature segment verifies by the expiry check first and
/// the signature comparison second.
pub proof fn lemma_verify_assembled(secret: Seq<u8>, c: ClaimsView, sig: Seq<u8>, now: int)
    requires
        forall|t: int| 0 <= t < sig.len() ==> sig[t] != 0x2e,
        -0x8000_0000_0000_0000 <= c.expires_in <= 0x7fff_ffff_ffff_ffff,
    ensures
        spec_verify(secret, signing_input(c) + (seq![0x2eu8] + sig), now) == (if c.expires_in
            < now {
            Err::<ClaimsView, VerifyFailure>(VerifyFailure::Expired)
        } else if valid_utf8(sig) && sig == sig_of(secret, signing_input(c)) {
            Ok::<ClaimsView, VerifyFailure>(c)
        } else {
            Err::<ClaimsView, VerifyFailure>(VerifyFailure::SignatureInvalid)
        }),
{
    let hb = b64_encode(header_bytes());
    let pb = b64_encode(payload_bytes(c));
    let m = signing_input(c);
    let w = m + (seq![0x2eu8] + sig);
    crate::b64::lemma_b64_encode_no_dot(header_bytes());
    crate::b64::lemma_b64_encode_no_dot(payload_bytes(c));
    let hl = hb.len() as int;
    let pl = pb.len() as int;
    assert(m[hl] == (seq![0x2eu8] + pb)[0]);
    assert(w[hl] == m[hl]);
    assert forall|t: int| 0 <= t < hl implies w[t] != 0x2e by {
        assert(w[t] == hb[t]);
    }
    lemma_find_dot_at(w, hl);
    let rest = w.skip(hl + 1);
    assert(rest =~= pb + (seq![0x2eu8] + sig));
    assert(rest[pl] == (seq![0x2eu8] + sig)[0]);
    assert forall|t: int| 0 <= t < pl implies rest[t] != 0x2e by {
        assert(rest[t] == pb[t]);
    }
    lemma_find_dot_at(rest, pl);
    let sigp = rest.skip(pl + 1);
    assert(sigp =~= sig);
    lemma_find_dot_none(sigp);
    assert(w.take(hl) =~= hb);
    assert(rest.take(pl) =~= pb);
    lemma_b64_decode_encode(header_bytes());
    lemma_b64_decode_encode(payload_bytes(c));
    lemma_parse_payload(c);
    assert(w.take(hl) + (seq![0x2eu8] + rest.take(pl)) == m);
}

/// A credential issued at `now_issue` verifies at every `now_verify` not
/// past its expiry, and the recovered claims carry the issued subject, the
/// issued token kind, no embedded identity, and an expiry in the future
/// relative to issuance. The first hypothesis is what the signing wrapper
/// guarantees of every signature it returns — its bytes lie in the
/// base64url alphabet — and issuance exports exactly this fact in its
/// `ensures`, so every caller of `generate_token_at` can discharge it.
pub proof fn lemma_issue_then_verify(
    secret: Seq<u8>,
    subject: Seq<char>,
    token_type: TokenType,
    now_issue: int,
    now_verify: int,
)
    requires
        is_b64url_seq(sig_of(secret, signing_input(issued_claims(subject, token_type, now_issue)))),
        now_verify <= issued_expiry(now_issue),
        -0x8000_0000_0000_0000 <= now_issue <= 0x7fff_ffff_ffff_ffff,
    ensures
        spec_verify(
            secret,
            wire_bytes(secret, issued_claims(subject, token_type, now_issue)),
            now_verify,
        ) == Ok::<ClaimsView, VerifyFailure>(issued_claims(subject, token_type, now_issue)),
        issued_claims(subject, token_type, now_issue).subject == subject,
        issued_claims(subject, token_type, now_issue).token_type == token_type,
        issued_claims(subject, token_type, now_issue).user_details is None,
        now_issue < 0x7fff_ffff_ffff_ffff ==> issued_claims(
            subject,
            token_type,
            now_issue,
        ).expires_in > now_issue,
{
    let c = issued_claims(subject, token_type, now_issue);
    let sig = sig_of(secret, signing_input(c));
    crate::b64::lemma_b64url_seq_shape(sig);
    lemma_verify_assembled(secret, c, sig, now_verify);
    lemma_ascii_bytes_utf8(sig);
}

/// A credential whose expiry has passed at verification time is reported
/// expired regardless of its signature segment: the same failure comes back
/// for a matching signature, a corrupted one, and one made with another
/// secret.
pub proof fn lemma_expired_regardless_of_signature(
    secret: Seq<u8>,
    c: ClaimsView,
    sig: Seq<u8>,
    now: int,
)
    requires
        forall|t: int| 0 <= t < sig.len() ==> sig[t] != 0x2e,
        -0x8000_0000_0000_0000 <= c.expires_in <= 0x7fff_ffff_ffff_ffff,
        c.expires_in < now,
    ensures
        spec_verify(secret, signing_input(c) + (seq![0x2eu8] + sig), now) == Err::<
            ClaimsView,
            VerifyFailure,
        >(VerifyFailure::Expired),
{
    lemma_verify_assembled(secret, c, sig, now);
}

/// Two different secrets never cross-validate: a credential in canonical
/// wire form under one secret fails signature verification under a codec
/// holding another, whenever the two secrets' signatures for the signed
/// part differ. That HMAC-SHA256 gives different secrets different
/// signatures is what the signing primitive provides; it cannot be stated
/// of the uninterpreted signature function, so it stands as a hypothesis.
pub proof fn lemma_cross_secret_rejected(
    secret_a: Seq<u8>,
    secret_b: Seq<u8>,
    c: ClaimsView,
    now: int,
)
    requires
        is_b64url_seq(sig_of(secret_a, signing_input(c))),
        sig_of(secret_a, signing_input(c)) != sig_of(secret_b, signing_input(c)),
        -0x8000_0000_0000_0000 <= c.expires_in <= 0x7fff_ffff_ffff_ffff,
        now <= c.expires_in,
    ensures
        spec_verify(secret_b, wire_bytes(secret_a, c), now) == Err::<ClaimsView, VerifyFailure>(
            VerifyFailure::SignatureInvalid,
        ),
{
    let sig = sig_of(secret_a, signing_input(c));
    crate::b64::lemma_b64url_seq_shape(sig);
    lemma_verify_assembled(secret_b, c, sig, now);
}

/// A token that splits reassembles from its three segments.
pub proof fn lemma_split_reconstruct(s: Seq<u8>)
    ensures
        split_token(s) matches Some(t) ==> s == t.0 + (seq![0x2eu8] + (t.1 + (seq![0x2eu8]
            + t.2))),
{
    if split_token(s) is Some {
        let i = find_dot(s);
        lemma_find_dot(s);
        let rest = s.skip(i + 1);
        let j = find_dot(rest);
        lemma_find_dot(rest);
        let t = split_token(s).unwrap();
        assert(s =~= t.0 + (seq![0x2eu8] + (t.1 + (seq![0x2eu8] + t.2)))) by {
            assert(s[i] == 0x2e);
            assert(rest[j] == 0x2e);
            assert(rest[j] == s[i + 1 + j]);
            assert forall|u: int| 0 <= u < rest.len() implies rest[u] == s[i + 1 + u] by {}
        }
    }
}

/// Verification never succeeds on anything but the canonical credential:
/// when claims come back, the token is byte for byte the canonical wire
/// form of those claims under the codec's secret — the crate's header and
/// the claims payload in strict base64url, joined by dots, closed by the
/// signature the signing primitive computes for them — and the expiry has
/// not passed. A forged string can verify only by carrying that very
/// signature, which is what the signing primitive exists to prevent.
#[verifier::rlimit(100)]
pub proof fn lemma_verify_ok_only_issued(secret: Seq<u8>, bytes: Seq<u8>, now: int)
    ensures
        spec_verify(secret, bytes, now) matches Ok(c) ==> bytes == wire_bytes(secret, c) && now
            <= c.expires_in,
{
    lemma_split_reconstruct(bytes);
    if spec_verify(secret, bytes, now) is Ok {
        let c = spec_verify(secret, bytes, now).unwrap();
        let t = split_token(bytes).unwrap();
        crate::b64::lemma_b64_encode_decode(t.0);
        crate::b64::lemma_b64_encode_decode(t.1);
        assert(t.0 == b64_encode(header_bytes()));
        let pb = b64_decode(t.1).unwrap();
        lemma_parse_claims_inverse(pb);
        assert(pb == payload_bytes(c));
        assert(t.1 == b64_encode(payload_bytes(c)));
        assert(t.0 + (seq![0x2eu8] + t.1) == signing_input(c));
        assert(t.2 == sig_of(secret, signing_input(c)));
        assert(bytes =~= wire_bytes(secret, c));
    }
}


} // verus!
