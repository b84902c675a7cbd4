//! The authenticator: it bridges raw request headers to a verified identity
//! for exactly one request.
//!
//! One `Auth` value is scoped to one inbound request. It starts
//! unauthenticated; a successful `authenticate` call stores the verified
//! claims, and a later call overwrites them (re-running verification is the
//! reference behavior on re-authentication). Construct a fresh value per
//! request: sharing one across requests would leak one caller's identity to
//! another.

use vstd::prelude::*;
use vstd::string::StringSliceAdditionalSpecFns;
use vstd::utf8::encode_utf8;

use crate::error::AuthError;
use crate::error::SerializableError;
use crate::json::expect_lit;
use crate::json::expect_lit_exec;
use crate::jwt::sub_vec;
use crate::jwt::IJwtUtil;
use crate::text::ascii_chars_of;
use crate::text::bytes_to_string;
use crate::text::is_ascii_bytes;
use crate::text::lemma_ascii_bytes_utf8;
use crate::types::AuthClaims;
use crate::types::AuthUser;

verus! {

/// An ASCII uppercase letter folded to lowercase; every other byte stands
/// for itself.
pub open spec fn lower_byte(b: u8) -> u8 {
    if 0x41 <= b <= 0x5a {
        (b + 0x20) as u8
    } else {
        b
    }
}

/// Two header names are the same up to ASCII case.
pub open spec fn name_matches(a: Seq<u8>, b: Seq<u8>) -> bool {
    a.map_values(|x: u8| lower_byte(x)) == b.map_values(|x: u8| lower_byte(x))
}

/// The value of the first entry whose name matches, reading entries in
/// insertion order.
pub open spec fn header_value(entries: Seq<(Seq<u8>, Seq<u8>)>, name: Seq<u8>) -> Option<Seq<u8>>
    decreases entries.len(),
{
    if entries.len() == 0 {
        None
    } else if name_matches(entries[0].0, name) {
        Some(entries[0].1)
    } else {
        header_value(entries.skip(1), name)
    }
}

/// A case-insensitive mapping of request header names to raw byte values.
/// Values are arbitrary bytes, as HTTP allows; insertion appends, and
/// lookup returns the first entry whose name matches up to ASCII case.
pub struct Headers {
    entries: Vec<(Vec<u8>, Vec<u8>)>,
}

impl View for Headers {
    type V = Seq<(Seq<u8>, Seq<u8>)>;

    closed spec fn view(&self) -> Seq<(Seq<u8>, Seq<u8>)> {
        self.entries@.map_values(|e: (Vec<u8>, Vec<u8>)| (e.0@, e.1@))
    }
}

impl Headers {
    /// An empty header map.
    pub fn new() -> (r: Self)
        ensures
            r@ == Seq::<(Seq<u8>, Seq<u8>)>::empty(),
    {
        let r = Headers { entries: Vec::new() };
        proof {
            assert(r@ =~= Seq::<(Seq<u8>, Seq<u8>)>::empty());
        }
        r
    }

    /// Append a header entry.
    pub fn insert(&mut self, name: &str, value: &[u8])
        ensures
            final(self)@ == old(self)@.push((name.spec_bytes(), value@)),
    {
        let name_bytes = name.as_bytes_vec();
        let mut value_bytes: Vec<u8> = Vec::new();
        value_bytes.extend_from_slice(value);
        proof {
            assert(value_bytes@ =~= value@);
        }
        self.entries.push((name_bytes, value_bytes));
        proof {
            assert(self@ =~= old(self)@.push((name.spec_bytes(), value@)));
        }
    }

    /// Look up a header by name, folding ASCII case.
    pub fn get(&self, name: &str) -> (r: Option<&Vec<u8>>)
        ensures
            match header_value(self@, name.spec_bytes()) {
                Some(v) => r matches Some(x) && x@ == v,
                None => r is None,
            },
    {
        let name_bytes = name.as_bytes();
        let mut k: usize = 0;
        proof {
            assert(self@.skip(0) =~= self@);
        }
        while k < self.entries.len()
            invariant
                k <= self.entries@.len(),
                self@.len() == self.entries@.len(),
                forall|t: int|
                    0 <= t < self@.len() ==> #[trigger] self@[t] == (
                        self.entries@[t].0@,
                        self.entries@[t].1@,
                    ),
                header_value(self@, name.spec_bytes()) == header_value(
                    self@.skip(k as int),
                    name.spec_bytes(),
                ),
                name_bytes@ == name.spec_bytes(),
            decreases self.entries@.len() - k,
        {
            let entry_name = &self.entries[k].0;
            if names_match_exec(entry_name, name_bytes) {
                proof {
                    assert(self@.skip(k as int)[0] == self@[k as int]);
                }
                return Some(&self.entries[k].1);
            }
            proof {
                assert(self@.skip(k as int)[0] == self@[k as int]);
                assert(self@.skip(k as int).skip(1) =~= self@.skip(k + 1));
            }
            k = k + 1;
        }
        proof {
            assert(self@.skip(k as int).len() == 0);
        }
        None
    }
}

/// Compare two header names up to ASCII case, as executable code.
fn names_match_exec(a: &Vec<u8>, b: &[u8]) -> (r: bool)
    ensures
        r == name_matches(a@, b@),
{
    let ghost la = a@.map_values(|x: u8| lower_byte(x));
    let ghost lb = b@.map_values(|x: u8| lower_byte(x));
    if a.len() != b.len() {
        proof {
            assert(la.len() != lb.len());
        }
        return false;
    }
    let mut t: usize = 0;
    while t < a.len()
        invariant
            t <= a@.len(),
            a@.len() == b@.len(),
            la == a@.map_values(|x: u8| lower_byte(x)),
            lb == b@.map_values(|x: u8| lower_byte(x)),
            forall|u: int| 0 <= u < t ==> #[trigger] la[u] == lb[u],
        decreases a@.len() - t,
    {
        let ab = a[t];
        let bb = b[t];
        let al = if 0x41 <= ab && ab <= 0x5a {
            ab + 0x20
        } else {
            ab
        };
        let bl = if 0x41 <= bb && bb <= 0x5a {
            bb + 0x20
        } else {
            bb
        };
        if al != bl {
            proof {
                assert(la[t as int] == lower_byte(a@[t as int]));
                assert(lb[t as int] == lower_byte(b@[t as int]));
                assert(la[t as int] != lb[t as int]);
            }
            return false;
        }
        proof {
            assert(la[t as int] == lower_byte(a@[t as int]));
            assert(lb[t as int] == lower_byte(b@[t as int]));
        }
        t = t + 1;
    }
    proof {
        assert(la =~= lb);
    }
    true
}

/// True when every byte of a header value is readable text: visible ASCII
/// or horizontal tab, the rule HTTP header text follows.
pub open spec fn is_header_text(v: Seq<u8>) -> bool {
    forall|i: int| 0 <= i < v.len() ==> (0x20 <= #[trigger] v[i] < 0x7f || v[i] == 0x09)
}

/// The credential bytes extracted from the headers, if the `Authorization`
/// entry is present, readable as text, and carries the scheme prefix.
pub open spec fn extracted_token(entries: Seq<(Seq<u8>, Seq<u8>)>, scheme: Seq<char>) -> Option<
    Seq<u8>,
> {
    match header_value(entries, encode_utf8("Authorization"@)) {
        None => None,
        Some(v) => if !is_header_text(v) {
            None
        } else {
            match expect_lit(v, encode_utf8(scheme)) {
                None => None,
                Some(token) => Some(token),
            }
        },
    }
}

/// An authenticator bound to one inbound request.
pub trait IAuth {
    fn authenticate(&mut self, headers: &Headers) -> Result<(), AuthError>;
}

/// The authenticator: it extracts the credential from the `Authorization`
/// header, enforces the scheme prefix, delegates verification to the codec,
/// and caches the verified claims for the request.
///
/// The authenticator does not restrict the token kind: a verified refresh
/// token authenticates like an access token, as in the original header
/// pipeline. A deployment that must refuse refresh tokens for direct API
/// access checks the cached claims' `token_type` after authenticating; the
/// codec does not enforce that automatically.
pub struct Auth<C: IJwtUtil> {
    jwt_util: C,
    claims: Option<AuthClaims>,
    auth_scheme: &'static str,
}

impl<C: IJwtUtil> Auth<C> {
    /// The claims cached by the last successful authentication, or `None`
    /// while unauthenticated.
    pub closed spec fn spec_claims(&self) -> Option<AuthClaims> {
        self.claims
    }

    /// The scheme prefix this authenticator requires, trailing space
    /// included.
    pub closed spec fn spec_scheme(&self) -> Seq<char> {
        self.auth_scheme@
    }

    /// The codec this authenticator delegates verification to.
    pub closed spec fn spec_codec(&self) -> C {
        self.jwt_util
    }

    /// A fresh, unauthenticated authenticator around the given codec.
    pub fn new(jwt_util: C) -> (r: Self)
        ensures
            r.spec_claims() is None,
            r.spec_scheme() == "Watashiwasta "@,
            r.spec_codec() == jwt_util,
    {
        Auth { jwt_util, claims: None, auth_scheme: "Watashiwasta " }
    }

    /// The embedded identity of the cached claims: a value only after a
    /// successful `authenticate` call stored claims that embed one, and an
    /// explicit absent value otherwise — never a placeholder identity.
    pub fn user(&self) -> (r: Option<AuthUser>)
        ensures
            match self.spec_claims() {
                None => r is None,
                Some(c) => match c.user_details {
                    None => r is None,
                    Some(u) => r matches Some(x) && x@ == u@,
                },
            },
    {
        match &self.claims {
            None => None,
            Some(c) => match &c.user_details {
                None => None,
                Some(u) => Some(u.clone()),
            },
        }
    }

    /// Authenticate one request from its headers. A missing `Authorization`
    /// entry, a value that is not readable text, and a value without the
    /// scheme prefix all fail with the same `Unauthorized` message, so a
    /// caller cannot probe which of the three held. A credential that was
    /// presented but rejected propagates the codec's own error kind,
    /// distinct from `Unauthorized`. Only success changes the cached
    /// claims; a repeated call re-runs verification and overwrites them.
    pub fn authenticate(&mut self, headers: &Headers) -> (r: Result<(), AuthError>)
        ensures
            final(self).spec_scheme() == old(self).spec_scheme(),
            final(self).spec_codec() == old(self).spec_codec(),
            match extracted_token(headers@, old(self).spec_scheme()) {
                None => r matches Err(e) && e matches AuthError::Unauthorized(d) && d.message@
                    == "Missing Authorization header"@ && final(self).spec_claims() == old(
                    self,
                ).spec_claims(),
                Some(token) => {
                    &&& r matches Err(e) ==> e.is_token_error() && final(self).spec_claims()
                        == old(self).spec_claims() && old(self).spec_codec().extract_result(
                        ascii_chars_of(token),
                        Err(e),
                    )
                    &&& r is Ok ==> (final(self).spec_claims() matches Some(c) && old(
                        self,
                    ).spec_codec().extract_result(ascii_chars_of(token), Ok(c)))
                },
            },
    {
        let value = match headers.get("Authorization") {
            Some(v) => v,
            None => {
                proof {
                    assert(header_value(headers@, "Authorization".spec_bytes()) is None);
                    assert(header_value(headers@, encode_utf8("Authorization"@)) is None);
                    assert(extracted_token(headers@, old(self).spec_scheme()) is None);
                }
                return Err(
                    AuthError::Unauthorized(
                        SerializableError { message: "Missing Authorization header".to_owned() },
                    ),
                );
            },
        };
        let mut t: usize = 0;
        while t < value.len()
            invariant
                t <= value@.len(),
                forall|u: int| 0 <= u < t ==> (0x20 <= #[trigger] value@[u] < 0x7f || value@[u]
                    == 0x09),
                header_value(headers@, encode_utf8("Authorization"@)) == Some(value@),
                self == old(self),
            decreases value@.len() - t,
        {
            let b = value[t];
            if !((0x20 <= b && b < 0x7f) || b == 0x09) {
                proof {
                    assert(!is_header_text(value@));
                }
                return Err(
                    AuthError::Unauthorized(
                        SerializableError { message: "Missing Authorization header".to_owned() },
                    ),
                );
            }
            t = t + 1;
        }
        proof {
            assert(is_header_text(value@));
            assert(value@.skip(0) =~= value@);
        }
        let start = match expect_lit_exec(value, 0, self.auth_scheme) {
            Some(j) => j,
            None => {
                return Err(
                    AuthError::Unauthorized(
                        SerializableError { message: "Missing Authorization header".to_owned() },
                    ),
                );
            },
        };
        let token_bytes = sub_vec(value, start, value.len());
        let ghost token_view = token_bytes@;
        proof {
            assert(token_view =~= value@.skip(start as int));
            assert(is_ascii_bytes(token_view));
            lemma_ascii_bytes_utf8(token_view);
            assert(extracted_token(headers@, old(self).spec_scheme()) == Some(token_view));
        }
        let token = match bytes_to_string(token_bytes) {
            Some(s) => s,
            None => {
                proof {
                    assert(false);
                }
                return Err(
                    AuthError::Unauthorized(
                        SerializableError { message: "Missing Authorization header".to_owned() },
                    ),
                );
            },
        };
        proof {
            assert(token@ == ascii_chars_of(token_view));
        }
        match self.jwt_util.extract_claims(token.as_str()) {
            Ok(claims) => {
                self.claims = Some(claims);
                Ok(())
            },
            Err(e) => Err(e),
        }
    }
}

impl<C: IJwtUtil> IAuth for Auth<C> {
    /// Authenticate one request from its headers; see the inherent method.
    fn authenticate(&mut self, headers: &Headers) -> Result<(), AuthError> {
        Auth::authenticate(self, headers)
    }
}

} // verus!
