//! Shared data types: the token kind, the authenticated principal's profile,
//! and the verified claims payload recovered from a credential.

use vstd::prelude::*;

verus! {

/// The kind of credential a claims payload authorizes. Access tokens
/// authorize short-lived API calls; refresh tokens authorize issuance of new
/// access tokens.
#[derive(Clone, Copy, Debug, PartialEq, Eq, Structural)]
pub enum TokenType {
    AccessToken,
    RefreshToken,
}

/// The authenticated principal's profile data: a stable unique identifier,
/// a display name (middle name optional), and a contact address.
#[derive(Debug, PartialEq, Eq)]
pub struct AuthUser {
    pub id: String,
    pub first_name: String,
    pub middle_name: Option<String>,
    pub last_name: String,
    pub email: String,
}

/// Mathematical model of an [`AuthUser`]: each text field as a sequence of
/// characters.
pub struct UserView {
    pub id: Seq<char>,
    pub first_name: Seq<char>,
    pub middle_name: Option<Seq<char>>,
    pub last_name: Seq<char>,
    pub email: Seq<char>,
}

impl View for AuthUser {
    type V = UserView;

    open spec fn view(&self) -> UserView {
        UserView {
            id: self.id@,
            first_name: self.first_name@,
            middle_name: match self.middle_name {
                Some(m) => Some(m@),
                None => None,
            },
            last_name: self.last_name@,
            email: self.email@,
        }
    }
}

impl Clone for AuthUser {
    fn clone(&self) -> (r: Self)
        ensures
            r@ == self@,
    {
        AuthUser {
            id: self.id.clone(),
            first_name: self.first_name.clone(),
            middle_name: match &self.middle_name {
                Some(m) => Some(m.clone()),
                None => None,
            },
            last_name: self.last_name.clone(),
            email: self.email.clone(),
        }
    }
}

/// The decoded, verified content of a credential: the subject (string form
/// of the identity's unique identifier), the absolute instant (seconds since
/// the Unix epoch) after which the claims are invalid, the token kind, and
/// optionally the embedded identity profile.
#[derive(Debug, PartialEq, Eq)]
pub struct AuthClaims {
    pub subject: String,
    pub expires_in: i64,
    pub token_type: TokenType,
    pub user_details: Option<AuthUser>,
}

/// Mathematical model of an [`AuthClaims`] value.
pub struct ClaimsView {
    pub subject: Seq<char>,
    pub expires_in: int,
    pub token_type: TokenType,
    pub user_details: Option<UserView>,
}

impl View for AuthClaims {
    type V = ClaimsView;

    open spec fn view(&self) -> ClaimsView {
        ClaimsView {
            subject: self.subject@,
            expires_in: self.expires_in as int,
            token_type: self.token_type,
            user_details: match self.user_details {
                Some(u) => Some(u@),
                None => None,
            },
        }
    }
}

impl Clone for AuthClaims {
    fn clone(&self) -> (r: Self)
        ensures
            r@ == self@,
    {
        AuthClaims {
            subject: self.subject.clone(),
            expires_in: self.expires_in,
            token_type: self.token_type,
            user_details: match &self.user_details {
                Some(u) => Some(u.clone()),
                None => None,
            },
        }
    }
}

} // verus!
