//! A small authentication helper for HTTP request handlers.
//!
//! The crate has two halves: a token codec ([`jwt::JwtUtil`]) that signs a
//! claims payload into an opaque credential string and verifies such a string
//! back into claims, and an authenticator ([`auth::Auth`]) that extracts a
//! credential from request headers, enforces a scheme prefix, delegates
//! verification to the codec, and caches the resulting identity for one
//! request.

pub mod auth;
pub mod b64;
pub mod error;
pub mod json;
pub mod jwt;
pub mod response;
pub mod text;
pub mod types;

pub use auth::Auth;
pub use auth::Headers;
pub use auth::IAuth;
pub use error::AuthError;
pub use error::DbErrorKind;
pub use error::JwtErrorKind;
pub use error::SerializableError;
pub use jwt::IJwtUtil;
pub use jwt::JwtUtil;
pub use response::ApiResponse;
pub use types::AuthClaims;
pub use types::AuthUser;
pub use types::TokenType;
