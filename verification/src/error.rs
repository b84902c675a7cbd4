//! The crate's error taxonomy: a closed set of named kinds, each carrying a
//! human-readable detail message, plus the bridges that classify errors of
//! the database driver, the token-signing library and the header type into
//! this taxonomy.
//!
//! The kind is discriminable independent of the message string; nothing in
//! this crate matches on message text.

use vstd::prelude::*;
use vstd::string::StringExecFns;

verus! {

/// An error message that can be carried across a serialization boundary.
#[derive(Debug)]
pub struct SerializableError {
    pub message: String,
}

impl SerializableError {
    /// The message, as the error displays itself.
    pub fn display_string(&self) -> (r: String)
        ensures
            r@ == self.message@,
    {
        self.message.clone()
    }
}

/// Every failure this crate surfaces. Database kinds classify driver
/// errors; the token kinds keep "no credential presented" (`Unauthorized`)
/// distinct from "credential presented but invalid" (`JwtTokenInvalid`,
/// `JwtSignatureInvalid`, `JwtTokenExpired`) and from issuance-time failure
/// (`JwtGenerate`).
#[derive(Debug)]
pub enum AuthError {
    DatabaseConnection(SerializableError),
    DatabaseQuery(SerializableError),
    DatabaseRowNotFound(SerializableError),
    DatabaseRowMapping(SerializableError),
    JwtGenerate(SerializableError),
    JwtTokenInvalid(SerializableError),
    JwtSignatureInvalid(SerializableError),
    JwtTokenExpired(SerializableError),
    Unauthorized(SerializableError),
    ToStr(SerializableError),
    Unhandled(SerializableError),
}

impl AuthError {
    /// True for the kinds a token codec may return: a presented credential
    /// failed verification or could not be issued — never `Unauthorized`,
    /// which is reserved for the authenticator itself.
    pub open spec fn is_token_error(&self) -> bool {
        match self {
            AuthError::JwtGenerate(_) => true,
            AuthError::JwtTokenInvalid(_) => true,
            AuthError::JwtSignatureInvalid(_) => true,
            AuthError::JwtTokenExpired(_) => true,
            _ => false,
        }
    }

    /// The line this error displays itself as: a fixed prefix naming the
    /// kind, then the detail message.
    pub open spec fn spec_display(&self) -> Seq<char> {
        match self {
            AuthError::DatabaseConnection(e) => "Database connection error: "@ + e.message@,
            AuthError::DatabaseQuery(e) => "Database query error: "@ + e.message@,
            AuthError::DatabaseRowNotFound(e) => "Database row not found: "@ + e.message@,
            AuthError::DatabaseRowMapping(e) => "Database row mapping error: "@ + e.message@,
            AuthError::JwtGenerate(e) => "JWT generation error: "@ + e.message@,
            AuthError::JwtTokenInvalid(e) => "JWT token invalid: "@ + e.message@,
            AuthError::JwtSignatureInvalid(e) => "JWT signature invalid: "@ + e.message@,
            AuthError::JwtTokenExpired(e) => "JWT token expired: "@ + e.message@,
            AuthError::Unauthorized(e) => "Unauthorized: "@ + e.message@,
            AuthError::ToStr(e) => "String conversion error: "@ + e.message@,
            AuthError::Unhandled(e) => "Unhandled error: "@ + e.message@,
        }
    }

    /// Render the error as one line of text.
    pub fn display_string(&self) -> (r: String)
        ensures
            r@ == self.spec_display(),
    {
        let (prefix, detail): (&str, &SerializableError) = match self {
            AuthError::DatabaseConnection(e) => ("Database connection error: ", e),
            AuthError::DatabaseQuery(e) => ("Database query error: ", e),
            AuthError::DatabaseRowNotFound(e) => ("Database row not found: ", e),
            AuthError::DatabaseRowMapping(e) => ("Database row mapping error: ", e),
            AuthError::JwtGenerate(e) => ("JWT generation error: ", e),
            AuthError::JwtTokenInvalid(e) => ("JWT token invalid: ", e),
            AuthError::JwtSignatureInvalid(e) => ("JWT signature invalid: ", e),
            AuthError::JwtTokenExpired(e) => ("JWT token expired: ", e),
            AuthError::Unauthorized(e) => ("Unauthorized: ", e),
            AuthError::ToStr(e) => ("String conversion error: ", e),
            AuthError::Unhandled(e) => ("Unhandled error: ", e),
        };
        let mut line = prefix.to_owned();
        line.append(detail.message.as_str());
        line
    }
}

/// The database driver error variants this crate distinguishes.
#[derive(Clone, Copy, Debug, PartialEq, Eq, Structural)]
pub enum DbErrorKind {
    PoolTimedOut,
    Configuration,
    RowNotFound,
    ColumnIndexOutOfBounds,
    ColumnDecode,
    TypeNotFound,
    Other,
}

/// The token-library error variants this crate distinguishes.
#[derive(Clone, Copy, Debug, PartialEq, Eq, Structural)]
pub enum JwtErrorKind {
    InvalidToken,
    InvalidSignature,
    Other,
}

#[verifier::external_type_specification]
#[verifier::external_body]
pub struct ExSqlxError(sqlx::Error);

#[verifier::external_type_specification]
#[verifier::external_body]
pub struct ExJwtError(jsonwebtoken::errors::Error);

#[verifier::external_type_specification]
#[verifier::external_body]
pub struct ExToStrError(http::header::ToStrError);

/// Relies on the variants of `sqlx::Error`: each arm of the match only
/// renames the variant it sees.
#[verifier::external_body]
fn sqlx_error_kind(error: &sqlx::Error) -> DbErrorKind {
    match error {
        sqlx::Error::PoolTimedOut => DbErrorKind::PoolTimedOut,
        sqlx::Error::Configuration(_) => DbErrorKind::Configuration,
        sqlx::Error::RowNotFound => DbErrorKind::RowNotFound,
        sqlx::Error::ColumnIndexOutOfBounds { .. } => DbErrorKind::ColumnIndexOutOfBounds,
        sqlx::Error::ColumnDecode { .. } => DbErrorKind::ColumnDecode,
        sqlx::Error::TypeNotFound { .. } => DbErrorKind::TypeNotFound,
        _ => DbErrorKind::Other,
    }
}

/// Relies on `sqlx::Error`'s `Display` implementation for the detail text.
#[verifier::external_body]
fn sqlx_error_message(error: &sqlx::Error) -> String {
    error.to_string()
}

/// Relies on `jsonwebtoken::errors::Error::kind`: each arm of the match
/// only renames the variant it sees.
#[verifier::external_body]
fn jwt_error_kind(error: &jsonwebtoken::errors::Error) -> JwtErrorKind {
    match error.kind() {
        jsonwebtoken::errors::ErrorKind::InvalidToken => JwtErrorKind::InvalidToken,
        jsonwebtoken::errors::ErrorKind::InvalidSignature => JwtErrorKind::InvalidSignature,
        _ => JwtErrorKind::Other,
    }
}

/// Relies on `jsonwebtoken::errors::Error`'s `Display` implementation for
/// the detail text.
#[verifier::external_body]
fn jwt_error_message(error: &jsonwebtoken::errors::Error) -> String {
    error.to_string()
}

/// Relies on `http::header::ToStrError`'s `Display` implementation for the
/// detail text.
#[verifier::external_body]
fn to_str_error_message(error: &http::header::ToStrError) -> String {
    error.to_string()
}

/// The error kind each database driver variant is surfaced as: timeouts,
/// configuration faults and anything unforeseen count as connection
/// trouble; a missing row, a bad column index and decoding faults keep
/// their own kinds.
pub fn classify_database_error(kind: DbErrorKind, message: String) -> (r: AuthError)
    ensures
        r == match kind {
            DbErrorKind::RowNotFound => (AuthError::DatabaseRowNotFound(
                SerializableError { message },
            )),
            DbErrorKind::ColumnIndexOutOfBounds => (AuthError::DatabaseQuery(
                SerializableError { message },
            )),
            DbErrorKind::ColumnDecode => (AuthError::DatabaseRowMapping(
                SerializableError { message },
            )),
            DbErrorKind::TypeNotFound => (AuthError::DatabaseRowMapping(
                SerializableError { message },
            )),
            _ => (AuthError::DatabaseConnection(SerializableError { message })),
        },
{
    let detail = SerializableError { message };
    match kind {
        DbErrorKind::RowNotFound => AuthError::DatabaseRowNotFound(detail),
        DbErrorKind::ColumnIndexOutOfBounds => AuthError::DatabaseQuery(detail),
        DbErrorKind::ColumnDecode => AuthError::DatabaseRowMapping(detail),
        DbErrorKind::TypeNotFound => AuthError::DatabaseRowMapping(detail),
        _ => AuthError::DatabaseConnection(detail),
    }
}

/// The error kind each token-library failure is surfaced as: a token
/// without a valid shape is invalid, a signature failure at issuance is a
/// generation error, anything else stays unhandled. This bridge keeps the
/// original pipeline's mapping for errors coming out of the token library;
/// the codec's own verification reports the finer kinds
/// (`JwtSignatureInvalid`, `JwtTokenExpired`) directly.
pub fn classify_jwt_error(kind: JwtErrorKind, message: String) -> (r: AuthError)
    ensures
        r == match kind {
            JwtErrorKind::InvalidToken => (AuthError::JwtTokenInvalid(SerializableError { message })),
            JwtErrorKind::InvalidSignature => (AuthError::JwtGenerate(SerializableError { message })),
            JwtErrorKind::Other => (AuthError::Unhandled(SerializableError { message })),
        },
{
    let detail = SerializableError { message };
    match kind {
        JwtErrorKind::InvalidToken => AuthError::JwtTokenInvalid(detail),
        JwtErrorKind::InvalidSignature => AuthError::JwtGenerate(detail),
        JwtErrorKind::Other => AuthError::Unhandled(detail),
    }
}

impl From<sqlx::Error> for AuthError {
    /// Classify a database driver error; which kind comes out is stated by
    /// [`classify_database_error`], whose inputs come from the trusted
    /// variant and message readers.
    fn from(error: sqlx::Error) -> Self {
        let kind = sqlx_error_kind(&error);
        let message = sqlx_error_message(&error);
        classify_database_error(kind, message)
    }
}

impl vstd::std_specs::convert::FromSpecImpl<sqlx::Error> for AuthError {
    open spec fn obeys_from_spec() -> bool {
        false
    }

    open spec fn from_spec(v: sqlx::Error) -> AuthError {
        arbitrary()
    }
}

impl From<jsonwebtoken::errors::Error> for AuthError {
    /// Classify a token-library error; which kind comes out is stated by
    /// [`classify_jwt_error`], whose inputs come from the trusted variant
    /// and message readers.
    fn from(error: jsonwebtoken::errors::Error) -> Self {
        let kind = jwt_error_kind(&error);
        let message = jwt_error_message(&error);
        classify_jwt_error(kind, message)
    }
}

impl vstd::std_specs::convert::FromSpecImpl<jsonwebtoken::errors::Error> for AuthError {
    open spec fn obeys_from_spec() -> bool {
        false
    }

    open spec fn from_spec(v: jsonwebtoken::errors::Error) -> AuthError {
        arbitrary()
    }
}

/// The error kind a header-text conversion failure is surfaced as: always
/// `ToStr`, carrying the header type's own message.
pub fn classify_to_str_error(message: String) -> (r: AuthError)
    ensures
        r == (AuthError::ToStr(SerializableError { message })),
{
    AuthError::ToStr(SerializableError { message })
}

impl From<http::header::ToStrError> for AuthError {
    /// A header value that is not readable text becomes a `ToStr` error;
    /// which kind comes out is stated by [`classify_to_str_error`], whose
    /// message comes from the trusted reader of the header type's display
    /// text.
    fn from(error: http::header::ToStrError) -> Self {
        let message = to_str_error_message(&error);
        classify_to_str_error(message)
    }
}

impl vstd::std_specs::convert::FromSpecImpl<http::header::ToStrError> for AuthError {
    open spec fn obeys_from_spec() -> bool {
        false
    }

    open spec fn from_spec(v: http::header::ToStrError) -> AuthError {
        arbitrary()
    }
}

} // verus!
