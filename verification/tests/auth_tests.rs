//! Authenticator behavior: header extraction, scheme enforcement, and the
//! cached identity, exercised with a stub codec.

use jwt_auth::AuthClaims;
use jwt_auth::AuthError;
use jwt_auth::AuthUser;
use jwt_auth::Auth;
use jwt_auth::Headers;
use jwt_auth::IJwtUtil;
use jwt_auth::SerializableError;
use jwt_auth::TokenType;

use chrono::Utc;
use uuid::Uuid;

/// What the stub codec answers when its `extract_claims` is reached.
enum StubBehavior {
    Succeed(AuthClaims),
    Fail,
}

/// A test double for the codec: it checks the token it is handed and
/// answers with a canned result.
struct StubJwtUtil {
    expected_token: String,
    behavior: StubBehavior,
}

impl IJwtUtil for StubJwtUtil {
    fn generate_token(
        &self,
        _subject: &str,
        _token_type: &TokenType,
    ) -> Result<String, AuthError> {
        panic!("the authenticator never issues tokens");
    }

    fn extract_claims(&self, token: &str) -> Result<AuthClaims, AuthError> {
        assert_eq!(token, self.expected_token);
        match &self.behavior {
            StubBehavior::Succeed(claims) => Ok(claims.clone()),
            StubBehavior::Fail => Err(AuthError::JwtTokenInvalid(SerializableError {
                message: "InvalidToken".to_string(),
            })),
        }
    }
}

#[test]
fn test_authenticate_success() {
    let auth_scheme = "Watashiwasta ";
    let raw_token = "valid_token";
    let access_token_value = format!("{}{}", auth_scheme, raw_token);
    let user_id = Uuid::new_v4();

    let mut headers = Headers::new();
    headers.insert("Authorization", access_token_value.as_bytes());

    let jwt_util = StubJwtUtil {
        expected_token: raw_token.to_string(),
        behavior: StubBehavior::Succeed(AuthClaims {
            subject: user_id.to_string(),
            expires_in: Utc::now().timestamp(),
            token_type: TokenType::AccessToken,
            user_details: Some(AuthUser {
                id: user_id.to_string(),
                first_name: "John".to_string(),
                middle_name: None,
                last_name: "Doe".to_string(),
                email: "johndoe@example.com".to_string(),
            }),
        }),
    };

    let mut auth = Auth::new(jwt_util);
    assert!(auth.authenticate(&headers).is_ok());
    assert_eq!(auth.user().unwrap().id, user_id.to_string());
}

#[test]
fn test_authenticate_missing_header() {
    let mock_jwt_util = StubJwtUtil { expected_token: String::new(), behavior: StubBehavior::Fail };
    let mut auth = Auth::new(mock_jwt_util);
    let headers = Headers::new();

    let authenticate_result = auth.authenticate(&headers);

    assert!(authenticate_result.is_err());
    match authenticate_result.unwrap_err() {
        AuthError::Unauthorized(error) => {
            assert_eq!(error.message, "Missing Authorization header")
        }
        _ => panic!("Unexpected error type"),
    }
}

#[test]
fn test_authenticate_invalid_scheme() {
    let jwt_util = StubJwtUtil { expected_token: String::new(), behavior: StubBehavior::Fail };
    let auth_scheme = "Invalid ";
    let raw_token = "valid_token";
    let access_token_value = format!("{}{}", auth_scheme, raw_token);

    let mut headers = Headers::new();
    headers.insert("Authorization", access_token_value.as_bytes());

    let mut auth = Auth::new(jwt_util);
    let test_did_fail = auth.authenticate(&headers).is_err();

    assert!(test_did_fail);
    assert_eq!(auth.user(), None);
}

#[test]
fn test_authenticate_jwt_extraction_error() {
    let access_token = "invalid_token";
    let mock_jwt_util =
        StubJwtUtil { expected_token: access_token.to_string(), behavior: StubBehavior::Fail };
    let mut headers = Headers::new();
    headers.insert(
        "Authorization",
        format!("Watashiwasta {}", access_token).as_bytes(),
    );

    let mut auth = Auth::new(mock_jwt_util);
    let authenticate_result = auth.authenticate(&headers);

    assert!(authenticate_result.is_err());
    match authenticate_result.unwrap_err() {
        AuthError::JwtTokenInvalid(_) => assert!(true),
        _ => panic!("Unexpected error type"),
    }
}

#[test]
fn test_header_lookup_is_case_insensitive() {
    let raw_token = "valid_token";
    let user_id = Uuid::new_v4();
    let jwt_util = StubJwtUtil {
        expected_token: raw_token.to_string(),
        behavior: StubBehavior::Succeed(AuthClaims {
            subject: user_id.to_string(),
            expires_in: Utc::now().timestamp() + 3600,
            token_type: TokenType::AccessToken,
            user_details: None,
        }),
    };
    let mut headers = Headers::new();
    headers.insert("AUTHORIZATION", format!("Watashiwasta {}", raw_token).as_bytes());

    let mut auth = Auth::new(jwt_util);
    assert!(auth.authenticate(&headers).is_ok());
}

#[test]
fn test_header_value_that_is_not_text_is_unauthorized() {
    let jwt_util = StubJwtUtil { expected_token: String::new(), behavior: StubBehavior::Fail };
    let mut headers = Headers::new();
    headers.insert("Authorization", &[0x57u8, 0x61, 0x00, 0x9f][..]);

    let mut auth = Auth::new(jwt_util);
    match auth.authenticate(&headers).unwrap_err() {
        AuthError::Unauthorized(error) => {
            assert_eq!(error.message, "Missing Authorization header")
        }
        _ => panic!("Unexpected error type"),
    }
}

#[test]
fn test_empty_header_value_is_unauthorized() {
    let jwt_util = StubJwtUtil { expected_token: String::new(), behavior: StubBehavior::Fail };
    let mut headers = Headers::new();
    headers.insert("Authorization", b"");

    let mut auth = Auth::new(jwt_util);
    match auth.authenticate(&headers).unwrap_err() {
        AuthError::Unauthorized(error) => {
            assert_eq!(error.message, "Missing Authorization header")
        }
        _ => panic!("Unexpected error type"),
    }
}

#[test]
fn test_empty_token_after_prefix_reaches_codec() {
    // The scheme prefix alone leaves an empty credential; the authenticator
    // hands it through and the codec rejects it as malformed.
    let jwt_util = StubJwtUtil { expected_token: String::new(), behavior: StubBehavior::Fail };
    let mut headers = Headers::new();
    headers.insert("Authorization", b"Watashiwasta ");

    let mut auth = Auth::new(jwt_util);
    match auth.authenticate(&headers).unwrap_err() {
        AuthError::JwtTokenInvalid(_) => {}
        _ => panic!("Unexpected error type"),
    }
    assert_eq!(auth.user(), None);
}
