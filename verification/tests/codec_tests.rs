//! The token codec end to end: issuance, verification, expiry, tampering,
//! cross-secret rejection, and the full request scenario.

use jwt_auth::AuthClaims;
use jwt_auth::AuthError;
use jwt_auth::AuthUser;
use jwt_auth::Auth;
use jwt_auth::Headers;
use jwt_auth::IJwtUtil;
use jwt_auth::JwtUtil;
use jwt_auth::TokenType;

use chrono::Utc;
use uuid::Uuid;

#[test]
fn test_generate_token() {
    let app_key = "test-app-key";
    let jwt_util = JwtUtil::new(app_key);
    let user_id = Uuid::new_v4();
    let subject = user_id.to_string();
    let token_type = TokenType::AccessToken;

    let token_result = jwt_util.generate_token(&subject, &token_type);

    assert!(token_result.is_ok());
    let token = token_result.unwrap();
    assert!(!token.is_empty());
    let decoding_key = jsonwebtoken::DecodingKey::from_secret(app_key.as_bytes());
    let validation = jsonwebtoken::Validation::default();
    let decoded_result = jsonwebtoken::decode::<serde_json::Value>(&token, &decoding_key, &validation);
    assert!(decoded_result.is_ok());
    let decoded_claims = decoded_result.unwrap().claims;
    assert_eq!(decoded_claims["sub"], subject);
    assert_eq!(decoded_claims["token_type"], "AccessToken");
}

#[test]
fn test_extract_claims_success() {
    let jwt_util = JwtUtil::new("some_key");
    let subject = Uuid::new_v4().to_string();
    let token_type = TokenType::AccessToken;
    let token = jwt_util.generate_token(&subject, &token_type).ok().unwrap();

    let extract_claims_result = jwt_util.extract_claims(&token);

    assert!(extract_claims_result.is_ok());
    let extract_claims = extract_claims_result.unwrap();
    assert_eq!(extract_claims.subject, subject);
    assert_eq!(extract_claims.token_type, token_type);
}

#[test]
fn test_extract_claims_invalid_token() {
    let jwt_util = JwtUtil::new("some_key");

    let extract_claims_result = jwt_util.extract_claims("invalid token");

    assert!(extract_claims_result.is_err());
    if let Err(AuthError::JwtTokenInvalid(error)) = extract_claims_result {
        assert_eq!(error.message, "InvalidToken");
    } else {
        panic!("Unexpected error type");
    }
}

#[test]
fn test_issued_expiry_lies_in_the_future() {
    let jwt_util = JwtUtil::new("some_key");
    let before = Utc::now().timestamp();
    let token = jwt_util.generate_token("subject-1", &TokenType::AccessToken).unwrap();
    let claims = jwt_util.extract_claims(&token).unwrap();
    assert!(claims.expires_in > before);
}

#[test]
fn test_refresh_token_round_trip() {
    let jwt_util = JwtUtil::new("some_key");
    let token = jwt_util.generate_token("subject-2", &TokenType::RefreshToken).unwrap();
    let claims = jwt_util.extract_claims(&token).unwrap();
    assert_eq!(claims.token_type, TokenType::RefreshToken);
    assert_eq!(claims.user_details, None);
}

#[test]
fn test_claims_round_trip_embedded_identity() {
    let jwt_util = JwtUtil::new("round-trip-key");
    let claims = AuthClaims {
        subject: "user-77".to_string(),
        expires_in: Utc::now().timestamp() + 600,
        token_type: TokenType::AccessToken,
        user_details: Some(AuthUser {
            id: "user-77".to_string(),
            first_name: "Ada".to_string(),
            middle_name: Some("B.".to_string()),
            last_name: "Lovelace".to_string(),
            email: "ada@example.com".to_string(),
        }),
    };
    let token = jwt_util.generate_token_with_claims(&claims).unwrap();
    let recovered = jwt_util.extract_claims(&token).unwrap();
    assert_eq!(recovered, claims);
}

#[test]
fn test_claims_round_trip_special_characters() {
    let jwt_util = JwtUtil::new("round-trip-key");
    let claims = AuthClaims {
        subject: "quo\"te\\back\nnew\ttab\u{1f600}é".to_string(),
        expires_in: -1234567890,
        token_type: TokenType::RefreshToken,
        user_details: None,
    };
    let token = jwt_util.generate_token_with_claims(&claims).unwrap();
    // A negative expiry lies in the past, so verification reports expiry,
    // which shows the payload with escapes and multi-byte text still parses.
    match jwt_util.extract_claims(&token).unwrap_err() {
        AuthError::JwtTokenExpired(detail) => assert_eq!(detail.message, "ExpiredSignature"),
        _ => panic!("Expected JwtTokenExpired"),
    }
}

#[test]
fn test_embedded_identity_token_reads_as_standard_json() {
    // The verified serializer must produce JSON any standard parser reads.
    let app_key = "interop-key";
    let jwt_util = JwtUtil::new(app_key);
    let claims = AuthClaims {
        subject: "user-9".to_string(),
        expires_in: Utc::now().timestamp() + 900,
        token_type: TokenType::RefreshToken,
        user_details: Some(AuthUser {
            id: "user-9".to_string(),
            first_name: "Grace".to_string(),
            middle_name: None,
            last_name: "Hopper".to_string(),
            email: "grace@example.com".to_string(),
        }),
    };
    let token = jwt_util.generate_token_with_claims(&claims).unwrap();

    let decoding_key = jsonwebtoken::DecodingKey::from_secret(app_key.as_bytes());
    let mut validation = jsonwebtoken::Validation::default();
    validation.algorithms = vec![jsonwebtoken::Algorithm::HS256];
    let decoded = jsonwebtoken::decode::<serde_json::Value>(&token, &decoding_key, &validation)
        .unwrap()
        .claims;
    assert_eq!(decoded["sub"], "user-9");
    assert_eq!(decoded["token_type"], "RefreshToken");
    assert_eq!(decoded["user_details"]["first_name"], "Grace");
    assert!(decoded["user_details"]["middle_name"].is_null());
    assert_eq!(decoded["user_details"]["email"], "grace@example.com");
}

#[test]
fn test_expired_token_rejected() {
    let jwt_util = JwtUtil::new("some_key");
    let claims = AuthClaims {
        subject: "late".to_string(),
        expires_in: Utc::now().timestamp() - 10,
        token_type: TokenType::AccessToken,
        user_details: None,
    };
    let token = jwt_util.generate_token_with_claims(&claims).unwrap();
    match jwt_util.extract_claims(&token).unwrap_err() {
        AuthError::JwtTokenExpired(detail) => assert_eq!(detail.message, "ExpiredSignature"),
        _ => panic!("Expected JwtTokenExpired"),
    }
}

#[test]
fn test_expired_reported_regardless_of_signature() {
    // An expired credential reports expiry even under the wrong secret.
    let issuer = JwtUtil::new("secret-a");
    let verifier = JwtUtil::new("secret-b");
    let claims = AuthClaims {
        subject: "late".to_string(),
        expires_in: Utc::now().timestamp() - 10,
        token_type: TokenType::AccessToken,
        user_details: None,
    };
    let token = issuer.generate_token_with_claims(&claims).unwrap();
    match verifier.extract_claims(&token).unwrap_err() {
        AuthError::JwtTokenExpired(_) => {}
        _ => panic!("Expected JwtTokenExpired"),
    }
}

#[test]
fn test_different_secrets_never_cross_validate() {
    let issuer = JwtUtil::new("secret-a");
    let verifier = JwtUtil::new("secret-b");
    let token = issuer.generate_token("subject-3", &TokenType::AccessToken).unwrap();
    match verifier.extract_claims(&token).unwrap_err() {
        AuthError::JwtSignatureInvalid(detail) => assert_eq!(detail.message, "InvalidSignature"),
        _ => panic!("Expected JwtSignatureInvalid"),
    }
}

#[test]
fn test_tampered_signature_rejected() {
    let jwt_util = JwtUtil::new("some_key");
    let token = jwt_util.generate_token("subject-4", &TokenType::AccessToken).unwrap();
    let mut tampered = token.clone();
    let last = tampered.pop().unwrap();
    tampered.push(if last == 'A' { 'B' } else { 'A' });
    match jwt_util.extract_claims(&tampered).unwrap_err() {
        AuthError::JwtSignatureInvalid(_) => {}
        _ => panic!("Expected JwtSignatureInvalid"),
    }
}

#[test]
fn test_garbage_with_dots_is_malformed() {
    let jwt_util = JwtUtil::new("some_key");
    match jwt_util.extract_claims("a.b.c").unwrap_err() {
        AuthError::JwtTokenInvalid(detail) => assert_eq!(detail.message, "InvalidToken"),
        _ => panic!("Expected JwtTokenInvalid"),
    }
}

#[test]
fn test_scenario_issue_and_authenticate() {
    // The concrete end-to-end scenario: scheme "Watashiwasta", secret
    // "test-app-key", a fixed subject, an access token with the identity
    // embedded; the authenticated identity carries the original identifier.
    let secret = "test-app-key";
    let subject = "f3b4a7de-0001-4a5b-9c3d-2e8f00112233";
    let jwt_util = JwtUtil::new(secret);
    let claims = AuthClaims {
        subject: subject.to_string(),
        expires_in: Utc::now().timestamp() + 3600,
        token_type: TokenType::AccessToken,
        user_details: Some(AuthUser {
            id: subject.to_string(),
            first_name: "John".to_string(),
            middle_name: None,
            last_name: "Doe".to_string(),
            email: "johndoe@example.com".to_string(),
        }),
    };
    let token = jwt_util.generate_token_with_claims(&claims).unwrap();
    assert!(!token.is_empty());

    let mut headers = Headers::new();
    headers.insert("Authorization", format!("Watashiwasta {}", token).as_bytes());

    let mut auth = Auth::new(JwtUtil::new(secret));
    assert!(auth.authenticate(&headers).is_ok());
    assert_eq!(auth.user().unwrap().id, subject);
}

#[test]
fn test_scenario_bearer_scheme_rejected() {
    // A "Bearer" credential presented to an authenticator configured for
    // the "Watashiwasta" scheme is indistinguishable from a missing header.
    let mut headers = Headers::new();
    headers.insert("Authorization", b"Bearer abc123");

    let mut auth = Auth::new(JwtUtil::new("test-app-key"));
    match auth.authenticate(&headers).unwrap_err() {
        AuthError::Unauthorized(detail) => {
            assert_eq!(detail.message, "Missing Authorization header")
        }
        _ => panic!("Expected Unauthorized"),
    }
}

#[test]
fn test_scenario_absent_header() {
    let headers = Headers::new();
    let mut auth = Auth::new(JwtUtil::new("test-app-key"));
    match auth.authenticate(&headers).unwrap_err() {
        AuthError::Unauthorized(detail) => {
            assert_eq!(detail.message, "Missing Authorization header")
        }
        _ => panic!("Expected Unauthorized"),
    }
    assert_eq!(auth.user(), None);
}
