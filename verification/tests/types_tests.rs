//! Construction of the shared data types.

use jwt_auth::AuthClaims;
use jwt_auth::AuthUser;
use jwt_auth::TokenType;

use uuid::Uuid;

#[test]
fn can_create_auth_user() {
    let id = Uuid::new_v4().to_string();
    let first_name = "John".to_string();
    let middle_name = Some("Middle".to_string());
    let last_name = "Doe".to_string();
    let email = "john.doe@example.com".to_string();

    let user = AuthUser { id: id.clone(), first_name, middle_name, last_name, email };

    assert_eq!(user.id, id);
    assert_eq!(user.first_name, "John");
    assert_eq!(user.middle_name, Some("Middle".to_string()));
    assert_eq!(user.last_name, "Doe");
    assert_eq!(user.email, "john.doe@example.com");
}

#[test]
fn can_create_auth_user_without_middle_name() {
    let id = Uuid::new_v4().to_string();
    let first_name = "Jane".to_string();
    let middle_name = None;
    let last_name = "Smith".to_string();
    let email = "jane.smith@example.com".to_string();

    let user = AuthUser { id: id.clone(), first_name, middle_name, last_name, email };

    assert_eq!(user.id, id);
    assert_eq!(user.first_name, "Jane");
    assert_eq!(user.middle_name, None);
    assert_eq!(user.last_name, "Smith");
    assert_eq!(user.email, "jane.smith@example.com");
}

#[test]
fn can_create_auth_claims_with_access_token() {
    let user_id = Uuid::new_v4();
    let subject = user_id.to_string();
    let expires_in = 3600;
    let token_type = TokenType::AccessToken;

    let claims = AuthClaims { subject, expires_in, token_type, user_details: None };

    assert_eq!(claims.subject, user_id.to_string());
    assert_eq!(claims.expires_in, 3600);
    assert_eq!(claims.token_type, TokenType::AccessToken);
}

#[test]
fn can_create_auth_claims_with_refresh_token() {
    let user_id = Uuid::new_v4();
    let subject = user_id.to_string();
    let expires_in = 86400;
    let token_type = TokenType::RefreshToken;

    let claims = AuthClaims { subject, expires_in, token_type, user_details: None };

    assert_eq!(claims.subject, user_id.to_string());
    assert_eq!(claims.expires_in, 86400);
    assert_eq!(claims.token_type, TokenType::RefreshToken);
}
