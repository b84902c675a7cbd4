//! Classification of outside errors into the crate's taxonomy, and the
//! display text of the taxonomy itself.

use jwt_auth::AuthError;
use jwt_auth::SerializableError;

#[test]
fn test_from_pool_timeout() {
    let sqlx_error = sqlx::Error::PoolTimedOut;
    let sqlx_error_string = sqlx_error.to_string();

    let error = AuthError::from(sqlx_error);

    if let AuthError::DatabaseConnection(db_connection_error) = error {
        assert!(matches!(db_connection_error, SerializableError { .. }));
        assert_eq!(db_connection_error.message, sqlx_error_string);
    } else {
        panic!("Expected DatabaseConnection error");
    }
}

#[test]
fn test_from_row_not_found() {
    let sqlx_error = sqlx::Error::RowNotFound;
    let sqlx_error_string = sqlx_error.to_string();

    let error = AuthError::from(sqlx_error);

    if let AuthError::DatabaseRowNotFound(not_found_error) = error {
        assert!(matches!(not_found_error, SerializableError { .. }));
        assert_eq!(not_found_error.message, sqlx_error_string);
    } else {
        panic!("Expected DatabaseRowNotFound error");
    }
}

#[test]
fn test_from_configuration_error() {
    let sqlx_error = sqlx::Error::Configuration("test config error".to_string().into());
    let sqlx_error_string = sqlx_error.to_string();

    let error = AuthError::from(sqlx_error);

    if let AuthError::DatabaseConnection(error) = error {
        assert!(matches!(error, SerializableError { .. }));
        assert_eq!(error.message, sqlx_error_string);
    } else {
        panic!("Expected DatabaseConnection error");
    }
}

#[test]
fn test_from_jwt_generate_error() {
    let jwt_error =
        jsonwebtoken::errors::Error::from(jsonwebtoken::errors::ErrorKind::InvalidSignature);
    let jwt_error_string = jwt_error.to_string();

    let error = AuthError::from(jwt_error);

    if let AuthError::JwtGenerate(jwt_generate_error) = error {
        assert!(matches!(jwt_generate_error, SerializableError { .. }));
        assert_eq!(jwt_generate_error.message, jwt_error_string);
    } else {
        panic!("Expected JWTGenerate error");
    }
}

#[test]
fn test_from_lambda_http_to_str_error() {
    let invalid_bytes = b"\xf0\x9f\xa6\xad\xed\xa0\x80";
    let header_value = http::HeaderValue::from_bytes(invalid_bytes).unwrap();
    let to_str_result: Result<&str, http::header::ToStrError> = header_value.to_str();
    let to_str_error = to_str_result.unwrap_err();

    let error: AuthError = to_str_error.into();

    match error {
        AuthError::ToStr(serializable_error) => {
            assert_eq!(serializable_error.message, "failed to convert header to a str");
        }
        _ => panic!("Expected AuthError::ToStr variant, but got {:?}", error),
    }
}

#[test]
fn test_from_jwt_invalid_token_error() {
    let jwt_error = jsonwebtoken::errors::Error::from(jsonwebtoken::errors::ErrorKind::InvalidToken);
    let jwt_error_string = jwt_error.to_string();

    let error = AuthError::from(jwt_error);

    if let AuthError::JwtTokenInvalid(detail) = error {
        assert_eq!(detail.message, jwt_error_string);
    } else {
        panic!("Expected JwtTokenInvalid error");
    }
}

#[test]
fn test_display_string_prefixes_the_kind() {
    let error = AuthError::Unauthorized(SerializableError { message: "nope".to_string() });
    assert_eq!(error.display_string(), "Unauthorized: nope");

    let error = AuthError::DatabaseConnection(SerializableError { message: "down".to_string() });
    assert_eq!(error.display_string(), "Database connection error: down");

    let detail = SerializableError { message: "just this".to_string() };
    assert_eq!(detail.display_string(), "just this");
}
