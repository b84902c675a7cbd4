//! The byte-level building blocks: base64url vectors and the fixed-shape
//! response bodies.

use jwt_auth::b64::base64url_decode;
use jwt_auth::b64::base64url_encode;
use jwt_auth::ApiResponse;

fn encode_str(input: &str) -> Vec<u8> {
    base64url_encode(&input.as_bytes().to_vec())
}

#[test]
fn test_base64url_vectors() {
    assert_eq!(encode_str(""), b"".to_vec());
    assert_eq!(encode_str("f"), b"Zg".to_vec());
    assert_eq!(encode_str("fo"), b"Zm8".to_vec());
    assert_eq!(encode_str("foo"), b"Zm9v".to_vec());
    assert_eq!(encode_str("foob"), b"Zm9vYg".to_vec());
    assert_eq!(encode_str("fooba"), b"Zm9vYmE".to_vec());
    assert_eq!(encode_str("foobar"), b"Zm9vYmFy".to_vec());
}

#[test]
fn test_base64url_uses_url_safe_alphabet() {
    // 0xfb 0xff encodes to characters 62 and 63 of the url-safe alphabet.
    let encoded = base64url_encode(&vec![0xfbu8, 0xff]);
    assert_eq!(encoded, b"-_8".to_vec());
}

#[test]
fn test_base64url_decode_round_trip() {
    let input: Vec<u8> = (0u8..=255).collect();
    let encoded = base64url_encode(&input);
    let decoded = base64url_decode(&encoded).unwrap();
    assert_eq!(decoded, input);
}

#[test]
fn test_base64url_decode_rejects_bad_input() {
    // A length of one modulo four.
    assert!(base64url_decode(&b"Z".to_vec()).is_none());
    // A byte outside the alphabet.
    assert!(base64url_decode(&b"Z+".to_vec()).is_none());
    // Non-zero trailing bits.
    assert!(base64url_decode(&b"Zh".to_vec()).is_none());
}

#[test]
fn test_message_body_escapes_the_message() {
    let response = ApiResponse::new();
    let body = response.message_body("he\"llo\n");
    assert_eq!(body, b"{\"message\":\"he\\\"llo\\n\"}".to_vec());
}

#[test]
fn test_unauthorized_body_is_fixed() {
    let response = ApiResponse::new();
    assert_eq!(
        String::from_utf8(response.unauthorized_body()).unwrap(),
        "{\"message\":\"Unauthorized.\"}"
    );
}
