use articles::auth::authenticate;
use articles::auth::format_i32;
use articles::auth::generate_hash_secret;
use articles::auth::generate_token_hash;
use articles::auth::generate_user_token;
use articles::auth::hash_password;
use articles::auth::hash_secret;
use articles::auth::login;
use articles::auth::parse_i32;
use articles::auth::register_precheck;
use articles::auth::validate_credentials;
use articles::auth::verify_token;
use articles::auth::AuthError;
use articles::auth::UserAuth;

fn key() -> Vec<u8> {
    (0u8..32).collect()
}

#[test]
fn token_round_trip() {
    let k = key();
    let token = generate_user_token(&k, 42, "user@example.com");
    assert_eq!(authenticate(&k, &token), Some(42));
}

#[test]
fn token_round_trip_negative_id() {
    let k = key();
    let token = generate_user_token(&k, -3, "user@example.com");
    assert_eq!(verify_token(&k, &token), Some(-3));
}

#[test]
fn token_rejects_other_key() {
    let k = key();
    let mut other = key();
    other[0] ^= 0xFF;
    let token = generate_user_token(&k, 42, "user@example.com");
    assert_eq!(authenticate(&other, &token), None);
}

#[test]
fn token_rejects_tampering() {
    let k = key();
    let token = generate_user_token(&k, 42, "user@example.com");
    // swap the id inside the payload and re-encode
    let mut payload = base64::decode(&token).unwrap();
    payload[0] = b'9';
    let forged = base64::encode(&payload);
    assert_eq!(authenticate(&k, &forged), None);
    // garbage is rejected outright
    assert_eq!(authenticate(&k, "not base64 at all!"), None);
    assert_eq!(authenticate(&k, ""), None);
}

#[test]
fn token_hash_is_hex() {
    let k = key();
    let mac = generate_token_hash(&k, 7, "a@b.cd");
    assert_eq!(mac.len(), 64);
    assert!(mac.iter().all(|b| b.is_ascii_hexdigit() && !b.is_ascii_uppercase()));
    // and it depends on the key
    let mut other = key();
    other[31] ^= 1;
    assert_ne!(generate_token_hash(&other, 7, "a@b.cd"), mac);
}

#[test]
fn hash_secret_takes_first_32_bytes() {
    let base: Vec<u8> = (0u8..40).collect();
    let k = hash_secret(&base);
    assert_eq!(k, (0u8..32).collect::<Vec<u8>>());
    assert_eq!(generate_hash_secret(&base, 5), 5);
}

#[test]
fn decimal_format() {
    assert_eq!(format_i32(0), b"0".to_vec());
    assert_eq!(format_i32(123), b"123".to_vec());
    assert_eq!(format_i32(-123), b"-123".to_vec());
    assert_eq!(format_i32(i32::MIN), b"-2147483648".to_vec());
    assert_eq!(format_i32(i32::MAX), b"2147483647".to_vec());
}

#[test]
fn decimal_parse() {
    assert_eq!(parse_i32(&b"0".to_vec()), Some(0));
    assert_eq!(parse_i32(&b"007".to_vec()), Some(7));
    assert_eq!(parse_i32(&b"+42".to_vec()), Some(42));
    assert_eq!(parse_i32(&b"-2147483648".to_vec()), Some(i32::MIN));
    assert_eq!(parse_i32(&b"2147483647".to_vec()), Some(i32::MAX));
    assert_eq!(parse_i32(&b"2147483648".to_vec()), None);
    assert_eq!(parse_i32(&b"-2147483649".to_vec()), None);
    assert_eq!(parse_i32(&b"".to_vec()), None);
    assert_eq!(parse_i32(&b"-".to_vec()), None);
    assert_eq!(parse_i32(&b"12a".to_vec()), None);
    assert_eq!(parse_i32(&b" 12".to_vec()), None);
    assert_eq!(parse_i32(&b"99999999999999999999".to_vec()), None);
    assert_eq!(parse_i32(&b"00000000000000000001".to_vec()), Some(1));
}

#[test]
fn login_round_trip() {
    let k = key();
    let hash = hash_password("hunter2 is long").unwrap();
    assert_ne!(hash.as_bytes(), b"hunter2 is long");
    let stored = Some(UserAuth { id: 7, password: hash.clone() });
    let token = login(&k, stored, "a@b.cd", "hunter2 is long").unwrap();
    assert_eq!(authenticate(&k, &token), Some(7));

    let stored = Some(UserAuth { id: 7, password: hash });
    let wrong = login(&k, stored, "a@b.cd", "letmein letmein");
    assert!(matches!(wrong, Err(AuthError::WrongCredentials)));

    let unknown = login(&k, None, "a@b.cd", "hunter2 is long");
    assert!(matches!(unknown, Err(AuthError::WrongCredentials)));
}

#[test]
fn credential_validation() {
    assert!(validate_credentials("a@b.cd", "a long password"));
    assert!(!validate_credentials("ab", "a long password"));
    assert!(!validate_credentials(&"x".repeat(60), "a long password"));
    // the service refuses passwords of 5 to 11 bytes and takes shorter ones
    assert!(!validate_credentials("a@b.cd", "seven77"));
    assert!(validate_credentials("a@b.cd", "abcd"));
}

#[test]
fn registration_precheck_order() {
    assert!(matches!(
        register_precheck("ab", "a long password", false),
        Err(AuthError::ImproperCredentials)
    ));
    // improper credentials are reported before a taken email
    assert!(matches!(
        register_precheck("ab", "a long password", true),
        Err(AuthError::ImproperCredentials)
    ));
    assert!(matches!(
        register_precheck("a@b.cd", "a long password", true),
        Err(AuthError::EmailExists)
    ));
    assert!(matches!(register_precheck("a@b.cd", "a long password", false), Ok(())));
}

#[test]
fn auth_error_status_codes() {
    assert_eq!(AuthError::WrongCredentials.status(), 403);
    assert_eq!(AuthError::Forbidden.status(), 403);
    assert_eq!(AuthError::EmailExists.status(), 400);
    assert_eq!(AuthError::ImproperCredentials.status(), 400);
    assert_eq!(AuthError::Internal.status(), 500);
}
