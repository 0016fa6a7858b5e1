use imonitor::auth::{auth_enabled, basic_credentials, credentials_match, require_auth, Settings};
use imonitor::error::RegistryError;
use imonitor::token::{generate_token, hex_digit, token_from_nibbles, TOKEN_LEN};

fn settings(user: Option<&str>, pass: Option<&str>) -> Settings {
    Settings {
        public_url: "http://127.0.0.1:8080".to_string(),
        offline_timeout: 10,
        bind_addr: "[::]:8080".to_string(),
        admin_user: user.map(|s| s.to_string()),
        admin_pass: pass.map(|s| s.to_string()),
    }
}

#[test]
fn auth_enabled_needs_both() {
    assert!(auth_enabled(&settings(Some("admin"), Some("secret"))));
    assert!(!auth_enabled(&settings(Some("admin"), None)));
    assert!(!auth_enabled(&settings(None, Some("secret"))));
    assert!(!auth_enabled(&settings(None, None)));
}

#[test]
fn auth_disabled_permits_everything() {
    assert_eq!(require_auth(None, &settings(None, None)), Ok(()));
    assert_eq!(require_auth(Some(b"garbage".as_slice()), &settings(Some("a"), None)), Ok(()));
}

#[test]
fn auth_accepts_matching_pair() {
    let s = settings(Some("admin"), Some("secret"));
    assert_eq!(require_auth(Some(b"Basic YWRtaW46c2VjcmV0".as_slice()), &s), Ok(()));
    assert_eq!(require_auth(Some(b"Basic   YWRtaW46c2VjcmV0  ".as_slice()), &s), Ok(()));
    assert_eq!(require_auth(Some(b"Basic Basic YWRtaW46c2VjcmV0".as_slice()), &s), Ok(()));
}

#[test]
fn auth_refuses_otherwise() {
    let s = settings(Some("admin"), Some("secret"));
    assert_eq!(require_auth(None, &s), Err(RegistryError::Unauthorized));
    assert_eq!(require_auth(Some(b"Bearer YWRtaW46c2VjcmV0".as_slice()), &s), Err(RegistryError::Unauthorized));
    assert_eq!(require_auth(Some(b"Basic YWRtaW46d3Jvbmc=".as_slice()), &s), Err(RegistryError::Unauthorized));
    assert_eq!(require_auth(Some(b"Basic !!!notbase64".as_slice()), &s), Err(RegistryError::Unauthorized));
    assert_eq!(require_auth(Some(b"basic YWRtaW46c2VjcmV0".as_slice()), &s), Err(RegistryError::Unauthorized));
}

#[test]
fn basic_credentials_strips_scheme_and_space() {
    assert_eq!(basic_credentials(b"Basic abc"), Some(b"abc".to_vec()));
    assert_eq!(basic_credentials(b"Basic \t abc \r\n"), Some(b"abc".to_vec()));
    assert_eq!(basic_credentials(b"Basic Basic abc"), Some(b"abc".to_vec()));
    assert_eq!(basic_credentials(b"Basic "), Some(Vec::new()));
    assert_eq!(basic_credentials(b"Basic"), None);
    assert_eq!(basic_credentials(b"Token abc"), None);
}

#[test]
fn credentials_split_at_first_colon() {
    assert!(credentials_match(b"admin:secret", b"admin", b"secret"));
    assert!(credentials_match(b"admin:se:cret", b"admin", b"se:cret"));
    assert!(!credentials_match(b"ad:min:secret", b"ad:min", b"secret"));
    assert!(!credentials_match(b"admin:secret", b"admin", b"secreT"));
    assert!(!credentials_match(b"adminsecret", b"admin", b"secret"));
    assert!(credentials_match(b":", b"", b""));
}

#[test]
fn tokens_are_fixed_length_hex() {
    for _ in 0..20 {
        let t = generate_token();
        assert_eq!(t.len(), TOKEN_LEN);
        assert!(t.chars().all(|c| c.is_ascii_digit() || ('a'..='f').contains(&c)));
    }
    assert_ne!(generate_token(), generate_token());
}

#[test]
fn hex_digit_values() {
    assert_eq!(hex_digit(0), "0");
    assert_eq!(hex_digit(9), "9");
    assert_eq!(hex_digit(10), "a");
    assert_eq!(hex_digit(15), "f");
}

#[test]
fn token_spells_the_drawn_digits() {
    assert_eq!(token_from_nibbles(&vec![0, 1, 10, 15, 9]), "01af9");
    assert_eq!(token_from_nibbles(&Vec::new()), "");
    let forty: Vec<u8> = (0..40u8).map(|i| i % 16).collect();
    assert_eq!(token_from_nibbles(&forty), "0123456789abcdef0123456789abcdef01234567");
}
