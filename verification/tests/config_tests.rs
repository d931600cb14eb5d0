use saytype::config::{generate_random_token, SayTypeConfig};

#[test]
fn test_generate_random_token() {
    let token = generate_random_token();
    assert_eq!(token.len(), 32);
    assert!(token
        .chars()
        .all(|c| c.is_ascii_lowercase() || c.is_ascii_digit()));
}

#[test]
fn test_default_config() {
    let config = SayTypeConfig::default();
    assert!(!config.enabled);
    assert_eq!(config.port, 8765);
    assert_eq!(config.token.len(), 32);
    assert!(!config.onboarded);
}

#[test]
fn test_tokens_differ() {
    // Two draws of a 32-character random token virtually never collide; a
    // constant token would make this fail.
    let a = generate_random_token();
    let b = generate_random_token();
    assert_ne!(a, b);
}
