use flowdb::auth::AuthState;

#[test]
fn test_auth_disabled_when_no_keys() {
    let auth = AuthState::new(vec![]);
    assert!(!auth.is_enabled());
    assert!(auth.check(None, None));
}

#[test]
fn test_auth_with_valid_key() {
    let auth = AuthState::new(vec!["secret123".to_string()]);
    assert!(auth.check(Some("secret123"), None));
}

#[test]
fn test_auth_with_invalid_key() {
    let auth = AuthState::new(vec!["secret123".to_string()]);
    assert!(!auth.check(Some("wrong"), None));
}

#[test]
fn test_auth_no_key_when_required() {
    let auth = AuthState::new(vec!["secret123".to_string()]);
    assert!(!auth.check(None, None));
}

#[test]
fn test_auth_is_enabled_true_when_keys_set() {
    let auth = AuthState::new(vec!["key".to_string()]);
    assert!(auth.is_enabled());
}

#[test]
fn test_auth_via_query_key() {
    let auth = AuthState::new(vec!["query-secret".to_string()]);
    assert!(auth.check(None, Some("query-secret")));
}

#[test]
fn test_auth_invalid_query_key() {
    let auth = AuthState::new(vec!["query-secret".to_string()]);
    assert!(!auth.check(None, Some("wrong")));
}

#[test]
fn test_auth_header_takes_precedence_over_query_key() {
    let auth = AuthState::new(vec!["header-secret".to_string()]);
    assert!(auth.check(Some("header-secret"), Some("wrong")));
    assert!(!auth.check(Some("wrong"), Some("header-secret")));
}

#[test]
fn keys_are_held_once() {
    let auth = AuthState::new(vec!["a".to_string(), "b".to_string(), "a".to_string()]);
    assert_eq!(auth.api_keys.len(), 2);
    assert!(auth.check(Some("b"), None));
}
