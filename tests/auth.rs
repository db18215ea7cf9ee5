use openvdb::auth::{authenticate, default_api_keys, AuthError, KeyHeader};
use openvdb::text::record_text;

fn keys(list: &[&str]) -> Vec<String> {
    list.iter().map(|k| k.to_string()).collect()
}

#[test]
fn authenticate_checks_the_header() {
    let configured = keys(&["k1", "k2"]);
    assert!(matches!(authenticate(KeyHeader::Absent, &configured), Err(AuthError::Missing)));
    assert!(matches!(authenticate(KeyHeader::Unreadable, &configured), Err(AuthError::Invalid)));
    assert!(matches!(authenticate(KeyHeader::Text("k3".to_string()), &configured), Err(AuthError::Invalid)));
    let ok = authenticate(KeyHeader::Text("k2".to_string()), &configured).unwrap();
    assert_eq!(ok.0, "k2");
}

#[test]
fn configured_keys_are_trimmed_and_deduplicated() {
    let got = default_api_keys(Some(" alpha, beta ,,alpha,\tgamma\n, ".to_string()));
    assert_eq!(got, keys(&["alpha", "beta", "gamma"]));
    assert!(default_api_keys(Some(" , ,".to_string())).is_empty());
}

#[test]
fn dev_key_when_nothing_configured() {
    assert_eq!(default_api_keys(None), keys(&["dev-key"]));
}

#[test]
fn log_lines_are_trimmed_and_blank_ones_skipped() {
    assert_eq!(record_text("  {\"type\":\"x\"}\r"), Some("{\"type\":\"x\"}".to_string()));
    assert_eq!(record_text(" \t "), None);
    assert_eq!(record_text(""), None);
}

#[test]
fn unicode_white_space_is_trimmed_from_keys() {
    let got = default_api_keys(Some("\u{3000}k1\u{a0},\u{2003}k2\u{85}".to_string()));
    assert_eq!(got, keys(&["k1", "k2"]));
    assert_eq!(record_text("\u{2028}x y\u{205f}"), Some("x y".to_string()));
}
