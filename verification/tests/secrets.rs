use skillbasin::secrets::{
    extract_secret_refs, lookup_from, parse_env_text, resolve_secrets, KeychainReply, SecretLookup, SecretSource,
    SecretStore,
};
use skillbasin::strmap::StrMap;
use std::collections::BTreeMap;

/// In-memory stand-in for the OS keychain.
struct FakeKeychain(BTreeMap<String, String>);

impl SecretStore for FakeKeychain {
    fn get(&self, name: &str) -> SecretLookup {
        match self.0.get(name) {
            Some(value) => SecretLookup::Found(value.clone()),
            None => SecretLookup::Absent,
        }
    }
}

/// A keychain that cannot be consulted at all.
struct BrokenKeychain;

impl SecretStore for BrokenKeychain {
    fn get(&self, _name: &str) -> SecretLookup {
        SecretLookup::Unavailable("keychain is locked".to_string())
    }
}

fn names(v: &[&str]) -> Vec<String> {
    v.iter().map(|s| s.to_string()).collect()
}

fn env_of(text: &str) -> StrMap<String> {
    parse_env_text(text)
}

#[test]
fn locked_keychain_is_reported_as_unavailable_not_missing() {
    let out = resolve_secrets(&names(&["token"]), &BrokenKeychain, None);
    assert!(out.missing.is_empty(), "must not claim the secret is absent");
    assert_eq!(out.unavailable.get("token").map(String::as_str), Some("keychain is locked"));

    // A genuinely absent secret still reports as missing.
    let out = resolve_secrets(&names(&["token"]), &FakeKeychain(BTreeMap::new()), None);
    assert_eq!(out.missing, vec!["token".to_string()]);
    assert_eq!(out.unavailable.len(), 0);
}

#[test]
fn env_file_still_answers_when_the_keychain_is_unreachable() {
    let env = env_of("token=from-env\n");
    let out = resolve_secrets(&names(&["token"]), &BrokenKeychain, Some(&env));
    assert_eq!(out.resolved.get("token").map(String::as_str), Some("from-env"));
    assert_eq!(out.sources.get("token"), Some(&SecretSource::EnvFile));
    assert_eq!(out.unavailable.len(), 0);
    assert!(out.missing.is_empty());
}

#[test]
fn keychain_wins_over_env_file() {
    let env = env_of("qdrant_api_key=from-env\n");
    let keychain = FakeKeychain(BTreeMap::from([("qdrant_api_key".to_string(), "from-keychain".to_string())]));
    let out = resolve_secrets(&names(&["qdrant_api_key"]), &keychain, Some(&env));
    assert_eq!(out.resolved.get("qdrant_api_key").unwrap(), "from-keychain");
    assert!(out.missing.is_empty());
    assert_eq!(out.sources.get("qdrant_api_key"), Some(&SecretSource::Keychain));
}

#[test]
fn env_file_fills_keychain_gaps() {
    let env = env_of("# yorum satırı atlanır\nminimax_tts_key=env-değeri\n\nexport prefixed=ile de olur\n");
    let keychain = FakeKeychain(BTreeMap::new());
    let out = resolve_secrets(&names(&["minimax_tts_key", "prefixed"]), &keychain, Some(&env));
    assert_eq!(out.resolved.get("minimax_tts_key").unwrap(), "env-değeri");
    assert_eq!(out.resolved.get("prefixed").unwrap(), "ile de olur");
    assert_eq!(out.sources.get("minimax_tts_key"), Some(&SecretSource::EnvFile));
}

#[test]
fn missing_secrets_are_reported_not_invented() {
    let env = env_of("var_olan=x\n");
    let keychain = FakeKeychain(BTreeMap::new());
    let out = resolve_secrets(&names(&["var_olan", "eksik_anahtar"]), &keychain, Some(&env));
    assert_eq!(out.resolved.len(), 1);
    assert_eq!(out.missing, vec!["eksik_anahtar".to_string()]);
}

#[test]
fn absent_env_file_is_not_an_error() {
    let keychain = FakeKeychain(BTreeMap::from([("a".to_string(), "1".to_string())]));
    let out = resolve_secrets(&names(&["a", "b"]), &keychain, None);
    assert_eq!(out.resolved.get("a").unwrap(), "1");
    assert_eq!(out.missing, vec!["b".to_string()]);
}

#[test]
fn placeholder_extraction_finds_secret_refs() {
    let text = r#"{"env":{"A":"${secret:qdrant_api_key}","B":"düz","C":"${secret:tts_key}"}}"#;
    let mut refs = extract_secret_refs(text);
    refs.sort();
    assert_eq!(refs, vec!["qdrant_api_key".to_string(), "tts_key".to_string()]);
}

#[test]
fn placeholder_extraction_lists_each_name_once_and_skips_blank_or_unclosed_refs() {
    let text = "${secret: a } ${secret:a} ${secret:   } ${secret:b} ${secret:unclosed";
    assert_eq!(extract_secret_refs(text), vec!["a".to_string(), "b".to_string()]);
}

#[test]
fn env_file_with_bom_still_parses() {
    let env = env_of("\u{feff}key=bom-lu\n");
    let keychain = FakeKeychain(BTreeMap::new());
    let out = resolve_secrets(&names(&["key"]), &keychain, Some(&env));
    assert_eq!(out.resolved.get("key").unwrap(), "bom-lu");
}

#[test]
fn env_file_unwraps_quotes_and_preserves_inner_space() {
    let env = env_of("dquoted=\"a b \"\nsquoted='  x'\nplain=  düz değer  \nbare=tek\n");
    let keychain = FakeKeychain(BTreeMap::new());
    let out = resolve_secrets(&names(&["dquoted", "squoted", "plain", "bare"]), &keychain, Some(&env));
    assert_eq!(out.resolved.get("dquoted").unwrap(), "a b ");
    assert_eq!(out.resolved.get("squoted").unwrap(), "  x");
    assert_eq!(out.resolved.get("plain").unwrap(), "düz değer");
    assert_eq!(out.resolved.get("bare").unwrap(), "tek");
}

#[test]
fn env_file_lines_without_equals_and_crlf_endings_are_handled() {
    let env = env_of("just words\r\nk=v\r\n# c=d\r\n");
    assert_eq!(env.len(), 1);
    assert_eq!(env.get("k").unwrap(), "v");
}

#[test]
fn keychain_replies_map_to_lookups() {
    assert_eq!(lookup_from(KeychainReply::Password("p".to_string())), SecretLookup::Found("p".to_string()));
    assert_eq!(lookup_from(KeychainReply::NoEntry), SecretLookup::Absent);
    assert_eq!(lookup_from(KeychainReply::Failed("locked".to_string())), SecretLookup::Unavailable("locked".to_string()));
}

#[test]
fn env_text_with_two_byte_order_marks_keeps_the_second() {
    let env = env_of("\u{feff}\u{feff}k=v\n");
    assert_eq!(env.get("\u{feff}k").map(String::as_str), Some("v"));
}
