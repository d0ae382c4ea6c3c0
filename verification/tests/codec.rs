use scale_credentials::codec::{load_or_create_credentials, SAVE_FILE_MODE};
use scale_credentials::store::ScaleCredentials;

fn pairs(store: &ScaleCredentials, account: &str) -> Vec<(String, String)> {
    match store.account(&account.to_string()) {
        Some(a) => a.entries(),
        None => Vec::new(),
    }
}

#[test]
fn serialize_one_entry_exactly() {
    let store = ScaleCredentials::new(&"p".to_string()).add_entry(
        &"work".to_string(),
        &"prod".to_string(),
        &"sk-123".to_string(),
    );
    assert_eq!(store.serialize(), "[work]\nprod=sk-123\n");
}

#[test]
fn overwrite_leaves_single_line() {
    let store = ScaleCredentials::new(&"p".to_string())
        .add_entry(
            &"work".to_string(),
            &"prod".to_string(),
            &"sk-123".to_string(),
        )
        .add_entry(
            &"work".to_string(),
            &"prod".to_string(),
            &"sk-999".to_string(),
        );
    assert_eq!(store.serialize(), "[work]\nprod=sk-999\n");
}

#[test]
fn empty_store_serializes_to_nothing() {
    let store = ScaleCredentials::new(&"p".to_string());
    assert_eq!(store.serialize(), "");
}

#[test]
fn round_trip_preserves_triples() {
    let store = ScaleCredentials::new(&"p".to_string())
        .add_entry(&"work".to_string(), &"prod".to_string(), &"a".to_string())
        .add_entry(&"work".to_string(), &"dev".to_string(), &"b".to_string())
        .add_entry(&"play".to_string(), &"demo".to_string(), &"c d e".to_string());
    let text = store.serialize();
    let (reloaded, fallback) = ScaleCredentials::from_text(&"q".to_string(), &text);
    assert!(!fallback);
    assert_eq!(reloaded.filepath, "q");
    let mut names = reloaded.account_names();
    names.sort();
    assert_eq!(names, vec!["play".to_string(), "work".to_string()]);
    assert_eq!(pairs(&reloaded, "work"), pairs(&store, "work"));
    assert_eq!(pairs(&reloaded, "play"), pairs(&store, "play"));
}

#[test]
fn garbage_falls_back_to_empty() {
    let (store, fallback) = ScaleCredentials::from_text(
        &"/tmp/creds".to_string(),
        "this is not grouped key-value text at all\n",
    );
    assert!(fallback);
    assert_eq!(store.filepath, "/tmp/creds");
    assert!(store.account_names().is_empty());
}

#[test]
fn missing_content_falls_back_to_empty() {
    let (store, fallback) = load_or_create_credentials(&"/tmp/creds".to_string(), None);
    assert!(fallback);
    assert_eq!(store.filepath, "/tmp/creds");
    assert!(store.account_names().is_empty());
}

#[test]
fn reload_scenario() {
    // start with no file, add one key, save, reload from the saved text
    let (store, fallback) = load_or_create_credentials(&"/tmp/creds".to_string(), None);
    assert!(fallback);
    let store = store.add_entry(
        &"work".to_string(),
        &"prod".to_string(),
        &"sk-123".to_string(),
    );
    let text = store.serialize();
    let (reloaded, fallback) = load_or_create_credentials(&"/tmp/creds".to_string(), Some(&text));
    assert!(!fallback);
    assert_eq!(
        pairs(&reloaded, "work"),
        vec![("prod".to_string(), "sk-123".to_string())]
    );
}

#[test]
fn empty_text_is_an_empty_store() {
    let (store, fallback) = ScaleCredentials::from_text(&"p".to_string(), "");
    assert!(!fallback);
    assert!(store.account_names().is_empty());
}

#[test]
fn blank_lines_are_tolerated() {
    let (store, fallback) =
        ScaleCredentials::from_text(&"p".to_string(), "\n[a]\n\nx=1\n\n[b]\ny=2\n");
    assert!(!fallback);
    assert_eq!(pairs(&store, "a"), vec![("x".to_string(), "1".to_string())]);
    assert_eq!(pairs(&store, "b"), vec![("y".to_string(), "2".to_string())]);
}

#[test]
fn duplicate_labels_keep_the_last_value() {
    let (store, fallback) = ScaleCredentials::from_text(&"p".to_string(), "[a]\nx=1\nx=2\n");
    assert!(!fallback);
    assert_eq!(pairs(&store, "a"), vec![("x".to_string(), "2".to_string())]);
}

#[test]
fn duplicate_sections_merge() {
    let (store, fallback) =
        ScaleCredentials::from_text(&"p".to_string(), "[a]\nx=1\n[b]\ny=2\n[a]\nz=3\n");
    assert!(!fallback);
    let mut a = pairs(&store, "a");
    a.sort();
    assert_eq!(
        a,
        vec![
            ("x".to_string(), "1".to_string()),
            ("z".to_string(), "3".to_string()),
        ]
    );
    assert_eq!(pairs(&store, "b"), vec![("y".to_string(), "2".to_string())]);
}

#[test]
fn unclosed_header_falls_back() {
    let (store, fallback) = ScaleCredentials::from_text(&"p".to_string(), "[a\nx=1\n");
    assert!(fallback);
    assert!(store.account_names().is_empty());
}

#[test]
fn line_without_equals_falls_back() {
    let (_, fallback) = ScaleCredentials::from_text(&"p".to_string(), "[a]\nnoequals\n");
    assert!(fallback);
}

#[test]
fn key_before_any_section_falls_back() {
    let (_, fallback) = ScaleCredentials::from_text(&"p".to_string(), "x=1\n");
    assert!(fallback);
}

#[test]
fn unterminated_final_line_falls_back() {
    let (_, fallback) = ScaleCredentials::from_text(&"p".to_string(), "[a]\nx=1");
    assert!(fallback);
}

#[test]
fn value_may_contain_equals() {
    let (store, fallback) = ScaleCredentials::from_text(&"p".to_string(), "[a]\nx=u=v\n");
    assert!(!fallback);
    assert_eq!(pairs(&store, "a"), vec![("x".to_string(), "u=v".to_string())]);
    // and it survives the trip back out
    assert_eq!(store.serialize(), "[a]\nx=u=v\n");
}

#[test]
fn empty_label_and_value_round_trip() {
    let (store, fallback) = ScaleCredentials::from_text(&"p".to_string(), "[a]\n=\n");
    assert!(!fallback);
    assert_eq!(pairs(&store, "a"), vec![(String::new(), String::new())]);
    assert_eq!(store.serialize(), "[a]\n=\n");
}

#[test]
fn save_mode_is_owner_read_write_only() {
    assert_eq!(SAVE_FILE_MODE, 0o600);
    assert_eq!(SAVE_FILE_MODE & 0o177777 & !0o600, 0);
}
