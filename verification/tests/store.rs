use scale_credentials::store::ScaleCredentials;

fn pairs(store: &ScaleCredentials, account: &str) -> Vec<(String, String)> {
    match store.account(&account.to_string()) {
        Some(a) => a.entries(),
        None => Vec::new(),
    }
}

#[test]
fn new_store_is_empty() {
    let store = ScaleCredentials::new(&"/tmp/creds".to_string());
    assert_eq!(store.filepath, "/tmp/creds");
    assert!(store.account_names().is_empty());
}

#[test]
fn unknown_account_yields_nothing() {
    let store = ScaleCredentials::new(&"p".to_string());
    assert!(store.account(&"absent".to_string()).is_none());
    assert!(pairs(&store, "absent").is_empty());

    let store = store.add_entry(
        &"work".to_string(),
        &"prod".to_string(),
        &"sk-123".to_string(),
    );
    assert!(store.account(&"play".to_string()).is_none());
}

#[test]
fn add_entry_creates_account_and_key() {
    let store = ScaleCredentials::new(&"p".to_string()).add_entry(
        &"work".to_string(),
        &"prod".to_string(),
        &"sk-123".to_string(),
    );
    assert_eq!(store.account_names(), vec!["work".to_string()]);
    assert_eq!(
        pairs(&store, "work"),
        vec![("prod".to_string(), "sk-123".to_string())]
    );
}

#[test]
fn add_entry_twice_is_idempotent() {
    let once = ScaleCredentials::new(&"p".to_string()).add_entry(
        &"work".to_string(),
        &"prod".to_string(),
        &"sk-123".to_string(),
    );
    let twice = ScaleCredentials::new(&"p".to_string())
        .add_entry(
            &"work".to_string(),
            &"prod".to_string(),
            &"sk-123".to_string(),
        )
        .add_entry(
            &"work".to_string(),
            &"prod".to_string(),
            &"sk-123".to_string(),
        );
    assert_eq!(once.serialize(), twice.serialize());
    assert_eq!(pairs(&twice, "work"), pairs(&once, "work"));
}

#[test]
fn add_entry_replaces_value() {
    let store = ScaleCredentials::new(&"p".to_string())
        .add_entry(
            &"work".to_string(),
            &"prod".to_string(),
            &"sk-123".to_string(),
        )
        .add_entry(
            &"work".to_string(),
            &"prod".to_string(),
            &"sk-999".to_string(),
        );
    assert_eq!(
        pairs(&store, "work"),
        vec![("prod".to_string(), "sk-999".to_string())]
    );
}

#[test]
fn accounts_and_keys_accumulate() {
    let store = ScaleCredentials::new(&"p".to_string())
        .add_entry(&"work".to_string(), &"prod".to_string(), &"a".to_string())
        .add_entry(&"work".to_string(), &"dev".to_string(), &"b".to_string())
        .add_entry(&"play".to_string(), &"demo".to_string(), &"c".to_string());
    let mut names = store.account_names();
    names.sort();
    assert_eq!(names, vec!["play".to_string(), "work".to_string()]);
    let mut work = pairs(&store, "work");
    work.sort();
    assert_eq!(
        work,
        vec![
            ("dev".to_string(), "b".to_string()),
            ("prod".to_string(), "a".to_string()),
        ]
    );
    assert_eq!(pairs(&store, "play"), vec![("demo".to_string(), "c".to_string())]);
}
