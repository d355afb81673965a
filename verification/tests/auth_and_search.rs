use md_wiki::auth::{authenticate_user, change_password, Claims, Role, User};
use md_wiki::errors::AppError;
use md_wiki::search::search_documents;
use md_wiki::store::DocumentStore;

fn tags(names: &[&str]) -> Vec<String> {
    names.iter().map(|s| s.to_string()).collect()
}

#[test]
fn password_hash_round_trip() {
    let user = User::new("alice".to_string(), "s3cret", Role::Editor).unwrap();
    assert_eq!(user.username, "alice");
    assert_eq!(user.role, Role::Editor);
    assert!(user.password_hash.starts_with("$argon2"));
    assert!(user.verify_password("s3cret"));
    assert!(!user.verify_password("wrong"));
    assert!(!user.verify_password(""));
}

#[test]
fn authentication_decision() {
    let user = User::new("bob".to_string(), "pw", Role::Viewer).unwrap();
    let accepted = authenticate_user(Some(user), "pw");
    assert_eq!(accepted.as_ref().map(|u| u.username.as_str()), Some("bob"));
    let user = User::new("bob".to_string(), "pw", Role::Viewer).unwrap();
    assert!(authenticate_user(Some(user), "nope").is_none());
    assert!(authenticate_user(None, "pw").is_none());
}

#[test]
fn roles_and_permissions() {
    assert!(Role::Admin.can_edit());
    assert!(Role::Editor.can_edit());
    assert!(!Role::Viewer.can_edit());
    assert!(Role::Admin.can_manage_users());
    assert!(!Role::Editor.can_manage_users());
    assert!(!Role::Viewer.can_manage_users());
}

#[test]
fn role_names_round_trip() {
    assert_eq!(Role::parse("admin"), Some(Role::Admin));
    assert_eq!(Role::parse("editor"), Some(Role::Editor));
    assert_eq!(Role::parse("viewer"), Some(Role::Viewer));
    // matching ignores ASCII letter case
    assert_eq!(Role::parse("ADMIN"), Some(Role::Admin));
    assert_eq!(Role::parse("Editor"), Some(Role::Editor));
    assert_eq!(Role::parse("vIeWeR"), Some(Role::Viewer));
    assert_eq!(Role::parse("root"), None);
    assert_eq!(Role::parse(""), None);
    assert_eq!(Role::Admin.as_str(), "admin");
    assert_eq!(Role::parse(Role::Viewer.as_str()), Some(Role::Viewer));
}

#[test]
fn claims_expire_one_day_after_issue() {
    let c = Claims::new(7, "alice".to_string(), Role::Admin, 1_000);
    assert_eq!(c.sub, 7);
    assert_eq!(c.username, "alice");
    assert_eq!(c.role, Role::Admin);
    assert_eq!(c.exp, 1_000 + 86_400);
}

#[test]
fn search_is_case_insensitive() {
    let mut store = DocumentStore::new();
    store.create_document("greet", "Hello World\nbye", None, &tags(&[]), "x", 1).unwrap();
    let r = search_documents(&store, "HELLO").unwrap();
    assert_eq!(r.query, "hello");
    assert_eq!(r.results.len(), 1);
    assert_eq!(r.results[0].filename, "greet");
    assert_eq!(r.results[0].matches, 1);
    assert_eq!(r.total_matches, 1);
}

#[test]
fn search_counts_and_orders_by_matches() {
    let mut store = DocumentStore::new();
    store.create_document("once", "fox", None, &tags(&[]), "x", 1).unwrap();
    store.create_document("thrice", "fox fox fox", None, &tags(&[]), "x", 2).unwrap();
    store.create_document("none", "hedgehog", None, &tags(&[]), "x", 3).unwrap();
    let r = search_documents(&store, "fox").unwrap();
    assert_eq!(r.results.len(), 2);
    assert_eq!(r.results[0].filename, "thrice");
    assert_eq!(r.results[0].matches, 3);
    assert_eq!(r.results[1].filename, "once");
    assert_eq!(r.results[1].matches, 1);
    assert_eq!(r.total_matches, 4);
}

#[test]
fn search_preview_is_the_trimmed_line_of_the_first_match() {
    let mut store = DocumentStore::new();
    store
        .create_document("doc", "first line\nthe Needle is here\nlast", None, &tags(&[]), "x", 1)
        .unwrap();
    let r = search_documents(&store, "needle").unwrap();
    assert_eq!(r.results[0].content_preview, "the needle is here");
    let mut store = DocumentStore::new();
    store
        .create_document("pad", "x\n   padded Needle line \t \ny", None, &tags(&[]), "x", 1)
        .unwrap();
    let r = search_documents(&store, "needle").unwrap();
    assert_eq!(r.results[0].content_preview, "padded needle line");
}

#[test]
fn search_rejects_an_empty_query() {
    let store = DocumentStore::new();
    assert_eq!(search_documents(&store, "").err(), Some(AppError::InvalidInput));
}

#[test]
fn search_counts_non_overlapping_occurrences() {
    let mut store = DocumentStore::new();
    store.create_document("doc", "aaaaa", None, &tags(&[]), "x", 1).unwrap();
    let r = search_documents(&store, "aa").unwrap();
    assert_eq!(r.results[0].matches, 2);
}

#[test]
fn password_change_requires_the_current_password() {
    let user = User::new("dora".to_string(), "old-pw", Role::Viewer).unwrap();
    assert_eq!(
        change_password(None, "old-pw", "new-pw").err(),
        Some(AppError::Auth)
    );
    let changed = change_password(Some(user), "old-pw", "new-pw").unwrap();
    assert_eq!(changed.username, "dora");
    assert!(changed.verify_password("new-pw"));
    assert!(!changed.verify_password("old-pw"));
    let user = User::new("dora".to_string(), "old-pw", Role::Viewer).unwrap();
    assert_eq!(
        change_password(Some(user), "wrong", "new-pw").err(),
        Some(AppError::Auth)
    );
}
