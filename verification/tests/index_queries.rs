use md_wiki::history::HistoryEngine;
use md_wiki::index::MetadataIndex;
use md_wiki::store::DocumentStore;

fn tags(names: &[&str]) -> Vec<String> {
    names.iter().map(|s| s.to_string()).collect()
}

#[test]
fn metadata_join_lists_tag_names() {
    let mut store = DocumentStore::new();
    store
        .create_document("doc", "body", Some("Title"), &tags(&["red", "blue"]), "a", 10)
        .unwrap();
    let m = store.get_metadata("doc").unwrap();
    assert_eq!(m.filename, "doc");
    assert_eq!(m.title.as_deref(), Some("Title"));
    assert_eq!(m.created_at, 10);
    assert_eq!(m.updated_at, 10);
    assert_eq!(m.view_count, 0);
    let mut names = m.tags.clone();
    names.sort();
    assert_eq!(names, vec!["blue".to_string(), "red".to_string()]);
}

#[test]
fn duplicate_tag_names_collapse() {
    let mut store = DocumentStore::new();
    store.create_document("doc", "body", None, &tags(&["x", "x", "x"]), "a", 1).unwrap();
    assert_eq!(store.get_metadata("doc").unwrap().tags, vec!["x".to_string()]);
    assert_eq!(store.all_tags(), vec!["x".to_string()]);
}

#[test]
fn shared_tags_survive_until_the_last_reference() {
    let mut store = DocumentStore::new();
    store.create_document("a", "1", None, &tags(&["shared", "only-a"]), "x", 1).unwrap();
    store.create_document("b", "2", None, &tags(&["shared"]), "x", 2).unwrap();
    let mut by_tag = store.list_by_tag("shared");
    by_tag.sort();
    assert_eq!(by_tag, vec!["a".to_string(), "b".to_string()]);
    store.delete_document("a", "x", 3).unwrap();
    // "only-a" lost its last reference, "shared" is still used by "b"
    assert_eq!(store.all_tags(), vec!["shared".to_string()]);
    assert_eq!(store.list_by_tag("shared"), vec!["b".to_string()]);
    assert_eq!(store.list_by_tag("only-a"), Vec::<String>::new());
    store.delete_document("b", "x", 4).unwrap();
    assert_eq!(store.all_tags(), Vec::<String>::new());
}

#[test]
fn replacing_tags_reclaims_orphans_and_keeps_shared_rows() {
    let mut store = DocumentStore::new();
    store.create_document("a", "1", None, &tags(&["old", "keep"]), "x", 1).unwrap();
    store.create_document("b", "2", None, &tags(&["keep"]), "x", 2).unwrap();
    store.update_metadata("a", None, &tags(&["new"]), 3).unwrap();
    let mut all = store.all_tags();
    all.sort();
    assert_eq!(all, vec!["keep".to_string(), "new".to_string()]);
    assert_eq!(store.list_by_tag("old"), Vec::<String>::new());
    assert_eq!(store.list_by_tag("new"), vec!["a".to_string()]);
    assert_eq!(store.list_by_tag("keep"), vec!["b".to_string()]);
}

#[test]
fn tag_names_are_case_sensitive() {
    let mut store = DocumentStore::new();
    store.create_document("doc", "b", None, &tags(&["Tag"]), "x", 1).unwrap();
    assert_eq!(store.list_by_tag("tag"), Vec::<String>::new());
    assert_eq!(store.list_by_tag("Tag"), vec!["doc".to_string()]);
}

#[test]
fn recent_documents_come_newest_first() {
    let mut store = DocumentStore::new();
    store.create_document("a", "1", None, &tags(&[]), "x", 10).unwrap();
    store.create_document("b", "2", None, &tags(&[]), "x", 20).unwrap();
    store.create_document("c", "3", None, &tags(&[]), "x", 30).unwrap();
    let top: Vec<String> = store.list_recent(2).into_iter().map(|m| m.filename).collect();
    assert_eq!(top, vec!["c".to_string(), "b".to_string()]);
    // touching "a" moves it to the front
    store.update_document("a", "1b", "x", 40).unwrap();
    let top: Vec<String> = store.list_recent(2).into_iter().map(|m| m.filename).collect();
    assert_eq!(top, vec!["a".to_string(), "c".to_string()]);
    // a large limit returns everything
    assert_eq!(store.list_recent(10).len(), 3);
    assert_eq!(store.list_recent(0).len(), 0);
}

#[test]
fn view_counter_advances_per_read() {
    let mut store = DocumentStore::new();
    store.create_document("doc", "b", None, &tags(&[]), "x", 1).unwrap();
    assert!(store.increment_view_count("doc"));
    assert!(store.increment_view_count("doc"));
    assert!(!store.increment_view_count("ghost"));
    let m = store.get_metadata("doc").unwrap();
    assert_eq!(m.view_count, 2);
    // the counter is metadata only; content and history are untouched
    assert_eq!(m.updated_at, 1);
    assert_eq!(store.get_history("doc").len(), 1);
}

#[test]
fn metadata_update_replaces_title_and_bumps_updated_at() {
    let mut store = DocumentStore::new();
    store.create_document("doc", "b", Some("Old"), &tags(&[]), "x", 10).unwrap();
    store.update_metadata("doc", Some("New"), &tags(&["t"]), 20).unwrap();
    let m = store.get_metadata("doc").unwrap();
    assert_eq!(m.title.as_deref(), Some("New"));
    assert_eq!(m.created_at, 10);
    assert_eq!(m.updated_at, 20);
    assert_eq!(m.tags, vec!["t".to_string()]);
}

#[test]
fn all_tags_come_sorted_by_name() {
    let mut store = DocumentStore::new();
    store
        .create_document("doc", "b", None, &tags(&["zebra", "apple", "mango"]), "x", 1)
        .unwrap();
    assert_eq!(
        store.all_tags(),
        vec!["apple".to_string(), "mango".to_string(), "zebra".to_string()]
    );
}

#[test]
fn index_tag_rows_can_be_looked_up_by_name() {
    let mut index = MetadataIndex::new();
    let id = index.upsert_document("doc", Some("T"), 5).unwrap();
    index.set_tags(id, &tags(&["alpha"]), 6).unwrap();
    let tag = index.get_tag_by_name("alpha").unwrap();
    assert_eq!(tag.name, "alpha");
    assert!(index.get_tag_by_name("beta").is_none());
    // deleting the document reclaims the orphaned tag row
    assert!(index.delete_document("doc"));
    assert!(index.get_tag_by_name("alpha").is_none());
}

#[test]
fn repository_history_lists_every_commit_newest_first() {
    let mut engine = HistoryEngine::new();
    engine.commit("a", "1", "first".to_string(), "x", 10);
    engine.commit("b", "2", "second".to_string(), "x", 20);
    assert!(engine.ever_tracked("a"));
    assert!(!engine.ever_tracked("c"));
    let all = engine.repo_history(5);
    assert_eq!(all.len(), 2);
    assert_eq!(all[0].message, "second");
    assert_eq!(all[1].message, "first");
    assert_eq!(engine.repo_history(1).len(), 1);
    assert_eq!(engine.len(), 2);
    let removed = engine.remove("a", "gone".to_string(), "x", 30).unwrap();
    assert_eq!(removed, "0000000000000002");
    assert!(engine.remove("c", "no".to_string(), "x", 40).is_err());
}
