use md_wiki::errors::AppError;
use md_wiki::ids::commit_id_string;
use md_wiki::naming::is_valid_filename;
use md_wiki::store::DocumentStore;

fn tags(names: &[&str]) -> Vec<String> {
    names.iter().map(|s| s.to_string()).collect()
}

#[test]
fn create_then_read_returns_written_content() {
    let mut store = DocumentStore::new();
    store
        .create_document("intro", "# Hello", Some("Intro"), &tags(&["draft"]), "alice", 100)
        .unwrap();
    assert_eq!(store.get_document("intro").unwrap(), "# Hello");
}

#[test]
fn filename_validation() {
    assert!(is_valid_filename("notes"));
    assert!(is_valid_filename("a b c"));
    assert!(!is_valid_filename(""));
    assert!(!is_valid_filename("a/b"));
    assert!(!is_valid_filename("a\\b"));
    assert!(!is_valid_filename("."));
    assert!(!is_valid_filename(".."));
}

#[test]
fn create_rejects_bad_filename() {
    let mut store = DocumentStore::new();
    let r = store.create_document("../etc", "x", None, &tags(&[]), "alice", 1);
    assert_eq!(r, Err(AppError::InvalidInput));
    let r = store.create_document("", "x", None, &tags(&[]), "alice", 1);
    assert_eq!(r, Err(AppError::InvalidInput));
}

#[test]
fn create_conflicts_on_existing_filename() {
    let mut store = DocumentStore::new();
    store.create_document("page", "one", None, &tags(&[]), "alice", 1).unwrap();
    let r = store.create_document("page", "two", None, &tags(&[]), "alice", 2);
    assert_eq!(r, Err(AppError::Conflict));
    // the original content is untouched
    assert_eq!(store.get_document("page").unwrap(), "one");
}

#[test]
fn update_requires_existing_document() {
    let mut store = DocumentStore::new();
    let r = store.update_document("ghost", "body", "alice", 1);
    assert_eq!(r, Err(AppError::NotFound));
}

#[test]
fn delete_requires_existing_document() {
    let mut store = DocumentStore::new();
    let r = store.delete_document("ghost", "alice", 1);
    assert_eq!(r, Err(AppError::NotFound));
}

#[test]
fn history_is_newest_first_and_counts_writes() {
    let mut store = DocumentStore::new();
    store.create_document("doc", "v1", None, &tags(&[]), "alice", 10).unwrap();
    store.update_document("doc", "v2", "bob", 20).unwrap();
    store.update_document("doc", "v3", "carol", 30).unwrap();
    let h = store.get_history("doc");
    assert_eq!(h.len(), 3);
    assert_eq!(h[0].message, "Update doc");
    assert_eq!(h[0].author, "carol");
    assert_eq!(h[0].timestamp, 30);
    assert_eq!(h[1].author, "bob");
    assert_eq!(h[2].message, "Create doc");
    assert!(h[0].timestamp >= h[1].timestamp && h[1].timestamp >= h[2].timestamp);
}

#[test]
fn history_of_other_documents_is_untouched() {
    let mut store = DocumentStore::new();
    store.create_document("a", "1", None, &tags(&[]), "x", 1).unwrap();
    store.create_document("b", "2", None, &tags(&[]), "x", 2).unwrap();
    store.update_document("a", "3", "x", 3).unwrap();
    assert_eq!(store.get_history("a").len(), 2);
    assert_eq!(store.get_history("b").len(), 1);
    assert_eq!(store.get_history("c").len(), 0);
}

#[test]
fn commit_identifiers_are_fixed_width_positions() {
    assert_eq!(commit_id_string(0), "0000000000000000");
    assert_eq!(commit_id_string(1), "0000000000000001");
    assert_eq!(commit_id_string(255), "00000000000000ff");
    let mut store = DocumentStore::new();
    let id = store.create_document("doc", "v1", None, &tags(&[]), "a", 1).unwrap();
    assert_eq!(id, "0000000000000000");
    let id = store.update_document("doc", "v2", "a", 2).unwrap();
    assert_eq!(id, "0000000000000001");
}

#[test]
fn version_at_commit_replays_each_snapshot() {
    let mut store = DocumentStore::new();
    let id1 = store.create_document("doc", "v1", None, &tags(&[]), "a", 1).unwrap();
    let id2 = store.update_document("doc", "v2", "a", 2).unwrap();
    let id3 = store.update_document("doc", "v3", "a", 3).unwrap();
    assert_eq!(store.get_version_at_commit("doc", &id1).unwrap().content, "v1");
    assert_eq!(store.get_version_at_commit("doc", &id2).unwrap().content, "v2");
    let v3 = store.get_version_at_commit("doc", &id3).unwrap();
    assert_eq!(v3.content, "v3");
    assert_eq!(v3.filename, "doc");
    assert_eq!(v3.commit_info.id, id3);
    // the identifiers from the history resolve the same way
    let h = store.get_history("doc");
    assert_eq!(store.get_version_at_commit("doc", &h[2].id).unwrap().content, "v1");
}

#[test]
fn version_resolution_by_prefix_picks_newest_match() {
    let mut store = DocumentStore::new();
    store.create_document("doc", "v1", None, &tags(&[]), "a", 1).unwrap();
    store.update_document("doc", "v2", "a", 2).unwrap();
    // every identifier starts with "0", so the newest matching commit wins
    assert_eq!(store.get_version_at_commit("doc", "0").unwrap().content, "v2");
    // an empty prefix also resolves to the newest commit of the file
    assert_eq!(store.get_version_at_commit("doc", "").unwrap().content, "v2");
    // a prefix that matches no commit is NotFound
    assert_eq!(store.get_version_at_commit("doc", "ff").err(), Some(AppError::NotFound));
    // a file no commit touched is NotFound
    assert_eq!(store.get_version_at_commit("other", "0").err(), Some(AppError::NotFound));
}

#[test]
fn version_at_deletion_commit_is_not_found() {
    let mut store = DocumentStore::new();
    store.create_document("doc", "v1", None, &tags(&[]), "a", 1).unwrap();
    let del = store.delete_document("doc", "a", 2).unwrap();
    assert_eq!(store.get_version_at_commit("doc", &del).err(), Some(AppError::NotFound));
}

#[test]
fn list_documents_reflects_current_files() {
    let mut store = DocumentStore::new();
    store.create_document("a", "1", None, &tags(&[]), "x", 1).unwrap();
    store.create_document("b", "2", None, &tags(&[]), "x", 2).unwrap();
    store.delete_document("a", "x", 3).unwrap();
    let names = store.list_documents();
    assert_eq!(names, vec!["b".to_string()]);
}

#[test]
fn delete_then_recreate_makes_a_fresh_row() {
    let mut store = DocumentStore::new();
    store.create_document("doc", "v1", Some("T"), &tags(&["t"]), "a", 100).unwrap();
    let first = store.get_metadata("doc").unwrap();
    store.delete_document("doc", "a", 200).unwrap();
    assert!(store.get_metadata("doc").is_none());
    store.create_document("doc", "v2", Some("T"), &tags(&["t"]), "a", 300).unwrap();
    let second = store.get_metadata("doc").unwrap();
    assert_eq!(second.created_at, 300);
    assert!(second.created_at > first.created_at);
    assert_ne!(second.id, first.id);
}

#[test]
fn updated_at_never_goes_backwards() {
    let mut store = DocumentStore::new();
    store.create_document("doc", "v1", None, &tags(&[]), "a", 100).unwrap();
    // a clock reading in the past does not rewind the timestamp
    store.update_document("doc", "v2", "a", 50).unwrap();
    let m = store.get_metadata("doc").unwrap();
    assert_eq!(m.created_at, 100);
    assert_eq!(m.updated_at, 100);
    store.update_document("doc", "v3", "a", 170).unwrap();
    assert_eq!(store.get_metadata("doc").unwrap().updated_at, 170);
}

#[test]
fn scenario_full_document_lifecycle() {
    let mut store = DocumentStore::new();
    // create "intro" with content "# Hello" and the tag "draft"
    let first_commit = store
        .create_document("intro", "# Hello", Some("Intro"), &tags(&["draft"]), "alice", 100)
        .unwrap();
    assert_eq!(store.list_by_tag("draft"), vec!["intro".to_string()]);
    // update the content
    store.update_document("intro", "# Hello v2", "alice", 200).unwrap();
    assert_eq!(store.get_history("intro").len(), 2);
    // drop the tag: the tag row disappears with its last association
    store.update_metadata("intro", Some("Intro"), &tags(&[]), 300).unwrap();
    assert_eq!(store.list_by_tag("draft"), Vec::<String>::new());
    assert!(!store.all_tags().contains(&"draft".to_string()));
    // delete the document: metadata is gone, history survives
    store.delete_document("intro", "alice", 400).unwrap();
    assert!(store.get_metadata("intro").is_none());
    assert!(store.get_document("intro").is_none());
    let old = store.get_version_at_commit("intro", &first_commit).unwrap();
    assert_eq!(old.content, "# Hello");
}

#[test]
fn update_metadata_refuses_untracked_documents() {
    let mut store = DocumentStore::new();
    let r = store.update_metadata("ghost", Some("T"), &tags(&["x"]), 1);
    assert_eq!(r, Err(AppError::NotFound));
    // a deleted document was tracked once, so its metadata can be restored
    store.create_document("doc", "v", None, &tags(&[]), "a", 1).unwrap();
    store.delete_document("doc", "a", 2).unwrap();
    assert!(store.update_metadata("doc", Some("T"), &tags(&[]), 3).is_ok());
}
