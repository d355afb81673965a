//! The document store: the one owner of the content store, the history
//! engine and the metadata index. Every logical operation goes through
//! it, and its invariant ties the three together — the content store
//! holds exactly the files that replaying the whole history yields,
//! with the same bodies, and every indexed document was committed at
//! some point.

use vstd::prelude::*;
use crate::content::ContentStore;
use crate::errors::AppError;
use crate::history::{
    change_view, current_of, eff_ts, history_seq, resolve_from, content_at_pos, tracked_in,
    CommitInfo, CommitRecord, HistoryEngine,
};
use crate::ids::commit_id_of;
use crate::ids::lemma_commit_id_distinct;
use crate::index::{
    has_doc, upsert_tags_post, delete_post, doc_idx, is_meta_of, docs_with_tag, DocM, DocumentMeta,
    MetadataIndex, TagM, AssocM,
};
use crate::naming::{is_valid_filename, valid_filename};

verus! {

/// One historical version of a document: its body as of one commit,
/// together with that commit's metadata.
pub struct DocumentVersion {
    pub filename: String,
    pub content: String,
    pub commit_info: CommitInfo,
}

/// The view of an optional borrowed string.
pub open spec fn title_view(t: Option<&str>) -> Option<Seq<char>> {
    match t {
        Some(s) => Some(s@),
        None => None,
    }
}

/// The commit message recorded when a document is created.
pub open spec fn create_message(f: Seq<char>) -> Seq<char> {
    "Create "@ + f
}

/// The commit message recorded when a document is updated.
pub open spec fn update_message(f: Seq<char>) -> Seq<char> {
    "Update "@ + f
}

/// The commit message recorded when a document is deleted.
pub open spec fn delete_message(f: Seq<char>) -> Seq<char> {
    "Delete "@ + f
}

/// The log grew by one commit with the given fields.
pub open spec fn log_extended(
    log0: Seq<CommitRecord>,
    log: Seq<CommitRecord>,
    f: Seq<char>,
    change: Option<Seq<char>>,
    message: Seq<char>,
    author: Seq<char>,
    now: int,
) -> bool {
    &&& log.len() == log0.len() + 1
    &&& log.drop_last() == log0
    &&& log.last().filename@ == f
    &&& change_view(log.last()) == change
    &&& log.last().info.id@ == commit_id_of(log0.len())
    &&& log.last().info.message@ == message
    &&& log.last().info.author@ == author
    &&& log.last().info.timestamp == eff_ts(log0, now as i64)
}

pub struct DocumentStore {
    content: ContentStore,
    history: HistoryEngine,
    index: MetadataIndex,
}

impl DocumentStore {
    /// The current files: filename to body.
    pub closed spec fn content_map(&self) -> Map<Seq<char>, Seq<char>> {
        self.content@
    }

    /// The filenames of the current files, in storage order.
    pub closed spec fn content_names(&self) -> Seq<Seq<char>> {
        self.content.names()
    }

    /// The commit log, oldest first.
    pub closed spec fn log(&self) -> Seq<CommitRecord> {
        self.history.log()
    }

    pub closed spec fn docs_m(&self) -> Seq<DocM> {
        self.index.docs_m()
    }

    pub closed spec fn tags_m(&self) -> Seq<TagM> {
        self.index.tags_m()
    }

    pub closed spec fn assocs_m(&self) -> Seq<AssocM> {
        self.index.assocs_m()
    }

    pub closed spec fn next_id_m(&self) -> int {
        self.index.next_id_m()
    }

    /// Room in the index's key space for `k` more keys.
    pub open spec fn has_room(&self, k: int) -> bool {
        self.next_id_m() + k <= i64::MAX
    }

    /// The content store's own invariant.
    pub closed spec fn content_wf(&self) -> bool {
        self.content.wf()
    }

    /// The store's invariant: each component is well-formed, the
    /// content store holds exactly what replaying the history yields,
    /// and every indexed document was committed at some point.
    pub open spec fn wf(&self) -> bool {
        &&& self.content_wf()
        &&& crate::history::wf_log(self.log())
        &&& crate::index::index_wf(self.docs_m(), self.tags_m(), self.assocs_m(), self.next_id_m())
        &&& forall|f: Seq<char>|
            #[trigger] self.content_map().contains_key(f) ==> current_of(self.log(), f) == Some(
                self.content_map()[f],
            )
        &&& forall|f: Seq<char>|
            (#[trigger] current_of(self.log(), f)) is Some ==> self.content_map().contains_key(f)
        &&& forall|i: int|
            0 <= i < self.docs_m().len() ==> tracked_in(
                self.log(),
                (#[trigger] self.docs_m()[i]).filename,
            )
    }

    pub fn new() -> (s: Self)
        ensures
            s.wf(),
            s.content_map() == Map::<Seq<char>, Seq<char>>::empty(),
            s.log() == Seq::<CommitRecord>::empty(),
            s.docs_m() == Seq::<DocM>::empty(),
            s.tags_m() == Seq::<TagM>::empty(),
            s.assocs_m() == Seq::<AssocM>::empty(),
    {
        DocumentStore {
            content: ContentStore::new(),
            history: HistoryEngine::new(),
            index: MetadataIndex::new(),
        }
    }

    /// Creates a new document: validates the filename, writes the body,
    /// records one commit, and indexes the metadata with its tags.
    /// Returns the new commit's identifier. Fails with `InvalidInput`
    /// exactly on a malformed filename, with `Conflict` exactly when a
    /// document with this name already exists, and with `IndexFailure`
    /// exactly when the index's key space is exhausted; a failed call
    /// changes nothing.
    pub fn create_document(
        &mut self,
        filename: &str,
        content: &str,
        title: Option<&str>,
        tags: &Vec<String>,
        author: &str,
        now: i64,
    ) -> (r: Result<String, AppError>)
        requires
            old(self).wf(),
        ensures
            final(self).wf(),
            r == Err::<String, AppError>(AppError::InvalidInput) <==> !valid_filename(filename@),
            r == Err::<String, AppError>(AppError::Conflict) <==> valid_filename(filename@) && old(self).content_map().contains_key(filename@),
            r == Err::<String, AppError>(AppError::IndexFailure) <==> valid_filename(filename@)
                && !old(self).content_map().contains_key(filename@) && !old(self).has_room(
                1 + tags@.len() as int,
            ),
            r is Err ==> r == Err::<String, AppError>(AppError::InvalidInput) || r == Err::<
                String,
                AppError,
            >(AppError::Conflict) || r == Err::<String, AppError>(AppError::IndexFailure),
            r is Err ==> final(self).content_map() == old(self).content_map() && final(self).log()
                == old(self).log() && final(self).docs_m() == old(self).docs_m() && final(self).tags_m() == old(self).tags_m() && final(self).assocs_m() == old(self).assocs_m()
                && final(self).next_id_m() == old(self).next_id_m(),
            r matches Ok(id) ==> {
                &&& final(self).content_map() == old(self).content_map().insert(
                    filename@,
                    content@,
                )
                &&& log_extended(
                    old(self).log(),
                    final(self).log(),
                    filename@,
                    Some(content@),
                    create_message(filename@),
                    author@,
                    now as int,
                )
                &&& exists|did: int|
                    #[trigger] upsert_tags_post(
                        old(self).docs_m(),
                        old(self).tags_m(),
                        old(self).assocs_m(),
                        old(self).next_id_m(),
                        final(self).docs_m(),
                        final(self).tags_m(),
                        final(self).assocs_m(),
                        final(self).next_id_m(),
                        filename@,
                        title_view(title),
                        tags@,
                        now as int,
                        did,
                    )
                &&& id@ == commit_id_of(old(self).log().len())
            },
    {
        if !is_valid_filename(filename) {
            return Err(AppError::InvalidInput);
        }
        if self.content.has(filename) {
            return Err(AppError::Conflict);
        }
        if !self.index.room_for_two(1, tags.len()) {
            return Err(AppError::IndexFailure);
        }
        let ghost log0 = self.log();
        self.content.write(filename, String::from_str(content));
        let message = String::from_str("Create ").concat(filename);
        let id = self.history.commit(filename, content, message, author, now);
        let did = match self.index.upsert_with_tags(filename, title, tags, now) {
            Ok(did) => did,
            Err(_) => {
                proof {
                    assert(false);
                }
                return Err(AppError::IndexFailure);
            },
        };
        proof {
            assert(upsert_tags_post(
                old(self).docs_m(),
                old(self).tags_m(),
                old(self).assocs_m(),
                old(self).next_id_m(),
                self.docs_m(),
                self.tags_m(),
                self.assocs_m(),
                self.next_id_m(),
                filename@,
                title_view(title),
                tags@,
                now as int,
                did as int,
            ));
            self.lemma_sync_after_write(old(self), log0, filename@, content@);
        }
        Ok(id)
    }

    /// Updates an existing document's body: writes it, records one
    /// commit, and advances the document's `updated_at` (indexing a
    /// bare row if the document had none). Returns the new commit's
    /// identifier. Fails with `InvalidInput` exactly on a malformed
    /// filename, with `NotFound` exactly when no such document exists,
    /// and with `IndexFailure` exactly when a row would have to be
    /// created and the key space is exhausted; a failed call changes
    /// nothing.
    pub fn update_document(&mut self, filename: &str, content: &str, author: &str, now: i64) -> (r:
        Result<String, AppError>)
        requires
            old(self).wf(),
        ensures
            final(self).wf(),
            r == Err::<String, AppError>(AppError::InvalidInput) <==> !valid_filename(filename@),
            r == Err::<String, AppError>(AppError::NotFound) <==> valid_filename(filename@) && !old(self).content_map().contains_key(filename@),
            r == Err::<String, AppError>(AppError::IndexFailure) <==> valid_filename(filename@)
                && old(self).content_map().contains_key(filename@) && !has_doc(
                old(self).docs_m(),
                filename@,
            ) && !old(self).has_room(1),
            r is Err ==> r == Err::<String, AppError>(AppError::InvalidInput) || r == Err::<
                String,
                AppError,
            >(AppError::NotFound) || r == Err::<String, AppError>(AppError::IndexFailure),
            r is Err ==> final(self).content_map() == old(self).content_map() && final(self).log()
                == old(self).log() && final(self).docs_m() == old(self).docs_m() && final(self).tags_m() == old(self).tags_m() && final(self).assocs_m() == old(self).assocs_m()
                && final(self).next_id_m() == old(self).next_id_m(),
            r matches Ok(id) ==> {
                &&& final(self).content_map() == old(self).content_map().insert(
                    filename@,
                    content@,
                )
                &&& log_extended(
                    old(self).log(),
                    final(self).log(),
                    filename@,
                    Some(content@),
                    update_message(filename@),
                    author@,
                    now as int,
                )
                &&& final(self).tags_m() == old(self).tags_m()
                &&& final(self).assocs_m() == old(self).assocs_m()
                &&& has_doc(old(self).docs_m(), filename@) ==> {
                    let i = doc_idx(old(self).docs_m(), filename@);
                    let d = old(self).docs_m()[i];
                    final(self).docs_m() == old(self).docs_m().update(
                        i,
                        DocM {
                            updated_at: if now > d.updated_at {
                                now as int
                            } else {
                                d.updated_at
                            },
                            ..d
                        },
                    )
                }
                &&& !has_doc(old(self).docs_m(), filename@) ==> final(self).docs_m() == old(self).docs_m().push(
                    DocM {
                        id: old(self).next_id_m(),
                        filename: filename@,
                        title: None,
                        created_at: now as int,
                        updated_at: now as int,
                        view_count: 0,
                    },
                )
                &&& id@ == commit_id_of(old(self).log().len())
            },
    {
        if !is_valid_filename(filename) {
            return Err(AppError::InvalidInput);
        }
        if !self.content.has(filename) {
            return Err(AppError::NotFound);
        }
        if !self.index.has_document(filename) && !self.index.room_for_two(1, 0) {
            return Err(AppError::IndexFailure);
        }
        let ghost log0 = self.log();
        self.content.write(filename, String::from_str(content));
        let message = String::from_str("Update ").concat(filename);
        let id = self.history.commit(filename, content, message, author, now);
        match self.index.touch_document(filename, now) {
            Ok(_) => {},
            Err(_) => {
                proof {
                    assert(false);
                }
                return Err(AppError::IndexFailure);
            },
        };
        proof {
            self.lemma_sync_after_write(old(self), log0, filename@, content@);
        }
        Ok(id)
    }

    /// Deletes a document: removes the body, records one deletion
    /// commit — the history itself survives — and drops the metadata
    /// row with its tag associations. Returns the new commit's
    /// identifier. Fails with `NotFound` exactly when no such document
    /// exists; a failed call changes nothing.
    pub fn delete_document(&mut self, filename: &str, author: &str, now: i64) -> (r: Result<
        String,
        AppError,
    >)
        requires
            old(self).wf(),
        ensures
            final(self).wf(),
            r is Err <==> !old(self).content_map().contains_key(filename@),
            r matches Err(e) ==> e == AppError::NotFound && final(self).content_map() == old(self).content_map() && final(self).log() == old(self).log() && final(self).docs_m() == old(self).docs_m() && final(self).tags_m() == old(self).tags_m() && final(self).assocs_m()
                == old(self).assocs_m(),
            r matches Ok(id) ==> {
                &&& final(self).content_map() == old(self).content_map().remove(filename@)
                &&& log_extended(
                    old(self).log(),
                    final(self).log(),
                    filename@,
                    None,
                    delete_message(filename@),
                    author@,
                    now as int,
                )
                &&& has_doc(old(self).docs_m(), filename@) ==> delete_post(
                    old(self).docs_m(),
                    old(self).tags_m(),
                    old(self).assocs_m(),
                    final(self).docs_m(),
                    final(self).tags_m(),
                    final(self).assocs_m(),
                    filename@,
                )
                &&& !has_doc(old(self).docs_m(), filename@) ==> final(self).docs_m() == old(self).docs_m() && final(self).tags_m() == old(self).tags_m() && final(self).assocs_m()
                    == old(self).assocs_m()
                &&& id@ == commit_id_of(old(self).log().len())
            },
    {
        let ghost log0 = self.log();
        let existed = self.content.delete(filename);
        if !existed {
            proof {
                assert(self.content_map() =~= old(self).content_map());
            }
            return Err(AppError::NotFound);
        }
        proof {
            assert(current_of(log0, filename@) == Some(old(self).content_map()[filename@]));
            let j = lemma_current_some_tracked(log0, filename@);
        }
        let message = String::from_str("Delete ").concat(filename);
        let id = match self.history.remove(filename, message, author, now) {
            Ok(id) => id,
            Err(_) => {
                proof {
                    assert(false);
                }
                return Err(AppError::NotFound);
            },
        };
        self.index.delete_document(filename);
        proof {
            self.lemma_sync_after_delete(old(self), log0, filename@);
        }
        Ok(id)
    }

    /// The current body of the document named `filename`.
    pub fn get_document(&self, filename: &str) -> (r: Option<String>)
        requires
            self.wf(),
        ensures
            match r {
                Some(b) => self.content_map().contains_key(filename@) && b@ == self.content_map()[
                    filename@],
                None => !self.content_map().contains_key(filename@),
            },
    {
        self.content.read(filename)
    }

    /// The commits that touched the document, newest first. A pure
    /// read: it takes the store by shared reference.
    pub fn get_history(&self, filename: &str) -> (r: Vec<CommitInfo>)
        ensures
            r@ == history_seq(self.log(), filename@),
    {
        self.history.history_of(filename)
    }

    /// The listed names are exactly the content map's keys, without
    /// repeats.
    pub proof fn lemma_list_names(&self)
        requires
            self.wf(),
        ensures
            self.content_names().no_duplicates(),
            forall|i: int|
                0 <= i < self.content_names().len() ==> self.content_map().contains_key(
                    #[trigger] self.content_names()[i],
                ),
            forall|f: Seq<char>|
                self.content_map().contains_key(f) ==> exists|i: int|
                    0 <= i < self.content_names().len() && self.content_names()[i] == f,
    {
        self.content.lemma_names_characterize();
        assert forall|f: Seq<char>| self.content_map().contains_key(f) implies exists|i: int|
            0 <= i < self.content_names().len() && self.content_names()[i] == f by {
            let i = choose|i: int|
                0 <= i < self.content.names().len() && self.content.names()[i] == f;
            assert(0 <= i < self.content_names().len() && self.content_names()[i] == f);
        }
    }

    /// The filenames of all current documents.
    pub fn list_documents(&self) -> (r: Vec<String>)
        requires
            self.wf(),
        ensures
            r@.map(|i: int, s: String| s@) == self.content_names(),
    {
        self.content.list()
    }

    /// The document's body as of the newest commit in its history whose
    /// identifier starts with `commit_id` — `NotFound` when no such
    /// commit exists or the commit deleted the document.
    pub fn get_version_at_commit(&self, filename: &str, commit_id: &str) -> (r: Result<
        DocumentVersion,
        AppError,
    >)
        requires
            self.wf(),
        ensures
            match r {
                Ok(v) => exists|j: int|
                    {
                        &&& resolve_from(self.log(), filename@, commit_id@, self.log().len() - 1)
                            == Some(j)
                        &&& 0 <= j < self.log().len()
                        &&& v.commit_info == self.log()[j].info
                        &&& content_at_pos(self.log(), filename@, j) == Some(v.content@)
                        &&& v.filename@ == filename@
                    },
                Err(e) => e == AppError::NotFound && (match resolve_from(
                    self.log(),
                    filename@,
                    commit_id@,
                    self.log().len() - 1,
                ) {
                    Some(j) => content_at_pos(self.log(), filename@, j) is None,
                    None => true,
                }),
            },
    {
        let info = match self.history.resolve_prefix(filename, commit_id) {
            Some(info) => info,
            None => {
                return Err(AppError::NotFound);
            },
        };
        let ghost j = choose|j: int|
            resolve_from(self.log(), filename@, commit_id@, self.log().len() - 1) == Some(j) && 0
                <= j < self.log().len() && info == self.log()[j].info;
        let n = self.history.len();
        proof {
            lemma_resolve_in_range(self.log(), filename@, commit_id@, self.log().len() - 1);
            assert(self.log()[j].info.id@ == commit_id_of(j as nat));
        }
        match self.history.content_at(filename, info.id.as_str()) {
            Ok(b) => {
                proof {
                    let j2 = choose|j2: int|
                        0 <= j2 < self.log().len() && commit_id_of(j2 as nat) == info.id@
                            && content_at_pos(self.log(), filename@, j2) == Some(b@);
                    if j2 != j {
                        lemma_commit_id_distinct(j2 as nat, j as nat);
                    }
                }
                Ok(
                    DocumentVersion {
                        filename: String::from_str(filename),
                        content: b,
                        commit_info: info,
                    },
                )
            },
            Err(_) => {
                proof {
                    assert(content_at_pos(self.log(), filename@, j) is None);
                }
                Err(AppError::NotFound)
            },
        }
    }

    /// The indexed metadata of the document, with its tag names.
    pub fn get_metadata(&self, filename: &str) -> (r: Option<DocumentMeta>)
        requires
            self.wf(),
        ensures
            match r {
                Some(m) => has_doc(self.docs_m(), filename@) && is_meta_of(
                    m,
                    self.docs_m()[doc_idx(self.docs_m(), filename@)],
                    self.tags_m(),
                    self.assocs_m(),
                ),
                None => !has_doc(self.docs_m(), filename@),
            },
    {
        self.index.get_document(filename)
    }

    /// Replaces the document's indexed title and tag set. Refuses, with
    /// `NotFound`, a document that no commit ever tracked, so that the
    /// index never references an uncommitted document; fails with
    /// `IndexFailure` exactly when the key space is exhausted.
    pub fn update_metadata(
        &mut self,
        filename: &str,
        title: Option<&str>,
        tags: &Vec<String>,
        now: i64,
    ) -> (r: Result<i64, AppError>)
        requires
            old(self).wf(),
        ensures
            final(self).wf(),
            final(self).content_map() == old(self).content_map(),
            final(self).log() == old(self).log(),
            r == Err::<i64, AppError>(AppError::NotFound) <==> !tracked_in(
                old(self).log(),
                filename@,
            ),
            r == Err::<i64, AppError>(AppError::IndexFailure) <==> tracked_in(
                old(self).log(),
                filename@,
            ) && !old(self).has_room(1 + tags@.len() as int),
            r is Err ==> r == Err::<i64, AppError>(AppError::NotFound) || r == Err::<i64, AppError>(
                AppError::IndexFailure,
            ),
            r is Err ==> final(self).docs_m() == old(self).docs_m() && final(self).tags_m() == old(self).tags_m() && final(self).assocs_m() == old(self).assocs_m() && final(self).next_id_m()
                == old(self).next_id_m(),
            r matches Ok(did) ==> upsert_tags_post(
                old(self).docs_m(),
                old(self).tags_m(),
                old(self).assocs_m(),
                old(self).next_id_m(),
                final(self).docs_m(),
                final(self).tags_m(),
                final(self).assocs_m(),
                final(self).next_id_m(),
                filename@,
                title_view(title),
                tags@,
                now as int,
                did as int,
            ),
    {
        if !self.history.ever_tracked(filename) {
            return Err(AppError::NotFound);
        }
        match self.index.upsert_with_tags(filename, title, tags, now) {
            Ok(did) => {
                proof {
                    self.lemma_index_only_change(old(self), filename@);
                }
                Ok(did)
            },
            Err(e) => {
                proof {
                    self.lemma_index_only_change(old(self), filename@);
                }
                Err(e)
            },
        }
    }

    /// The filenames of the documents carrying the tag, in index order.
    pub fn list_by_tag(&self, tag_name: &str) -> (r: Vec<String>)
        requires
            self.wf(),
        ensures
            r@.map(|k: int, s: String| s@) == docs_with_tag(
                self.docs_m(),
                self.tags_m(),
                self.assocs_m(),
                tag_name@,
            ),
    {
        self.index.list_by_tag(tag_name)
    }

    /// Every tag name in use, sorted ascending, each exactly once.
    pub fn all_tags(&self) -> (r: Vec<String>)
        requires
            self.wf(),
        ensures
            r@.len() == self.tags_m().len(),
            forall|k: int|
                0 <= k < r@.len() ==> crate::index::has_tag(self.tags_m(), (#[trigger] r@[k])@),
            forall|t: int|
                0 <= t < self.tags_m().len() ==> crate::index::lists_name(
                    r@,
                    (#[trigger] self.tags_m()[t]).name,
                ),
            forall|k1: int, k2: int|
                0 <= k1 < k2 < r@.len() ==> crate::text::lex_le(
                    (#[trigger] r@[k1])@,
                    (#[trigger] r@[k2])@,
                ),
    {
        self.index.all_tags()
    }

    /// The most recently updated documents, newest first, at most
    /// `limit` of them.
    pub fn list_recent(&self, limit: usize) -> (r: Vec<DocumentMeta>)
        requires
            self.wf(),
        ensures
            crate::index::recent_post(
                self.docs_m(),
                self.tags_m(),
                self.assocs_m(),
                limit as int,
                r@,
            ),
    {
        self.index.list_recent(limit)
    }

    /// Best-effort read counter: advances `view_count` of the document's
    /// row, touching nothing else; reports whether a row existed.
    pub fn increment_view_count(&mut self, filename: &str) -> (r: bool)
        requires
            old(self).wf(),
        ensures
            final(self).wf(),
            final(self).content_map() == old(self).content_map(),
            final(self).log() == old(self).log(),
            final(self).tags_m() == old(self).tags_m(),
            final(self).assocs_m() == old(self).assocs_m(),
            r == has_doc(old(self).docs_m(), filename@),
            forall|i: int|
                0 <= i < final(self).docs_m().len() ==> {
                    let d0 = old(self).docs_m()[i];
                    let d = #[trigger] final(self).docs_m()[i];
                    d.id == d0.id && d.filename == d0.filename && d.title == d0.title
                        && d.created_at == d0.created_at && d.updated_at == d0.updated_at
                },
            final(self).docs_m().len() == old(self).docs_m().len(),
    {
        let r = self.index.increment_view_count(filename);
        proof {
            self.lemma_index_only_change(old(self), filename@);
        }
        r
    }

    /// After a mutation that only touched the index and kept every
    /// row's filename, the cross-store invariant still holds.
    proof fn lemma_index_only_change(&self, pre: &Self, f: Seq<char>)
        requires
            pre.wf(),
            self.content_wf(),
            crate::history::wf_log(self.log()),
            crate::index::index_wf(self.docs_m(), self.tags_m(), self.assocs_m(), self.next_id_m()),
            self.content_map() == pre.content_map(),
            self.log() == pre.log(),
            self.docs_m().len() <= pre.docs_m().len() + 1,
            self.docs_m().len() > pre.docs_m().len() ==> tracked_in(self.log(), f),
            forall|i: int|
                0 <= i < self.docs_m().len() && i < pre.docs_m().len() ==> (#[trigger] self.docs_m()[
                i]).filename == pre.docs_m()[i].filename,
            forall|i: int|
                pre.docs_m().len() <= i < self.docs_m().len() ==> (#[trigger] self.docs_m()[
                i]).filename == f,
        ensures
            self.wf(),
    {
        assert forall|i: int| 0 <= i < self.docs_m().len() implies tracked_in(
            self.log(),
            (#[trigger] self.docs_m()[i]).filename,
        ) by {
            if i < pre.docs_m().len() {
                assert(tracked_in(pre.log(), pre.docs_m()[i].filename));
            } else {
                assert(self.docs_m()[i].filename == f);
            }
        }
    }

    /// After writing a body and committing it, the content store again
    /// mirrors the replayed history.
    proof fn lemma_sync_after_write(
        &self,
        pre: &Self,
        log0: Seq<CommitRecord>,
        f: Seq<char>,
        body: Seq<char>,
    )
        requires
            pre.wf(),
            log0 == pre.log(),
            self.content_wf(),
            crate::history::wf_log(self.log()),
            crate::index::index_wf(self.docs_m(), self.tags_m(), self.assocs_m(), self.next_id_m()),
            self.content_map() == pre.content_map().insert(f, body),
            self.log().len() == log0.len() + 1,
            self.log().drop_last() == log0,
            self.log().last().filename@ == f,
            change_view(self.log().last()) == Some(body),
            self.docs_m().len() >= pre.docs_m().len(),
            forall|i: int|
                0 <= i < pre.docs_m().len() ==> (#[trigger] self.docs_m()[i]).filename
                    == pre.docs_m()[i].filename,
            forall|i: int|
                pre.docs_m().len() <= i < self.docs_m().len() ==> (#[trigger] self.docs_m()[
                i]).filename == f,
        ensures
            self.wf(),
    {
        let log = self.log();
        let r = log.last();
        assert(log =~= log0.push(r));
        assert forall|g: Seq<char>| #[trigger] self.content_map().contains_key(g) implies
            current_of(log, g) == Some(self.content_map()[g]) by {
            crate::history::lemma_current_push(log0, r, g);
            if g != f {
                assert(pre.content_map().contains_key(g));
            }
        }
        assert forall|g: Seq<char>| (#[trigger] current_of(log, g)) is Some implies
            self.content_map().contains_key(g) by {
            crate::history::lemma_current_push(log0, r, g);
            if g != f {
                assert(current_of(log0, g) is Some);
                assert(pre.content_map().contains_key(g));
            }
        }
        assert forall|i: int| 0 <= i < self.docs_m().len() implies tracked_in(
            log,
            (#[trigger] self.docs_m()[i]).filename,
        ) by {
            if i < pre.docs_m().len() {
                assert(tracked_in(log0, pre.docs_m()[i].filename));
                let w = choose|w: int|
                    0 <= w < log0.len() && (#[trigger] log0[w]).filename@ == pre.docs_m()[i].filename;
                assert(log[w].filename@ == self.docs_m()[i].filename);
            } else {
                assert(log[log.len() - 1].filename@ == f);
            }
        }
    }

    /// After removing a body and committing the deletion, the content
    /// store again mirrors the replayed history.
    proof fn lemma_sync_after_delete(&self, pre: &Self, log0: Seq<CommitRecord>, f: Seq<char>)
        requires
            pre.wf(),
            log0 == pre.log(),
            self.content_wf(),
            crate::history::wf_log(self.log()),
            crate::index::index_wf(self.docs_m(), self.tags_m(), self.assocs_m(), self.next_id_m()),
            self.content_map() == pre.content_map().remove(f),
            self.log().len() == log0.len() + 1,
            self.log().drop_last() == log0,
            self.log().last().filename@ == f,
            change_view(self.log().last()) == None::<Seq<char>>,
            self.docs_m().len() <= pre.docs_m().len(),
            forall|i: int|
                0 <= i < self.docs_m().len() ==> exists|i0: int|
                    0 <= i0 < pre.docs_m().len() && (#[trigger] self.docs_m()[i]).filename
                        == pre.docs_m()[i0].filename,
        ensures
            self.wf(),
    {
        let log = self.log();
        let r = log.last();
        assert(log =~= log0.push(r));
        assert forall|g: Seq<char>| #[trigger] self.content_map().contains_key(g) implies
            current_of(log, g) == Some(self.content_map()[g]) by {
            crate::history::lemma_current_push(log0, r, g);
            assert(g != f);
            assert(pre.content_map().contains_key(g));
        }
        assert forall|g: Seq<char>| (#[trigger] current_of(log, g)) is Some implies
            self.content_map().contains_key(g) by {
            crate::history::lemma_current_push(log0, r, g);
            if g != f {
                assert(current_of(log0, g) is Some);
                assert(pre.content_map().contains_key(g));
            }
        }
        assert forall|i: int| 0 <= i < self.docs_m().len() implies tracked_in(
            log,
            (#[trigger] self.docs_m()[i]).filename,
        ) by {
            let i0 = choose|i0: int|
                0 <= i0 < pre.docs_m().len() && (#[trigger] self.docs_m()[i]).filename
                    == pre.docs_m()[i0].filename;
            assert(tracked_in(log0, pre.docs_m()[i0].filename));
            let w = choose|w: int|
                0 <= w < log0.len() && (#[trigger] log0[w]).filename@ == pre.docs_m()[i0].filename;
            assert(log[w].filename@ == self.docs_m()[i].filename);
        }
    }
}

/// A file whose replayed current body exists was touched by some
/// commit.
proof fn lemma_current_some_tracked(log: Seq<CommitRecord>, f: Seq<char>) -> (j: int)
    requires
        current_of(log, f) is Some,
    ensures
        0 <= j < log.len() && log[j].filename@ == f,
        tracked_in(log, f),
    decreases log.len(),
{
    lemma_content_at_some_touches(log, f, log.len() - 1)
}

/// A position whose replay yields a body is at or after a commit that
/// touched the file.
proof fn lemma_content_at_some_touches(log: Seq<CommitRecord>, f: Seq<char>, p: int) -> (j: int)
    requires
        content_at_pos(log, f, p) is Some,
    ensures
        0 <= j <= p < log.len() && log[j].filename@ == f,
        tracked_in(log, f),
    decreases p + 1,
{
    if log[p].filename@ == f {
        p
    } else {
        lemma_content_at_some_touches(log, f, p - 1)
    }
}

/// A resolved prefix points inside the log.
proof fn lemma_resolve_in_range(log: Seq<CommitRecord>, f: Seq<char>, p: Seq<char>, j: int)
    ensures
        match resolve_from(log, f, p, j) {
            Some(w) => 0 <= w < log.len() && w <= j && log[w].filename@ == f,
            None => true,
        },
    decreases j + 1,
{
    if !(j < 0 || j >= log.len()) && !(log[j].filename@ == f && crate::text::is_prefix_of(
        p,
        log[j].info.id@,
    )) {
        lemma_resolve_in_range(log, f, p, j - 1);
    }
}

} // verus!
