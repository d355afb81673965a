//! The metadata index: a relational view of the documents — one row per
//! document, a table of tags, and a many-to-many association between
//! them. Tags are created on first use and reclaimed as soon as no
//! document references them.

use vstd::prelude::*;
use crate::errors::AppError;
use crate::seq_facts::{lemma_distinct_covers, lemma_filter_all, lemma_filter_no_dup, lemma_filter_none, lemma_filter_push, lemma_filter_sub, lemma_some_index_free};
use crate::text::{lemma_lex_refl, lemma_lex_total, lemma_lex_trans, lex_le, str_eq, str_le};

verus! {

/// A document's metadata, as callers see it: the row joined with the
/// names of its tags.
pub struct DocumentMeta {
    pub id: i64,
    pub filename: String,
    pub title: Option<String>,
    pub created_at: i64,
    pub updated_at: i64,
    pub view_count: i64,
    pub tags: Vec<String>,
}

/// A tag row.
pub struct Tag {
    pub id: i64,
    pub name: String,
}

struct DocRow {
    id: i64,
    filename: String,
    title: Option<String>,
    created_at: i64,
    updated_at: i64,
    view_count: i64,
}

struct Assoc {
    doc_id: i64,
    tag_id: i64,
}

/// The mathematical image of a document row.
pub struct DocM {
    pub id: int,
    pub filename: Seq<char>,
    pub title: Option<Seq<char>>,
    pub created_at: int,
    pub updated_at: int,
    pub view_count: int,
}

/// The mathematical image of a tag row.
pub struct TagM {
    pub id: int,
    pub name: Seq<char>,
}

pub open spec fn opt_view(t: Option<String>) -> Option<Seq<char>> {
    match t {
        Some(s) => Some(s@),
        None => None,
    }
}

spec fn doc_m(d: DocRow) -> DocM {
    DocM {
        id: d.id as int,
        filename: d.filename@,
        title: opt_view(d.title),
        created_at: d.created_at as int,
        updated_at: d.updated_at as int,
        view_count: d.view_count as int,
    }
}

/// The mathematical image of a tag row value.
pub open spec fn tag_m(t: Tag) -> TagM {
    TagM { id: t.id as int, name: t.name@ }
}

/// An association, with the document first and the tag second.
pub type AssocM = (int, int);

spec fn assoc_m(a: Assoc) -> AssocM {
    (a.doc_id as int, a.tag_id as int)
}

/// There is a document row named `f`.
pub open spec fn has_doc(docs: Seq<DocM>, f: Seq<char>) -> bool {
    exists|i: int| 0 <= i < docs.len() && (#[trigger] docs[i]).filename == f
}

/// The position of the document row named `f`.
pub open spec fn doc_idx(docs: Seq<DocM>, f: Seq<char>) -> int {
    choose|i: int| 0 <= i < docs.len() && (#[trigger] docs[i]).filename == f
}

/// There is a document row whose id is `id`.
pub open spec fn has_doc_id(docs: Seq<DocM>, id: int) -> bool {
    exists|i: int| 0 <= i < docs.len() && (#[trigger] docs[i]).id == id
}

/// The position of the document row whose id is `id`.
pub open spec fn doc_idx_by_id(docs: Seq<DocM>, id: int) -> int {
    choose|i: int| 0 <= i < docs.len() && (#[trigger] docs[i]).id == id
}

/// There is a tag row whose id is `id`.
pub open spec fn has_tag_id(tags: Seq<TagM>, id: int) -> bool {
    exists|i: int| 0 <= i < tags.len() && (#[trigger] tags[i]).id == id
}

/// Some association references the tag id `id`.
pub open spec fn tag_referenced(assocs: Seq<AssocM>, id: int) -> bool {
    exists|k: int| 0 <= k < assocs.len() && (#[trigger] assocs[k]).1 == id
}

/// The views of a sequence of strings.
pub open spec fn strs_view(s: Seq<String>) -> Seq<Seq<char>> {
    s.map(|i: int, x: String| x@)
}

/// Among the first `m` names there is one borne by the tag with key
/// `id`.
pub open spec fn tag_name_among(tags: Seq<TagM>, id: int, names: Seq<String>, m: int) -> bool {
    exists|t: int, q: int|
        0 <= t < tags.len() && 0 <= q < m && (#[trigger] tags[t]).id == id && (
        #[trigger] names[q])@ == tags[t].name
}

/// Document `did` carries a tag named `n`.
pub open spec fn doc_has_tag_named(
    tags: Seq<TagM>,
    assocs: Seq<AssocM>,
    did: int,
    n: Seq<char>,
) -> bool {
    exists|t: int|
        0 <= t < tags.len() && (#[trigger] tags[t]).name == n && assocs.contains((did, tags[t].id))
}

/// Some string in `r` reads `n`.
pub open spec fn lists_name(r: Seq<String>, n: Seq<char>) -> bool {
    exists|k: int| 0 <= k < r.len() && (#[trigger] r[k])@ == n
}

/// There is a tag row named `n`.
pub open spec fn has_tag(tags: Seq<TagM>, n: Seq<char>) -> bool {
    exists|i: int| 0 <= i < tags.len() && (#[trigger] tags[i]).name == n
}

/// The position of the tag row named `n`.
pub open spec fn tag_idx(tags: Seq<TagM>, n: Seq<char>) -> int {
    choose|i: int| 0 <= i < tags.len() && (#[trigger] tags[i]).name == n
}

/// The names, in tag-table order, of the tags associated with document
/// `doc_id`.
pub open spec fn tag_names_of(tags: Seq<TagM>, assocs: Seq<AssocM>, doc_id: int) -> Seq<Seq<char>> {
    tags.filter(|t: TagM| assocs.contains((doc_id, t.id))).map(|i: int, t: TagM| t.name)
}

/// The filenames, in document-table order, of the documents associated
/// with the tag named `n`.
pub open spec fn docs_with_tag(
    docs: Seq<DocM>,
    tags: Seq<TagM>,
    assocs: Seq<AssocM>,
    n: Seq<char>,
) -> Seq<Seq<char>> {
    if has_tag(tags, n) {
        let t = tags[tag_idx(tags, n)];
        docs.filter(|d: DocM| assocs.contains((d.id, t.id))).map(|i: int, d: DocM| d.filename)
    } else {
        Seq::empty()
    }
}

/// What a successful document deletion guarantees: the row is gone,
/// its associations are gone while every other association survives,
/// and the tag table keeps exactly the tags that other documents still
/// reference.
pub open spec fn delete_post(
    docs0: Seq<DocM>,
    tags0: Seq<TagM>,
    assocs0: Seq<AssocM>,
    docs: Seq<DocM>,
    tags: Seq<TagM>,
    assocs: Seq<AssocM>,
    f: Seq<char>,
) -> bool {
    let i = doc_idx(docs0, f);
    let d = docs0[i];
    &&& docs == docs0.remove(i)
    &&& forall|k: int|
        0 <= k < assocs.len() ==> (#[trigger] assocs[k]).0 != d.id && assocs0.contains(assocs[k])
    &&& forall|k: int|
        0 <= k < assocs0.len() && (#[trigger] assocs0[k]).0 != d.id ==> assocs.contains(assocs0[k])
    &&& forall|p: int|
        0 <= p < tags.len() ==> tags0.contains(#[trigger] tags[p]) && tag_referenced(
            assocs,
            tags[p].id,
        )
    &&& forall|p: int|
        0 <= p < tags0.len() && tag_referenced(assocs, (#[trigger] tags0[p]).id) ==> tags.contains(
            tags0[p],
        )
}

/// Relational well-formedness: unique keys, referential integrity, and
/// the orphan-tag invariant — every tag row is referenced by at least
/// one association.
pub open spec fn index_wf(
    docs: Seq<DocM>,
    tags: Seq<TagM>,
    assocs: Seq<AssocM>,
    next_id: int,
) -> bool {
    &&& forall|i: int, j: int|
        0 <= i < j < docs.len() ==> (#[trigger] docs[i]).id != (#[trigger] docs[j]).id
    &&& forall|i: int, j: int|
        0 <= i < j < docs.len() ==> (#[trigger] docs[i]).filename != (#[trigger] docs[j]).filename
    &&& forall|i: int, j: int|
        0 <= i < j < tags.len() ==> (#[trigger] tags[i]).id != (#[trigger] tags[j]).id
    &&& forall|i: int, j: int|
        0 <= i < j < tags.len() ==> (#[trigger] tags[i]).name != (#[trigger] tags[j]).name
    &&& assocs.no_duplicates()
    &&& forall|k: int|
        0 <= k < assocs.len() ==> has_doc_id(docs, (#[trigger] assocs[k]).0)
    &&& forall|k: int|
        0 <= k < assocs.len() ==> has_tag_id(tags, (#[trigger] assocs[k]).1)
    &&& forall|i: int|
        0 <= i < tags.len() ==> tag_referenced(assocs, (#[trigger] tags[i]).id)
    &&& forall|i: int| 0 <= i < docs.len() ==> 0 <= (#[trigger] docs[i]).id < next_id
    &&& forall|i: int| 0 <= i < tags.len() ==> 0 <= (#[trigger] tags[i]).id < next_id
    &&& 0 < next_id
}

/// The relational index over document metadata and tags.
pub struct MetadataIndex {
    docs: Vec<DocRow>,
    tags: Vec<Tag>,
    assocs: Vec<Assoc>,
    next_id: i64,
}

impl MetadataIndex {
    /// The document table.
    pub closed spec fn docs_m(&self) -> Seq<DocM> {
        self.docs@.map(|i: int, d: DocRow| doc_m(d))
    }

    /// The tag table.
    pub closed spec fn tags_m(&self) -> Seq<TagM> {
        self.tags@.map(|i: int, t: Tag| tag_m(t))
    }

    /// The association table.
    pub closed spec fn assocs_m(&self) -> Seq<AssocM> {
        self.assocs@.map(|i: int, a: Assoc| assoc_m(a))
    }

    /// The next surrogate key to hand out.
    pub closed spec fn next_id_m(&self) -> int {
        self.next_id as int
    }

    pub open spec fn wf(&self) -> bool {
        index_wf(self.docs_m(), self.tags_m(), self.assocs_m(), self.next_id_m())
    }

    /// Room to allocate `k` more surrogate keys.
    pub open spec fn has_room(&self, k: int) -> bool {
        self.next_id_m() + k <= i64::MAX
    }

    pub fn new() -> (s: Self)
        ensures
            s.wf(),
            s.docs_m() == Seq::<DocM>::empty(),
            s.tags_m() == Seq::<TagM>::empty(),
            s.assocs_m() == Seq::<AssocM>::empty(),
            s.next_id_m() == 1,
    {
        let s = MetadataIndex { docs: Vec::new(), tags: Vec::new(), assocs: Vec::new(), next_id: 1 };
        proof {
            assert(s.docs_m() =~= Seq::<DocM>::empty());
            assert(s.tags_m() =~= Seq::<TagM>::empty());
            assert(s.assocs_m() =~= Seq::<AssocM>::empty());
        }
        s
    }

    /// The position of the document row named `filename`, if any.
    fn find_doc(&self, filename: &str) -> (r: Option<usize>)
        ensures
            match r {
                Some(i) => i < self.docs_m().len() && self.docs_m()[i as int].filename == filename@
                    && (self.wf() ==> i as int == doc_idx(self.docs_m(), filename@)),
                None => !has_doc(self.docs_m(), filename@),
            },
    {
        let mut i: usize = 0;
        while i < self.docs.len()
            invariant
                i <= self.docs@.len(),
                forall|j: int| 0 <= j < i ==> (#[trigger] self.docs_m()[j]).filename != filename@,
            decreases self.docs@.len() - i,
        {
            if str_eq(self.docs[i].filename.as_str(), filename) {
                proof {
                    assert(self.docs_m()[i as int].filename == filename@);
                    if self.wf() {
                        let c = doc_idx(self.docs_m(), filename@);
                        if c != i as int {
                            assert(self.docs_m()[c].filename == self.docs_m()[i as int].filename);
                        }
                    }
                }
                return Some(i);
            }
            i = i + 1;
        }
        None
    }

    /// The position of the document row with key `doc_id`, if any.
    fn find_doc_by_id(&self, doc_id: i64) -> (r: Option<usize>)
        ensures
            match r {
                Some(i) => i < self.docs_m().len() && self.docs_m()[i as int].id == doc_id as int
                    && (self.wf() ==> i as int == doc_idx_by_id(self.docs_m(), doc_id as int)),
                None => !has_doc_id(self.docs_m(), doc_id as int),
            },
    {
        let mut i: usize = 0;
        while i < self.docs.len()
            invariant
                i <= self.docs@.len(),
                forall|j: int| 0 <= j < i ==> (#[trigger] self.docs_m()[j]).id != doc_id as int,
            decreases self.docs@.len() - i,
        {
            if self.docs[i].id == doc_id {
                proof {
                    if self.wf() {
                        let c = doc_idx_by_id(self.docs_m(), doc_id as int);
                        if c != i as int {
                            assert(self.docs_m()[c].id == self.docs_m()[i as int].id);
                        }
                    }
                }
                return Some(i);
            }
            i = i + 1;
        }
        None
    }

    /// The position of the tag row named `name`, if any.
    fn find_tag(&self, name: &str) -> (r: Option<usize>)
        ensures
            match r {
                Some(i) => i < self.tags_m().len() && self.tags_m()[i as int].name == name@,
                None => !has_tag(self.tags_m(), name@),
            },
    {
        let mut i: usize = 0;
        while i < self.tags.len()
            invariant
                i <= self.tags@.len(),
                forall|j: int| 0 <= j < i ==> (#[trigger] self.tags_m()[j]).name != name@,
            decreases self.tags@.len() - i,
        {
            if str_eq(self.tags[i].name.as_str(), name) {
                return Some(i);
            }
            i = i + 1;
        }
        None
    }

    /// Whether the association table holds the pair.
    fn has_assoc(&self, doc_id: i64, tag_id: i64) -> (r: bool)
        ensures
            r == self.assocs_m().contains((doc_id as int, tag_id as int)),
    {
        let mut i: usize = 0;
        while i < self.assocs.len()
            invariant
                i <= self.assocs@.len(),
                forall|j: int| 0 <= j < i ==> (#[trigger] self.assocs_m()[j]) != (
                    doc_id as int,
                    tag_id as int,
                ),
            decreases self.assocs@.len() - i,
        {
            if self.assocs[i].doc_id == doc_id && self.assocs[i].tag_id == tag_id {
                proof {
                    assert(self.assocs_m()[i as int] == (doc_id as int, tag_id as int));
                }
                return true;
            }
            i = i + 1;
        }
        proof {
            if self.assocs_m().contains((doc_id as int, tag_id as int)) {
                let j = choose|j: int|
                    0 <= j < self.assocs_m().len() && self.assocs_m()[j] == (
                        doc_id as int,
                        tag_id as int,
                    );
                assert(self.assocs_m()[j] != (doc_id as int, tag_id as int));
            }
        }
        false
    }

    /// Inserts the document row when the filename is new, otherwise
    /// replaces its title and advances `updated_at`; returns the row's
    /// key. Fails, leaving the index unchanged, exactly when a row
    /// would have to be created and the key space is exhausted.
    pub fn upsert_document(&mut self, filename: &str, title: Option<&str>, now: i64) -> (r: Result<
        i64,
        AppError,
    >)
        requires
            old(self).wf(),
        ensures
            final(self).wf(),
            final(self).tags_m() == old(self).tags_m(),
            final(self).assocs_m() == old(self).assocs_m(),
            r is Err <==> !has_doc(old(self).docs_m(), filename@) && !old(self).has_room(1),
            r matches Err(e) ==> e == AppError::IndexFailure && final(self).docs_m() == old(
                self,
            ).docs_m() && final(self).next_id_m() == old(self).next_id_m(),
            r is Ok && has_doc(old(self).docs_m(), filename@) ==> {
                let i = doc_idx(old(self).docs_m(), filename@);
                let d = old(self).docs_m()[i];
                &&& final(self).docs_m() == old(self).docs_m().update(
                    i,
                    DocM {
                        title: match title { Some(t) => Some(t@), None => None },
                        updated_at: if now > d.updated_at {
                            now as int
                        } else {
                            d.updated_at
                        },
                        ..d
                    },
                )
                &&& final(self).next_id_m() == old(self).next_id_m()
                &&& r matches Ok(id) && id as int == d.id
            },
            r is Ok && !has_doc(old(self).docs_m(), filename@) ==> {
                &&& final(self).docs_m() == old(self).docs_m().push(
                    DocM {
                        id: old(self).next_id_m(),
                        filename: filename@,
                        title: match title { Some(t) => Some(t@), None => None },
                        created_at: now as int,
                        updated_at: now as int,
                        view_count: 0,
                    },
                )
                &&& final(self).next_id_m() == old(self).next_id_m() + 1
                &&& r matches Ok(id) && id as int == old(self).next_id_m()
            },
    {
        match self.find_doc(filename) {
            Some(i) => {
                let ghost pre = self.docs_m();
                let id = self.docs[i].id;
                let new_title: Option<String> = match title {
                    Some(t) => Some(String::from_str(t)),
                    None => None,
                };
                self.docs[i].title = new_title;
                if now > self.docs[i].updated_at {
                    self.docs[i].updated_at = now;
                }
                proof {
                    let d = pre[i as int];
                    let upd = DocM {
                        title: match title { Some(t) => Some(t@), None => None },
                        updated_at: if now > d.updated_at {
                            now as int
                        } else {
                            d.updated_at
                        },
                        ..d
                    };
                    assert(self.docs_m() =~= pre.update(i as int, upd));
                    let post = self.docs_m();
                    assert(forall|j: int|
                        0 <= j < post.len() ==> (#[trigger] post[j]).id == pre[j].id
                            && (#[trigger] post[j]).filename == pre[j].filename);
                    assert forall|k: int| 0 <= k < self.assocs_m().len() implies has_doc_id(
                        post,
                        (#[trigger] self.assocs_m()[k]).0,
                    ) by {
                        assert(has_doc_id(pre, self.assocs_m()[k].0));
                        let w = choose|w: int|
                            0 <= w < pre.len() && (#[trigger] pre[w]).id == self.assocs_m()[k].0;
                        assert(post[w].id == self.assocs_m()[k].0);
                    }
                }
                Ok(id)
            },
            None => {
                if self.next_id >= i64::MAX {
                    return Err(AppError::IndexFailure);
                }
                let ghost pre = self.docs_m();
                let id = self.next_id;
                let new_title: Option<String> = match title {
                    Some(t) => Some(String::from_str(t)),
                    None => None,
                };
                self.docs.push(
                    DocRow {
                        id,
                        filename: String::from_str(filename),
                        title: new_title,
                        created_at: now,
                        updated_at: now,
                        view_count: 0,
                    },
                );
                self.next_id = self.next_id + 1;
                proof {
                    assert(self.docs_m() =~= pre.push(
                        DocM {
                            id: id as int,
                            filename: filename@,
                            title: match title { Some(t) => Some(t@), None => None },
                            created_at: now as int,
                            updated_at: now as int,
                            view_count: 0,
                        },
                    ));
                    let post = self.docs_m();
                    assert(forall|j: int| 0 <= j < pre.len() ==> #[trigger] post[j] == pre[j]);
                    assert forall|k: int| 0 <= k < self.assocs_m().len() implies has_doc_id(
                        post,
                        (#[trigger] self.assocs_m()[k]).0,
                    ) by {
                        assert(has_doc_id(pre, self.assocs_m()[k].0));
                        let w = choose|w: int|
                            0 <= w < pre.len() && (#[trigger] pre[w]).id == self.assocs_m()[k].0;
                        assert(post[w].id == self.assocs_m()[k].0);
                    }
                }
                Ok(id)
            },
        }
    }

    /// The names of the tags of the document at row `i`, in tag-table
    /// order.
    fn collect_tag_names(&self, doc_id: i64) -> (r: Vec<String>)
        ensures
            r@.map(|k: int, s: String| s@) == tag_names_of(
                self.tags_m(),
                self.assocs_m(),
                doc_id as int,
            ),
    {
        let ghost pred = |t: TagM| self.assocs_m().contains((doc_id as int, t.id));
        let mut r: Vec<String> = Vec::new();
        let mut i: usize = 0;
        proof {
            assert(self.tags_m().take(0) =~= Seq::<TagM>::empty());
            assert(Seq::<TagM>::empty().filter(pred) =~= Seq::<TagM>::empty());
            assert(r@.map(|k: int, s: String| s@) =~= Seq::<TagM>::empty().map(
                |i: int, t: TagM| t.name,
            ));
        }
        while i < self.tags.len()
            invariant
                i <= self.tags@.len(),
                pred == (|t: TagM| self.assocs_m().contains((doc_id as int, t.id))),
                r@.map(|k: int, s: String| s@) == self.tags_m().take(i as int).filter(pred).map(
                    |i: int, t: TagM| t.name,
                ),
            decreases self.tags@.len() - i,
        {
            let ghost prefix = self.tags_m().take(i as int);
            let t = self.tags[i].id;
            if self.has_assoc(doc_id, t) {
                r.push(self.tags[i].name.clone());
            }
            proof {
                lemma_filter_push(prefix, self.tags_m()[i as int], pred);
                assert(self.tags_m().take(i as int + 1) =~= prefix.push(self.tags_m()[i as int]));
                if pred(self.tags_m()[i as int]) {
                    assert(r@.map(|k: int, s: String| s@) =~= prefix.filter(pred).map(
                        |i: int, t: TagM| t.name,
                    ).push(self.tags_m()[i as int].name));
                    assert(prefix.filter(pred).push(self.tags_m()[i as int]).map(
                        |i: int, t: TagM| t.name,
                    ) =~= prefix.filter(pred).map(|i: int, t: TagM| t.name).push(
                        self.tags_m()[i as int].name,
                    ));
                }
            }
            i = i + 1;
        }
        proof {
            assert(self.tags_m().take(self.tags@.len() as int) =~= self.tags_m());
        }
        r
    }

    /// The metadata of the document named `filename`, with its tag
    /// names joined in, or nothing when no row exists.
    pub fn get_document(&self, filename: &str) -> (r: Option<DocumentMeta>)
        requires
            self.wf(),
        ensures
            match r {
                Some(m) => {
                    &&& has_doc(self.docs_m(), filename@)
                    &&& is_meta_of(m, self.docs_m()[doc_idx(self.docs_m(), filename@)], self.tags_m(), self.assocs_m())
                },
                None => !has_doc(self.docs_m(), filename@),
            },
    {
        match self.find_doc(filename) {
            Some(i) => {
                let d = &self.docs[i];
                let tags = self.collect_tag_names(d.id);
                let title: Option<String> = match &d.title {
                    Some(t) => Some(t.clone()),
                    None => None,
                };
                Some(
                    DocumentMeta {
                        id: d.id,
                        filename: d.filename.clone(),
                        title,
                        created_at: d.created_at,
                        updated_at: d.updated_at,
                        view_count: d.view_count,
                        tags,
                    },
                )
            },
            None => None,
        }
    }

    /// Replaces the tag set of document `doc_id` with `tag_names`:
    /// drops all of its current associations, finds or creates a tag
    /// row for each name, associates them, reclaims any tag left
    /// orphaned, and advances the document's `updated_at`. Fails with
    /// `NotFound` exactly when no document has that key, and with
    /// `IndexFailure` exactly when the key space cannot hold one new
    /// tag per name.
    pub fn set_tags(&mut self, doc_id: i64, tag_names: &Vec<String>, now: i64) -> (r: Result<
        (),
        AppError,
    >)
        requires
            old(self).wf(),
        ensures
            final(self).wf(),
            r == Err::<(), AppError>(AppError::NotFound) <==> !has_doc_id(
                old(self).docs_m(),
                doc_id as int,
            ),
            r == Err::<(), AppError>(AppError::IndexFailure) <==> has_doc_id(
                old(self).docs_m(),
                doc_id as int,
            ) && !old(self).has_room(tag_names@.len() as int),
            r is Err ==> r == Err::<(), AppError>(AppError::NotFound) || r == Err::<(), AppError>(
                AppError::IndexFailure,
            ),
            r is Err ==> final(self).docs_m() == old(self).docs_m() && final(self).tags_m() == old(
                self,
            ).tags_m() && final(self).assocs_m() == old(self).assocs_m() && final(self).next_id_m()
                == old(self).next_id_m(),
            r is Ok ==> set_tags_post(
                old(self).docs_m(),
                old(self).tags_m(),
                old(self).assocs_m(),
                old(self).next_id_m(),
                final(self).docs_m(),
                final(self).tags_m(),
                final(self).assocs_m(),
                final(self).next_id_m(),
                doc_id as int,
                tag_names@,
                now as int,
            ),
    {
        let i = match self.find_doc_by_id(doc_id) {
            None => {
                return Err(AppError::NotFound);
            },
            Some(i) => i,
        };
        let n = tag_names.len();
        if (n as u64) > ((i64::MAX - self.next_id) as u64) {
            proof {
                assert(!old(self).has_room(tag_names@.len() as int));
            }
            return Err(AppError::IndexFailure);
        }
        let ghost docs0 = self.docs_m();
        let ghost tags0 = self.tags_m();
        let ghost assocs0 = self.assocs_m();
        let ghost next0 = self.next_id_m();
        let did = self.docs[i].id;
        if now > self.docs[i].updated_at {
            self.docs[i].updated_at = now;
        }
        let ghost docs1 = self.docs_m();
        proof {
            let d = docs0[i as int];
            let upd = DocM {
                updated_at: if now > d.updated_at {
                    now as int
                } else {
                    d.updated_at
                },
                ..d
            };
            assert(docs1 =~= docs0.update(i as int, upd));
            assert(forall|j: int|
                0 <= j < docs1.len() ==> (#[trigger] docs1[j]).id == docs0[j].id
                    && (#[trigger] docs1[j]).filename == docs0[j].filename);
        }
        self.drop_doc_assocs(did);
        let ghost pred_a = |a: AssocM| a.0 != did as int;
        let ghost f0 = assocs0.filter(pred_a);
        proof {
            lemma_filter_no_dup(assocs0, pred_a);
            lemma_filter_sub(assocs0, pred_a);
            assert forall|k: int| 0 <= k < f0.len() implies has_doc_id(
                docs1,
                (#[trigger] f0[k]).0,
            ) by {
                assert(assocs0.contains(f0[k]));
                let w = choose|w: int| 0 <= w < assocs0.len() && assocs0[w] == f0[k];
                assert(has_doc_id(docs0, assocs0[w].0));
                let v = choose|v: int|
                    0 <= v < docs0.len() && (#[trigger] docs0[v]).id == f0[k].0;
                assert(docs1[v].id == f0[k].0);
            }
            assert(docs1[i as int].id == did as int);
            assert(has_doc_id(docs1, did as int));
            assert(set_tags_inv(
                docs1,
                self.tags_m(),
                self.assocs_m(),
                self.next_id_m(),
                tags0,
                f0,
                next0,
                did as int,
                tag_names@,
                0,
                n as int,
            ));
        }
        let mut m: usize = 0;
        while m < n
            invariant
                set_tags_inv(
                    docs1,
                    self.tags_m(),
                    self.assocs_m(),
                    self.next_id_m(),
                    tags0,
                    f0,
                    next0,
                    did as int,
                    tag_names@,
                    m as int,
                    n as int,
                ),
                n == tag_names@.len(),
                n == tag_names.len(),
                m <= n,
                self.docs_m() == docs1,
                has_doc_id(docs1, did as int),
                self.next_id <= i64::MAX,
            decreases n - m,
        {
            let ghost tags_a = self.tags_m();
            let ghost assocs_a = self.assocs_m();
            let ghost next_a = self.next_id_m();
            let name = &tag_names[m];
            let tid = match self.find_tag(name.as_str()) {
                Some(t) => self.tags[t].id,
                None => {
                    proof {
                        if self.next_id_m() >= next0 + n {
                            assert(false);
                        }
                    }
                    let id = self.next_id;
                    self.tags.push(Tag { id, name: name.clone() });
                    self.next_id = self.next_id + 1;
                    proof {
                        assert(self.tags_m() =~= tags_a.push(TagM { id: id as int, name: name@ }));
                    }
                    id
                },
            };
            let ghost tags_b = self.tags_m();
            if !self.has_assoc(did, tid) {
                self.assocs.push(Assoc { doc_id: did, tag_id: tid });
                proof {
                    assert(self.assocs_m() =~= assocs_a.push((did as int, tid as int)));
                }
            }
            proof {
                lemma_set_tags_step(
                    docs1,
                    tags0,
                    f0,
                    next0,
                    did as int,
                    tag_names@,
                    m as int,
                    n as int,
                    tags_a,
                    assocs_a,
                    next_a,
                    tags_b,
                    self.assocs_m(),
                    self.next_id_m(),
                    tid as int,
                );
            }
            m = m + 1;
        }
        let ghost tags_c = self.tags_m();
        let ghost assocs_c = self.assocs_m();
        let ghost next_c = self.next_id_m();
        self.reclaim_orphan_tags();
        proof {
            let c = doc_idx_by_id(docs0, doc_id as int);
            if c != i as int {
                assert(docs0[c].id == docs0[i as int].id);
            }
            lemma_set_tags_finish(
                docs0,
                docs1,
                tags0,
                assocs0,
                f0,
                next0,
                did as int,
                i as int,
                tag_names@,
                tags_c,
                assocs_c,
                next_c,
                self.tags_m(),
                now as int,
            );
        }
        Ok(())
    }

    /// Whether any association references the tag id.
    fn tag_in_use(&self, tag_id: i64) -> (r: bool)
        ensures
            r == tag_referenced(self.assocs_m(), tag_id as int),
    {
        let mut i: usize = 0;
        while i < self.assocs.len()
            invariant
                i <= self.assocs@.len(),
                forall|j: int| 0 <= j < i ==> (#[trigger] self.assocs_m()[j]).1 != tag_id as int,
            decreases self.assocs@.len() - i,
        {
            if self.assocs[i].tag_id == tag_id {
                proof {
                    assert(self.assocs_m()[i as int].1 == tag_id as int);
                }
                return true;
            }
            i = i + 1;
        }
        false
    }

    /// Drops every tag row that no association references any more.
    fn reclaim_orphan_tags(&mut self)
        ensures
            final(self).docs_m() == old(self).docs_m(),
            final(self).assocs_m() == old(self).assocs_m(),
            final(self).next_id_m() == old(self).next_id_m(),
            final(self).tags_m() == old(self).tags_m().filter(
                |t: TagM| tag_referenced(old(self).assocs_m(), t.id),
            ),
    {
        let ghost tags0 = self.tags_m();
        let ghost pred = |t: TagM| tag_referenced(self.assocs_m(), t.id);
        let mut kept: Vec<Tag> = Vec::new();
        let mut i: usize = 0;
        proof {
            assert(tags0.take(0) =~= Seq::<TagM>::empty());
            assert(Seq::<TagM>::empty().filter(pred) =~= Seq::<TagM>::empty());
            assert(kept@.map(|k: int, t: Tag| tag_m(t)) =~= Seq::<TagM>::empty());
        }
        while i < self.tags.len()
            invariant
                i <= self.tags@.len(),
                tags0 == self.tags_m(),
                pred == (|t: TagM| tag_referenced(self.assocs_m(), t.id)),
                kept@.map(|k: int, t: Tag| tag_m(t)) == tags0.take(i as int).filter(pred),
            decreases self.tags@.len() - i,
        {
            let ghost prefix = tags0.take(i as int);
            if self.tag_in_use(self.tags[i].id) {
                let t = Tag { id: self.tags[i].id, name: self.tags[i].name.clone() };
                proof {
                    assert(tag_m(t) == tags0[i as int]);
                }
                kept.push(t);
            }
            proof {
                lemma_filter_push(prefix, tags0[i as int], pred);
                assert(tags0.take(i as int + 1) =~= prefix.push(tags0[i as int]));
                if pred(tags0[i as int]) {
                    assert(kept@.map(|k: int, t: Tag| tag_m(t)) =~= prefix.filter(pred).push(
                        tags0[i as int],
                    ));
                }
            }
            i = i + 1;
        }
        self.tags = kept;
        proof {
            assert(tags0.take(tags0.len() as int) =~= tags0);
        }
    }

    /// Removes every association of document `did`.
    fn drop_doc_assocs(&mut self, did: i64)
        ensures
            final(self).docs_m() == old(self).docs_m(),
            final(self).tags_m() == old(self).tags_m(),
            final(self).next_id_m() == old(self).next_id_m(),
            final(self).assocs_m() == old(self).assocs_m().filter(
                |a: AssocM| a.0 != did as int,
            ),
    {
        let ghost assocs0 = self.assocs_m();
        let ghost pred_a = |a: AssocM| a.0 != did as int;
        let mut kept: Vec<Assoc> = Vec::new();
        let mut j: usize = 0;
        proof {
            assert(assocs0.take(0) =~= Seq::<AssocM>::empty());
            assert(Seq::<AssocM>::empty().filter(pred_a) =~= Seq::<AssocM>::empty());
            assert(kept@.map(|k: int, a: Assoc| assoc_m(a)) =~= Seq::<AssocM>::empty());
        }
        while j < self.assocs.len()
            invariant
                j <= self.assocs@.len(),
                assocs0 == self.assocs_m(),
                pred_a == (|a: AssocM| a.0 != did as int),
                kept@.map(|k: int, a: Assoc| assoc_m(a)) == assocs0.take(j as int).filter(pred_a),
            decreases self.assocs@.len() - j,
        {
            let ghost prefix = assocs0.take(j as int);
            if self.assocs[j].doc_id != did {
                let a = Assoc { doc_id: self.assocs[j].doc_id, tag_id: self.assocs[j].tag_id };
                proof {
                    assert(assoc_m(a) == assocs0[j as int]);
                }
                kept.push(a);
            }
            proof {
                lemma_filter_push(prefix, assocs0[j as int], pred_a);
                assert(assocs0.take(j as int + 1) =~= prefix.push(assocs0[j as int]));
                if pred_a(assocs0[j as int]) {
                    assert(kept@.map(|k: int, a: Assoc| assoc_m(a)) =~= prefix.filter(pred_a).push(
                        assocs0[j as int],
                    ));
                }
            }
            j = j + 1;
        }
        self.assocs = kept;
        proof {
            assert(assocs0.take(assocs0.len() as int) =~= assocs0);
        }
    }

    /// Removes the document row named `filename`, cascades its
    /// associations away, and reclaims any tag left with no
    /// associations. Reports whether a row existed.
    pub fn delete_document(&mut self, filename: &str) -> (r: bool)
        requires
            old(self).wf(),
        ensures
            final(self).wf(),
            r == has_doc(old(self).docs_m(), filename@),
            !r ==> final(self).docs_m() == old(self).docs_m() && final(self).tags_m() == old(
                self,
            ).tags_m() && final(self).assocs_m() == old(self).assocs_m() && final(self).next_id_m()
                == old(self).next_id_m(),
            r ==> delete_post(
                old(self).docs_m(),
                old(self).tags_m(),
                old(self).assocs_m(),
                final(self).docs_m(),
                final(self).tags_m(),
                final(self).assocs_m(),
                filename@,
            ) && final(self).next_id_m() == old(self).next_id_m(),
    {
        match self.find_doc(filename) {
            None => false,
            Some(i) => {
                let ghost docs0 = self.docs_m();
                let ghost tags0 = self.tags_m();
                let ghost assocs0 = self.assocs_m();
                let did = self.docs[i].id;
                self.docs.remove(i);
                proof {
                    assert(self.docs_m() =~= docs0.remove(i as int));
                }
                self.drop_doc_assocs(did);
                self.reclaim_orphan_tags();
                proof {
                    self.lemma_delete_wf(docs0, tags0, assocs0, i as int, did as int);
                    assert(doc_idx(docs0, filename@) == i as int);
                    assert(docs0[i as int].id == did as int);
                    assert forall|k: int| 0 <= k < self.assocs_m().len() implies (
                    #[trigger] self.assocs_m()[k]).0 != did as int && assocs0.contains(
                        self.assocs_m()[k],
                    ) by {}
                    assert forall|p: int| 0 <= p < self.tags_m().len() implies tags0.contains(
                        #[trigger] self.tags_m()[p],
                    ) && tag_referenced(self.assocs_m(), self.tags_m()[p].id) by {}
                    assert(delete_post(
                        docs0,
                        tags0,
                        assocs0,
                        self.docs_m(),
                        self.tags_m(),
                        self.assocs_m(),
                        filename@,
                    ));
                }
                true
            },
        }
    }

    /// Re-establishes well-formedness after a document removal with
    /// cascade and orphan reclamation.
    proof fn lemma_delete_wf(
        &self,
        docs0: Seq<DocM>,
        tags0: Seq<TagM>,
        assocs0: Seq<AssocM>,
        i: int,
        did: int,
    )
        requires
            index_wf(docs0, tags0, assocs0, self.next_id_m()),
            0 <= i < docs0.len(),
            docs0[i].id == did,
            self.docs_m() == docs0.remove(i),
            self.assocs_m() == assocs0.filter(|a: AssocM| a.0 != did),
            self.tags_m() == tags0.filter(|t: TagM| tag_referenced(self.assocs_m(), t.id)),
        ensures
            self.wf(),
            forall|k: int|
                0 <= k < self.assocs_m().len() ==> (#[trigger] self.assocs_m()[k]).0 != did
                    && assocs0.contains(self.assocs_m()[k]),
            forall|k: int|
                0 <= k < assocs0.len() && (#[trigger] assocs0[k]).0 != did
                    ==> self.assocs_m().contains(assocs0[k]),
            forall|p: int|
                0 <= p < self.tags_m().len() ==> tags0.contains(#[trigger] self.tags_m()[p])
                    && tag_referenced(self.assocs_m(), self.tags_m()[p].id),
            forall|p: int|
                0 <= p < tags0.len() && tag_referenced(
                    self.assocs_m(),
                    (#[trigger] tags0[p]).id,
                ) ==> self.tags_m().contains(tags0[p]),
    {
        let docs = self.docs_m();
        let tags = self.tags_m();
        let assocs = self.assocs_m();
        let pred_a = |a: AssocM| a.0 != did;
        let pred_t = |t: TagM| tag_referenced(assocs, t.id);
        assert(forall|p: int| 0 <= p < i ==> #[trigger] docs[p] == docs0[p]);
        assert(forall|p: int| i <= p < docs.len() ==> #[trigger] docs[p] == docs0[p + 1]);
        lemma_filter_sub(assocs0, pred_a);
        lemma_filter_sub(tags0, pred_t);
        lemma_filter_no_dup(assocs0, pred_a);
        lemma_tags_filter_unique(tags0, pred_t);
        assert forall|k: int| 0 <= k < assocs.len() implies has_doc_id(
            docs,
            (#[trigger] assocs[k]).0,
        ) by {
            assert(assocs0.contains(assocs[k]));
            assocs0.lemma_filter_pred(pred_a, k);
            let w = choose|w: int| 0 <= w < assocs0.len() && assocs0[w] == assocs[k];
            assert(has_doc_id(docs0, assocs0[w].0));
            let v = choose|v: int| 0 <= v < docs0.len() && (#[trigger] docs0[v]).id == assocs[k].0;
            assert(docs0[v].id != did);
            if v < i {
                assert(docs[v].id == assocs[k].0);
            } else {
                assert(v != i);
                assert(docs[v - 1].id == assocs[k].0);
            }
        }
        assert forall|k: int| 0 <= k < assocs.len() implies has_tag_id(
            tags,
            (#[trigger] assocs[k]).1,
        ) by {
            assert(assocs0.contains(assocs[k]));
            let w = choose|w: int| 0 <= w < assocs0.len() && assocs0[w] == assocs[k];
            assert(has_tag_id(tags0, assocs0[w].1));
            let v = choose|v: int| 0 <= v < tags0.len() && (#[trigger] tags0[v]).id == assocs[k].1;
            assert(tag_referenced(assocs, tags0[v].id));
            tags0.lemma_filter_contains(pred_t, v);
            assert(tags.contains(tags0[v]));
            let u = choose|u: int| 0 <= u < tags.len() && tags[u] == tags0[v];
            assert(tags[u].id == assocs[k].1);
        }
        assert forall|p: int| 0 <= p < tags.len() implies tag_referenced(
            assocs,
            (#[trigger] tags[p]).id,
        ) by {
            tags0.lemma_filter_pred(pred_t, p);
        }
        assert forall|p: int| 0 <= p < docs.len() implies 0 <= (#[trigger] docs[p]).id
            < self.next_id_m() by {
            if p < i {
                assert(docs[p] == docs0[p]);
            } else {
                assert(docs[p] == docs0[p + 1]);
            }
        }
        assert forall|p: int| 0 <= p < tags.len() implies 0 <= (#[trigger] tags[p]).id
            < self.next_id_m() by {
            assert(tags0.contains(tags[p]));
            let w = choose|w: int| 0 <= w < tags0.len() && tags0[w] == tags[p];
            assert(0 <= tags0[w].id < self.next_id_m());
        }
        assert forall|p: int, q: int| 0 <= p < q < docs.len() implies (#[trigger] docs[p]).id != (
        #[trigger] docs[q]).id && docs[p].filename != docs[q].filename by {
            let p0: int = if p < i {
                p
            } else {
                p + 1
            };
            let q0: int = if q < i {
                q
            } else {
                q + 1
            };
            assert(docs[p] == docs0[p0]);
            assert(docs[q] == docs0[q0]);
        }
        assert forall|k: int| 0 <= k < assocs.len() implies (#[trigger] assocs[k]).0 != did
            && assocs0.contains(assocs[k]) by {
            assocs0.lemma_filter_pred(pred_a, k);
        }
        assert forall|k: int|
            0 <= k < assocs0.len() && (#[trigger] assocs0[k]).0 != did implies assocs.contains(
            assocs0[k],
        ) by {
            assocs0.lemma_filter_contains(pred_a, k);
        }
        assert forall|p: int| 0 <= p < tags.len() implies tags0.contains(#[trigger] tags[p])
            && tag_referenced(assocs, tags[p].id) by {
            tags0.lemma_filter_pred(pred_t, p);
        }
        assert forall|p: int|
            0 <= p < tags0.len() && tag_referenced(assocs, (#[trigger] tags0[p]).id) implies
            tags.contains(tags0[p]) by {
            tags0.lemma_filter_contains(pred_t, p);
        }
    }

    /// The filenames of the documents carrying the tag named
    /// `tag_name`, in document-table order; empty when no such tag
    /// exists.
    pub fn list_by_tag(&self, tag_name: &str) -> (r: Vec<String>)
        requires
            self.wf(),
        ensures
            r@.map(|k: int, s: String| s@) == docs_with_tag(
                self.docs_m(),
                self.tags_m(),
                self.assocs_m(),
                tag_name@,
            ),
    {
        match self.find_tag(tag_name) {
            None => {
                let r: Vec<String> = Vec::new();
                proof {
                    assert(r@.map(|k: int, s: String| s@) =~= Seq::<Seq<char>>::empty());
                }
                r
            },
            Some(ti) => {
                let tid = self.tags[ti].id;
                let ghost t = self.tags_m()[tag_idx(self.tags_m(), tag_name@)];
                proof {
                    let c = tag_idx(self.tags_m(), tag_name@);
                    assert(self.tags_m()[c].name == self.tags_m()[ti as int].name);
                    if c != ti as int {
                        assert(false);
                    }
                }
                let ghost pred = |d: DocM| self.assocs_m().contains((d.id, t.id));
                let mut r: Vec<String> = Vec::new();
                let mut i: usize = 0;
                proof {
                    assert(self.docs_m().take(0) =~= Seq::<DocM>::empty());
                    assert(Seq::<DocM>::empty().filter(pred) =~= Seq::<DocM>::empty());
                    assert(r@.map(|k: int, s: String| s@) =~= Seq::<DocM>::empty().map(
                        |i: int, d: DocM| d.filename,
                    ));
                }
                while i < self.docs.len()
                    invariant
                        i <= self.docs@.len(),
                        tid as int == t.id,
                        pred == (|d: DocM| self.assocs_m().contains((d.id, t.id))),
                        r@.map(|k: int, s: String| s@) == self.docs_m().take(i as int).filter(
                            pred,
                        ).map(|i: int, d: DocM| d.filename),
                    decreases self.docs@.len() - i,
                {
                    let ghost prefix = self.docs_m().take(i as int);
                    if self.has_assoc(self.docs[i].id, tid) {
                        r.push(self.docs[i].filename.clone());
                    }
                    proof {
                        lemma_filter_push(prefix, self.docs_m()[i as int], pred);
                        assert(self.docs_m().take(i as int + 1) =~= prefix.push(
                            self.docs_m()[i as int],
                        ));
                        if pred(self.docs_m()[i as int]) {
                            assert(r@.map(|k: int, s: String| s@) =~= prefix.filter(pred).map(
                                |i: int, d: DocM| d.filename,
                            ).push(self.docs_m()[i as int].filename));
                            assert(prefix.filter(pred).push(self.docs_m()[i as int]).map(
                                |i: int, d: DocM| d.filename,
                            ) =~= prefix.filter(pred).map(|i: int, d: DocM| d.filename).push(
                                self.docs_m()[i as int].filename,
                            ));
                        }
                    }
                    i = i + 1;
                }
                proof {
                    assert(self.docs_m().take(self.docs@.len() as int) =~= self.docs_m());
                }
                r
            },
        }
    }

    /// Every tag name, sorted ascending, each exactly once.
    #[verifier::rlimit(60)]
    pub fn all_tags(&self) -> (r: Vec<String>)
        requires
            self.wf(),
        ensures
            r@.len() == self.tags_m().len(),
            forall|k: int|
                0 <= k < r@.len() ==> has_tag(self.tags_m(), (#[trigger] r@[k])@),
            forall|t: int|
                0 <= t < self.tags_m().len() ==> lists_name(
                    r@,
                    (#[trigger] self.tags_m()[t]).name,
                ),
            forall|k1: int, k2: int|
                0 <= k1 < k2 < r@.len() ==> lex_le((#[trigger] r@[k1])@, (#[trigger] r@[k2])@),
    {
        let mut names: Vec<String> = Vec::new();
        let mut i: usize = 0;
        while i < self.tags.len()
            invariant
                i <= self.tags@.len(),
                names@.len() == i,
                forall|j: int| 0 <= j < i ==> (#[trigger] names@[j])@ == self.tags_m()[j].name,
            decreases self.tags@.len() - i,
        {
            names.push(self.tags[i].name.clone());
            i = i + 1;
        }
        let n = names.len();
        let mut picked: Vec<bool> = vec![false; n];
        let mut r: Vec<String> = Vec::new();
        let ghost mut sel: Seq<int> = Seq::empty();
        while r.len() < n
            invariant
                self.wf(),
                n == names@.len(),
                n == self.tags_m().len(),
                forall|j: int| 0 <= j < n ==> (#[trigger] names@[j])@ == self.tags_m()[j].name,
                picked@.len() == n,
                r@.len() <= n,
                sel.len() == r@.len(),
                forall|k: int|
                    0 <= k < sel.len() ==> 0 <= #[trigger] sel[k] < n && r@[k] == names@[sel[k]],
                forall|k1: int, k2: int| 0 <= k1 < k2 < sel.len() ==> sel[k1] != sel[k2],
                forall|j: int| 0 <= j < n ==> #[trigger] picked@[j] == sel.contains(j),
                forall|k1: int, k2: int|
                    0 <= k1 < k2 < r@.len() ==> lex_le((#[trigger] r@[k1])@, (#[trigger] r@[k2])@),
                r@.len() > 0 ==> forall|j: int|
                    0 <= j < n && !picked@[j] ==> lex_le(
                        r@[r@.len() - 1]@,
                        (#[trigger] names@[j])@,
                    ),
            decreases n - r@.len(),
        {
            let mut best: usize = 0;
            let mut have: bool = false;
            let mut j: usize = 0;
            while j < n
                invariant
                    n == names@.len(),
                    picked@.len() == n,
                    j <= n,
                    have ==> best < n && !picked@[best as int],
                    have ==> forall|p: int|
                        0 <= p < j && !picked@[p] ==> lex_le(
                            names@[best as int]@,
                            (#[trigger] names@[p])@,
                        ),
                    !have ==> forall|p: int| 0 <= p < j ==> #[trigger] picked@[p],
                decreases n - j,
            {
                if !picked[j] {
                    if !have {
                        best = j;
                        have = true;
                        proof {
                            lemma_lex_refl(names@[j as int]@);
                        }
                    } else if str_le(names[j].as_str(), names[best].as_str()) {
                        let ghost old_best = best as int;
                        best = j;
                        have = true;
                        proof {
                            assert forall|p: int|
                                0 <= p < j + 1 && !picked@[p] implies lex_le(
                                names@[best as int]@,
                                (#[trigger] names@[p])@,
                            ) by {
                                if p < j {
                                    lemma_lex_trans(
                                        names@[best as int]@,
                                        names@[old_best]@,
                                        names@[p]@,
                                    );
                                } else {
                                    lemma_lex_refl(names@[j as int]@);
                                }
                            }
                        }
                    } else {
                        proof {
                            lemma_lex_total(names@[j as int]@, names@[best as int]@);
                        }
                    }
                }
                j = j + 1;
            }
            if !have {
                proof {
                    lemma_some_index_free(sel, n as int);
                    let w = choose|w: int| 0 <= w < n && !sel.contains(w);
                    assert(picked@[w]);
                    assert(false);
                }
            }
            let m = names[best].clone();
            let ghost r_old = r@;
            r.push(m);
            picked[best] = true;
            proof {
                let sel_old = sel;
                sel = sel.push(best as int);
                assert(sel.drop_last() =~= sel_old);
                assert forall|jj: int| 0 <= jj < n implies #[trigger] picked@[jj] == sel.contains(
                    jj,
                ) by {
                    if jj == best as int {
                        assert(sel[sel.len() - 1] == jj);
                        assert(sel.contains(jj));
                    } else {
                        if sel_old.contains(jj) {
                            let w = choose|w: int| 0 <= w < sel_old.len() && sel_old[w] == jj;
                            assert(sel[w] == jj);
                            assert(sel.contains(jj));
                        }
                        if sel.contains(jj) {
                            let w = choose|w: int| 0 <= w < sel.len() && sel[w] == jj;
                            assert(w != sel.len() - 1);
                            assert(sel_old[w] == jj);
                            assert(sel_old.contains(jj));
                        }
                    }
                }
                assert forall|k1: int, k2: int| 0 <= k1 < k2 < r@.len() implies lex_le(
                    (#[trigger] r@[k1])@,
                    (#[trigger] r@[k2])@,
                ) by {
                    if k2 == r@.len() - 1 {
                        assert(r@[k1] == r_old[k1]);
                        if k1 < r_old.len() - 1 {
                            assert(lex_le(r_old[k1]@, r_old[r_old.len() - 1]@));
                            assert(lex_le(r_old[r_old.len() - 1]@, names@[best as int]@));
                            lemma_lex_trans(
                                r_old[k1]@,
                                r_old[r_old.len() - 1]@,
                                names@[best as int]@,
                            );
                        }
                    }
                }
            }
        }
        let out = r;
        proof {
            lemma_distinct_covers(sel, n as int);
            assert forall|t: int| 0 <= t < self.tags_m().len() implies lists_name(
                out@,
                (#[trigger] self.tags_m()[t]).name,
            ) by {
                assert(sel.contains(t));
                let k = choose|k: int| 0 <= k < sel.len() && sel[k] == t;
                assert(0 <= k < out@.len() && out@[k]@ == self.tags_m()[t].name);
            }
            assert forall|k: int| 0 <= k < out@.len() implies has_tag(
                self.tags_m(),
                (#[trigger] out@[k])@,
            ) by {
                assert(0 <= sel[k] < self.tags_m().len() && self.tags_m()[sel[k]].name
                    == out@[k]@);
            }
            assert(out@.len() == self.tags_m().len());
        }
        out
    }

    /// The tag row named `name`, if one exists.
    pub fn get_tag_by_name(&self, name: &str) -> (r: Option<Tag>)
        requires
            self.wf(),
        ensures
            match r {
                Some(t) => has_tag(self.tags_m(), name@) && tag_m(t) == self.tags_m()[tag_idx(
                    self.tags_m(),
                    name@,
                )],
                None => !has_tag(self.tags_m(), name@),
            },
    {
        match self.find_tag(name) {
            Some(i) => {
                let t = Tag { id: self.tags[i].id, name: self.tags[i].name.clone() };
                proof {
                    let c = tag_idx(self.tags_m(), name@);
                    assert(self.tags_m()[c].name == self.tags_m()[i as int].name);
                    if c != i as int {
                        assert(false);
                    }
                }
                Some(t)
            },
            None => None,
        }
    }

    /// Advances the read counter of the document named `filename`;
    /// reports whether a row existed. The counter tops out at the
    /// largest representable value rather than wrapping.
    pub fn increment_view_count(&mut self, filename: &str) -> (r: bool)
        requires
            old(self).wf(),
        ensures
            final(self).wf(),
            final(self).tags_m() == old(self).tags_m(),
            final(self).assocs_m() == old(self).assocs_m(),
            final(self).next_id_m() == old(self).next_id_m(),
            r == has_doc(old(self).docs_m(), filename@),
            !r ==> final(self).docs_m() == old(self).docs_m(),
            r ==> {
                let i = doc_idx(old(self).docs_m(), filename@);
                let d = old(self).docs_m()[i];
                final(self).docs_m() == old(self).docs_m().update(
                    i,
                    DocM {
                        view_count: if d.view_count < i64::MAX {
                            d.view_count + 1
                        } else {
                            d.view_count
                        },
                        ..d
                    },
                )
            },
    {
        match self.find_doc(filename) {
            None => false,
            Some(i) => {
                let ghost pre = self.docs_m();
                if self.docs[i].view_count < i64::MAX {
                    self.docs[i].view_count = self.docs[i].view_count + 1;
                }
                proof {
                    let d = pre[i as int];
                    let upd = DocM {
                        view_count: if d.view_count < i64::MAX {
                            d.view_count + 1
                        } else {
                            d.view_count
                        },
                        ..d
                    };
                    assert(self.docs_m() =~= pre.update(i as int, upd));
                    let post = self.docs_m();
                    assert(forall|j: int|
                        0 <= j < post.len() ==> (#[trigger] post[j]).id == pre[j].id
                            && (#[trigger] post[j]).filename == pre[j].filename);
                    assert forall|k: int| 0 <= k < self.assocs_m().len() implies has_doc_id(
                        post,
                        (#[trigger] self.assocs_m()[k]).0,
                    ) by {
                        assert(has_doc_id(pre, self.assocs_m()[k].0));
                        let w = choose|w: int|
                            0 <= w < pre.len() && (#[trigger] pre[w]).id == self.assocs_m()[k].0;
                        assert(post[w].id == self.assocs_m()[k].0);
                    }
                }
                true
            },
        }
    }

    /// Whether a row named `filename` exists.
    pub fn has_document(&self, filename: &str) -> (r: bool)
        ensures
            r == has_doc(self.docs_m(), filename@),
    {
        self.find_doc(filename).is_some()
    }

    /// Whether the key space can hold `a + b` more keys.
    pub fn room_for_two(&self, a: usize, b: usize) -> (r: bool)
        requires
            self.wf(),
        ensures
            r == (self.next_id_m() + a as int + b as int <= i64::MAX),
    {
        let room = (i64::MAX - self.next_id) as u64;
        (a as u128) + (b as u128) <= (room as u128)
    }

    /// Inserts or refreshes the row for `filename` (as `upsert_document`)
    /// and then replaces its tag set with `tag_names` in the same
    /// logical operation. Fails, changing nothing, exactly when the key
    /// space cannot hold a new row plus one tag per name.
    pub fn upsert_with_tags(
        &mut self,
        filename: &str,
        title: Option<&str>,
        tag_names: &Vec<String>,
        now: i64,
    ) -> (r: Result<i64, AppError>)
        requires
            old(self).wf(),
        ensures
            final(self).wf(),
            r is Err <==> !old(self).has_room(1 + tag_names@.len() as int),
            r matches Err(e) ==> e == AppError::IndexFailure && final(self).docs_m() == old(
                self,
            ).docs_m() && final(self).tags_m() == old(self).tags_m() && final(self).assocs_m()
                == old(self).assocs_m() && final(self).next_id_m() == old(self).next_id_m(),
            r matches Ok(id) ==> upsert_tags_post(
                old(self).docs_m(),
                old(self).tags_m(),
                old(self).assocs_m(),
                old(self).next_id_m(),
                final(self).docs_m(),
                final(self).tags_m(),
                final(self).assocs_m(),
                final(self).next_id_m(),
                filename@,
                match title {
                    Some(t) => Some(t@),
                    None => None,
                },
                tag_names@,
                now as int,
                id as int,
            ),
    {
        let n = tag_names.len();
        let room = (i64::MAX - self.next_id) as u64;
        if room == 0 || (n as u64) > room - 1 {
            proof {
                assert(!old(self).has_room(1 + tag_names@.len() as int));
            }
            return Err(AppError::IndexFailure);
        }
        proof {
            assert(self.next_id_m() + 1 + tag_names@.len() <= i64::MAX);
        }
        let ghost docs0 = self.docs_m();
        let ghost tags0 = self.tags_m();
        let ghost assocs0 = self.assocs_m();
        let ghost next0 = self.next_id_m();
        let id = match self.upsert_document(filename, title, now) {
            Ok(id) => id,
            Err(_) => {
                proof {
                    assert(false);
                }
                return Err(AppError::IndexFailure);
            },
        };
        let ghost docs1 = self.docs_m();
        proof {
            let i2 = doc_idx_by_id(docs1, id as int);
            if has_doc(docs0, filename@) {
                let i = doc_idx(docs0, filename@);
                assert(docs1[i].id == id as int);
                if i2 != i {
                    assert(docs1[i2].id == docs1[i].id);
                }
            } else {
                let i = docs0.len() as int;
                assert(docs1[i].id == id as int);
                if i2 != i {
                    assert(docs1[i2].id == docs1[i].id);
                }
            }
        }
        match self.set_tags(id, tag_names, now) {
            Ok(()) => {},
            Err(_) => {
                proof {
                    assert(has_doc_id(docs1, id as int));
                    assert(false);
                }
                return Err(AppError::IndexFailure);
            },
        }
        proof {
            let docs2 = self.docs_m();
            if has_doc(docs0, filename@) {
                let i = doc_idx(docs0, filename@);
                let d = docs0[i];
                let merged = DocM {
                    title: match title { Some(t) => Some(t@), None => None },
                    updated_at: if now > d.updated_at {
                        now as int
                    } else {
                        d.updated_at
                    },
                    ..d
                };
                assert(docs2 =~= docs0.update(i, merged));
            } else {
                let i = docs0.len() as int;
                let fresh = DocM {
                    id: next0,
                    filename: filename@,
                    title: match title { Some(t) => Some(t@), None => None },
                    created_at: now as int,
                    updated_at: now as int,
                    view_count: 0,
                };
                assert(docs2 =~= docs0.push(fresh));
            }
        }
        Ok(id)
    }

    /// Advances `updated_at` of the row for `filename`, creating a bare
    /// row (no title) when none exists; returns the row's key. Fails,
    /// changing nothing, exactly when a row would have to be created
    /// and the key space is exhausted.
    pub fn touch_document(&mut self, filename: &str, now: i64) -> (r: Result<i64, AppError>)
        requires
            old(self).wf(),
        ensures
            final(self).wf(),
            final(self).tags_m() == old(self).tags_m(),
            final(self).assocs_m() == old(self).assocs_m(),
            r is Err <==> !has_doc(old(self).docs_m(), filename@) && !old(self).has_room(1),
            r matches Err(e) ==> e == AppError::IndexFailure && final(self).docs_m() == old(
                self,
            ).docs_m() && final(self).next_id_m() == old(self).next_id_m(),
            r is Ok && has_doc(old(self).docs_m(), filename@) ==> {
                let i = doc_idx(old(self).docs_m(), filename@);
                let d = old(self).docs_m()[i];
                &&& final(self).docs_m() == old(self).docs_m().update(
                    i,
                    DocM {
                        updated_at: if now > d.updated_at {
                            now as int
                        } else {
                            d.updated_at
                        },
                        ..d
                    },
                )
                &&& final(self).next_id_m() == old(self).next_id_m()
                &&& r matches Ok(id) && id as int == d.id
            },
            r is Ok && !has_doc(old(self).docs_m(), filename@) ==> {
                &&& final(self).docs_m() == old(self).docs_m().push(
                    DocM {
                        id: old(self).next_id_m(),
                        filename: filename@,
                        title: None,
                        created_at: now as int,
                        updated_at: now as int,
                        view_count: 0,
                    },
                )
                &&& final(self).next_id_m() == old(self).next_id_m() + 1
                &&& r matches Ok(id) && id as int == old(self).next_id_m()
            },
    {
        match self.find_doc(filename) {
            Some(i) => {
                let ghost pre = self.docs_m();
                let id = self.docs[i].id;
                if now > self.docs[i].updated_at {
                    self.docs[i].updated_at = now;
                }
                proof {
                    let d = pre[i as int];
                    let upd = DocM {
                        updated_at: if now > d.updated_at {
                            now as int
                        } else {
                            d.updated_at
                        },
                        ..d
                    };
                    assert(self.docs_m() =~= pre.update(i as int, upd));
                    let post = self.docs_m();
                    assert(forall|j: int|
                        0 <= j < post.len() ==> (#[trigger] post[j]).id == pre[j].id
                            && (#[trigger] post[j]).filename == pre[j].filename);
                    assert forall|k: int| 0 <= k < self.assocs_m().len() implies has_doc_id(
                        post,
                        (#[trigger] self.assocs_m()[k]).0,
                    ) by {
                        assert(has_doc_id(pre, self.assocs_m()[k].0));
                        let w = choose|w: int|
                            0 <= w < pre.len() && (#[trigger] pre[w]).id == self.assocs_m()[k].0;
                        assert(post[w].id == self.assocs_m()[k].0);
                    }
                }
                Ok(id)
            },
            None => {
                if self.next_id >= i64::MAX {
                    return Err(AppError::IndexFailure);
                }
                let ghost pre = self.docs_m();
                let id = self.next_id;
                self.docs.push(
                    DocRow {
                        id,
                        filename: String::from_str(filename),
                        title: None,
                        created_at: now,
                        updated_at: now,
                        view_count: 0,
                    },
                );
                self.next_id = self.next_id + 1;
                proof {
                    assert(self.docs_m() =~= pre.push(
                        DocM {
                            id: id as int,
                            filename: filename@,
                            title: None,
                            created_at: now as int,
                            updated_at: now as int,
                            view_count: 0,
                        },
                    ));
                    let post = self.docs_m();
                    assert(forall|j: int| 0 <= j < pre.len() ==> #[trigger] post[j] == pre[j]);
                    assert forall|k: int| 0 <= k < self.assocs_m().len() implies has_doc_id(
                        post,
                        (#[trigger] self.assocs_m()[k]).0,
                    ) by {
                        assert(has_doc_id(pre, self.assocs_m()[k].0));
                        let w = choose|w: int|
                            0 <= w < pre.len() && (#[trigger] pre[w]).id == self.assocs_m()[k].0;
                        assert(post[w].id == self.assocs_m()[k].0);
                    }
                }
                Ok(id)
            },
        }
    }

    /// The most recently updated documents, newest first, at most
    /// `limit` of them: the result is sorted by `updated_at`
    /// descending, lists distinct rows, and leaves out only documents
    /// no newer than everything it includes.
    pub fn list_recent(&self, limit: usize) -> (r: Vec<DocumentMeta>)
        requires
            self.wf(),
        ensures
            recent_post(self.docs_m(), self.tags_m(), self.assocs_m(), limit as int, r@),
    {
        let n = self.docs.len();
        let lim: usize = if limit < n {
            limit
        } else {
            n
        };
        let mut picked: Vec<bool> = vec![false; n];
        let mut r: Vec<DocumentMeta> = Vec::new();
        let ghost mut sel: Seq<int> = Seq::empty();
        while r.len() < lim
            invariant
                self.wf(),
                n == self.docs_m().len(),
                lim <= n,
                picked@.len() == n,
                r@.len() <= lim,
                sel.len() == r@.len(),
                forall|k: int|
                    0 <= k < sel.len() ==> 0 <= #[trigger] sel[k] < n && is_meta_of(
                        r@[k],
                        self.docs_m()[sel[k]],
                        self.tags_m(),
                        self.assocs_m(),
                    ),
                forall|k1: int, k2: int| 0 <= k1 < k2 < sel.len() ==> sel[k1] != sel[k2],
                forall|j: int| 0 <= j < n ==> #[trigger] picked@[j] == sel.contains(j as int),
                forall|a: int, b: int|
                    0 <= a <= b < r@.len() ==> (#[trigger] r@[a]).updated_at >= (
                    #[trigger] r@[b]).updated_at,
                r@.len() > 0 ==> forall|j: int|
                    0 <= j < n && !picked@[j] ==> (#[trigger] self.docs_m()[j]).updated_at
                        <= r@[r@.len() - 1].updated_at,
            decreases lim - r@.len(),
        {
            let mut best: usize = 0;
            let mut have: bool = false;
            let mut j: usize = 0;
            while j < n
                invariant
                    n == self.docs_m().len(),
                    picked@.len() == n,
                    j <= n,
                    have ==> best < n && !picked@[best as int],
                    have ==> forall|p: int|
                        0 <= p < j && !picked@[p] ==> (#[trigger] self.docs_m()[p]).updated_at
                            <= self.docs_m()[best as int].updated_at,
                    !have ==> forall|p: int| 0 <= p < j ==> #[trigger] picked@[p],
                decreases n - j,
            {
                if !picked[j] {
                    if !have || self.docs[j].updated_at > self.docs[best].updated_at {
                        best = j;
                        have = true;
                    }
                }
                j = j + 1;
            }
            if !have {
                proof {
                    lemma_some_index_free(sel, n as int);
                    let w = choose|w: int| 0 <= w < n && !sel.contains(w);
                    assert(picked@[w]);
                    assert(false);
                }
            }
            let d = &self.docs[best];
            let tags = self.collect_tag_names(d.id);
            let title: Option<String> = match &d.title {
                Some(t) => Some(t.clone()),
                None => None,
            };
            let m = DocumentMeta {
                id: d.id,
                filename: d.filename.clone(),
                title,
                created_at: d.created_at,
                updated_at: d.updated_at,
                view_count: d.view_count,
                tags,
            };
            let ghost r_old = r@;
            let ghost picked_old = picked@;
            r.push(m);
            picked[best] = true;
            proof {
                let sel_old = sel;
                sel = sel.push(best as int);
                assert(sel.drop_last() =~= sel_old);
                assert(is_meta_of(
                    r@[r@.len() - 1],
                    self.docs_m()[best as int],
                    self.tags_m(),
                    self.assocs_m(),
                ));
                assert forall|jj: int| 0 <= jj < n implies #[trigger] picked@[jj] == sel.contains(
                    jj,
                ) by {
                    if jj == best as int {
                        assert(sel[sel.len() - 1] == jj);
                        assert(sel.contains(jj));
                        assert(picked@[jj]);
                    } else {
                        assert(picked@[jj] == picked_old[jj]);
                        if sel_old.contains(jj) {
                            let w = choose|w: int| 0 <= w < sel_old.len() && sel_old[w] == jj;
                            assert(sel[w] == jj);
                            assert(sel.contains(jj));
                        }
                        if sel.contains(jj) {
                            let w = choose|w: int| 0 <= w < sel.len() && sel[w] == jj;
                            assert(w != sel.len() - 1);
                            assert(sel_old[w] == jj);
                            assert(sel_old.contains(jj));
                        }
                    }
                }
                if r_old.len() > 0 {
                    assert(self.docs_m()[best as int].updated_at <= r_old[r_old.len()
                        - 1].updated_at);
                }
                assert forall|a: int, b: int| 0 <= a <= b < r@.len() implies (
                #[trigger] r@[a]).updated_at >= (#[trigger] r@[b]).updated_at by {
                    if b == r@.len() - 1 && a < b {
                        assert(r@[a] == r_old[a]);
                        assert(r_old[a].updated_at >= r_old[r_old.len() - 1].updated_at);
                    }
                }
            }
        }
        proof {
            assert forall|k: int| 0 <= k < r@.len() implies exists|j: int|
                0 <= j < self.docs_m().len() && is_meta_of(
                    #[trigger] r@[k],
                    self.docs_m()[j],
                    self.tags_m(),
                    self.assocs_m(),
                ) by {
                assert(0 <= sel[k] < self.docs_m().len() && is_meta_of(
                    r@[k],
                    self.docs_m()[sel[k]],
                    self.tags_m(),
                    self.assocs_m(),
                ));
            }
            assert forall|k1: int, k2: int| 0 <= k1 < k2 < r@.len() implies (
            #[trigger] r@[k1]).id != (#[trigger] r@[k2]).id by {
                assert(r@[k1].id as int == self.docs_m()[sel[k1]].id);
                assert(r@[k2].id as int == self.docs_m()[sel[k2]].id);
                if sel[k1] < sel[k2] {
                    assert(self.docs_m()[sel[k1]].id != self.docs_m()[sel[k2]].id);
                } else {
                    assert(self.docs_m()[sel[k2]].id != self.docs_m()[sel[k1]].id);
                }
            }
            assert forall|j: int| 0 <= j < self.docs_m().len() implies (exists|k: int|
                0 <= k < r@.len() && (#[trigger] r@[k]).id as int == self.docs_m()[j].id) || (
            forall|k: int|
                0 <= k < r@.len() ==> (#[trigger] self.docs_m()[j]).updated_at
                    <= r@[k].updated_at) by {
                if picked@[j] {
                    let k = choose|k: int| 0 <= k < sel.len() && sel[k] == j;
                    assert(r@[k].id as int == self.docs_m()[j].id);
                } else {
                    assert forall|k: int| 0 <= k < r@.len() implies (
                    #[trigger] self.docs_m()[j]).updated_at <= r@[k].updated_at by {
                        assert(self.docs_m()[j].updated_at <= r@[r@.len() - 1].updated_at);
                        assert(r@[k].updated_at >= r@[r@.len() - 1].updated_at);
                    }
                }
            }
        }
        r
    }
}

/// What listing the most recent documents guarantees: at most `limit`
/// results, sorted by `updated_at` descending, each rendering a
/// distinct document row, and omitting only documents no newer than
/// everything included.
pub open spec fn recent_post(
    docs: Seq<DocM>,
    tags: Seq<TagM>,
    assocs: Seq<AssocM>,
    limit: int,
    r: Seq<DocumentMeta>,
) -> bool {
    &&& r.len() == if limit < docs.len() {
        limit
    } else {
        docs.len() as int
    }
    &&& forall|a: int, b: int|
        0 <= a <= b < r.len() ==> (#[trigger] r[a]).updated_at >= (#[trigger] r[b]).updated_at
    &&& forall|k: int|
        0 <= k < r.len() ==> exists|j: int|
            0 <= j < docs.len() && is_meta_of(#[trigger] r[k], docs[j], tags, assocs)
    &&& forall|k1: int, k2: int|
        0 <= k1 < k2 < r.len() ==> (#[trigger] r[k1]).id != (#[trigger] r[k2]).id
    &&& forall|j: int|
        0 <= j < docs.len() ==> (exists|k: int|
            0 <= k < r.len() && (#[trigger] r[k]).id as int == docs[j].id) || (forall|k: int|
            0 <= k < r.len() ==> (#[trigger] docs[j]).updated_at <= r[k].updated_at)
}

/// What a successful tag replacement guarantees, relating the index
/// before (`docs0 ...`) and after (`docs ...`) the call: the target
/// row's `updated_at` advanced; the document carries exactly the
/// requested names; other documents' associations are untouched; the
/// tag table holds the old rows still referenced plus fresh rows for
/// new names.
pub open spec fn set_tags_post(
    docs0: Seq<DocM>,
    tags0: Seq<TagM>,
    assocs0: Seq<AssocM>,
    next0: int,
    docs: Seq<DocM>,
    tags: Seq<TagM>,
    assocs: Seq<AssocM>,
    next: int,
    doc_id: int,
    names: Seq<String>,
    now: int,
) -> bool {
    let i = doc_idx_by_id(docs0, doc_id);
    let d = docs0[i];
    &&& docs == docs0.update(
        i,
        DocM {
            updated_at: if now > d.updated_at {
                now
            } else {
                d.updated_at
            },
            ..d
        },
    )
    &&& forall|q: int|
        0 <= q < names.len() ==> doc_has_tag_named(tags, assocs, doc_id, (#[trigger] names[q])@)
    &&& forall|k: int|
        0 <= k < assocs.len() && (#[trigger] assocs[k]).0 == doc_id ==> exists|t: int|
            0 <= t < tags.len() && (#[trigger] tags[t]).id == assocs[k].1 && strs_view(
                names,
            ).contains(tags[t].name)
    &&& forall|k: int|
        0 <= k < assocs.len() && (#[trigger] assocs[k]).0 != doc_id ==> assocs0.contains(assocs[k])
    &&& forall|k: int|
        0 <= k < assocs0.len() && (#[trigger] assocs0[k]).0 != doc_id ==> assocs.contains(
            assocs0[k],
        )
    &&& forall|p: int|
        0 <= p < tags.len() ==> tags0.contains(#[trigger] tags[p]) || (tags[p].id >= next0
            && strs_view(names).contains(tags[p].name))
    &&& forall|p: int|
        0 <= p < tags0.len() && tag_referenced(assocs, (#[trigger] tags0[p]).id) ==> tags.contains(
            tags0[p],
        )
    &&& next >= next0
}

/// What a combined row-upsert-and-tag-replacement guarantees: one row
/// update or insertion, with the tag clauses of `set_tags_post`.
pub open spec fn upsert_tags_post(
    docs0: Seq<DocM>,
    tags0: Seq<TagM>,
    assocs0: Seq<AssocM>,
    next0: int,
    docs: Seq<DocM>,
    tags: Seq<TagM>,
    assocs: Seq<AssocM>,
    next: int,
    f: Seq<char>,
    title: Option<Seq<char>>,
    names: Seq<String>,
    now: int,
    id: int,
) -> bool {
    &&& has_doc(docs0, f) ==> {
        let i = doc_idx(docs0, f);
        let d = docs0[i];
        docs == docs0.update(
            i,
            DocM {
                title: title,
                updated_at: if now > d.updated_at {
                    now
                } else {
                    d.updated_at
                },
                ..d
            },
        ) && id == d.id
    }
    &&& !has_doc(docs0, f) ==> docs == docs0.push(
        DocM {
            id: next0,
            filename: f,
            title: title,
            created_at: now,
            updated_at: now,
            view_count: 0,
        },
    ) && id == next0
    &&& forall|q: int|
        0 <= q < names.len() ==> doc_has_tag_named(tags, assocs, id, (#[trigger] names[q])@)
    &&& forall|k: int|
        0 <= k < assocs.len() && (#[trigger] assocs[k]).0 == id ==> exists|t: int|
            0 <= t < tags.len() && (#[trigger] tags[t]).id == assocs[k].1 && strs_view(
                names,
            ).contains(tags[t].name)
    &&& forall|k: int|
        0 <= k < assocs.len() && (#[trigger] assocs[k]).0 != id ==> assocs0.contains(assocs[k])
    &&& forall|k: int|
        0 <= k < assocs0.len() && (#[trigger] assocs0[k]).0 != id ==> assocs.contains(assocs0[k])
    &&& forall|p: int|
        0 <= p < tags.len() ==> tags0.contains(#[trigger] tags[p]) || (tags[p].id >= next0
            && strs_view(names).contains(tags[p].name))
    &&& forall|p: int|
        0 <= p < tags0.len() && tag_referenced(assocs, (#[trigger] tags0[p]).id) ==> tags.contains(
            tags0[p],
        )
    &&& next >= next0
}

/// The working invariant of the tag-replacement loop: the old tag
/// table is a prefix, new tags carry fresh keys and names drawn from
/// the first `m` requested names, the surviving associations of other
/// documents are a prefix, new associations all belong to the target
/// document, and every processed name is associated.
pub open spec fn set_tags_inv(
    docs1: Seq<DocM>,
    tags: Seq<TagM>,
    assocs: Seq<AssocM>,
    next_id: int,
    tags0: Seq<TagM>,
    f0: Seq<AssocM>,
    next0: int,
    did: int,
    names: Seq<String>,
    m: int,
    n: int,
) -> bool {
    &&& tags0.len() <= tags.len()
    &&& forall|j: int| 0 <= j < tags0.len() ==> #[trigger] tags[j] == tags0[j]
    &&& forall|j: int|
        tags0.len() <= j < tags.len() ==> next0 <= (#[trigger] tags[j]).id && (exists|q: int|
            0 <= q < m && (#[trigger] names[q])@ == tags[j].name)
    &&& forall|p: int, q: int|
        0 <= p < q < tags.len() ==> (#[trigger] tags[p]).id != (#[trigger] tags[q]).id
    &&& forall|p: int, q: int|
        0 <= p < q < tags.len() ==> (#[trigger] tags[p]).name != (#[trigger] tags[q]).name
    &&& forall|j: int| 0 <= j < tags.len() ==> 0 <= (#[trigger] tags[j]).id < next_id
    &&& next0 <= next_id <= next0 + m
    &&& next0 + n <= i64::MAX
    &&& 0 < next0
    &&& f0.len() <= assocs.len()
    &&& forall|k: int| 0 <= k < f0.len() ==> #[trigger] assocs[k] == f0[k]
    &&& forall|k: int|
        f0.len() <= k < assocs.len() ==> (#[trigger] assocs[k]).0 == did && has_tag_id(
            tags,
            assocs[k].1,
        ) && tag_name_among(tags, assocs[k].1, names, m)
    &&& assocs.no_duplicates()
    &&& forall|k: int| 0 <= k < assocs.len() ==> has_doc_id(docs1, (#[trigger] assocs[k]).0)
    &&& forall|q: int| 0 <= q < m ==> doc_has_tag_named(tags, assocs, did, (#[trigger] names[q])@)
}

/// One pass of the tag-replacement loop preserves its invariant.
proof fn lemma_set_tags_step(
    docs1: Seq<DocM>,
    tags0: Seq<TagM>,
    f0: Seq<AssocM>,
    next0: int,
    did: int,
    names: Seq<String>,
    m: int,
    n: int,
    tags_a: Seq<TagM>,
    assocs_a: Seq<AssocM>,
    next_a: int,
    tags_b: Seq<TagM>,
    assocs_b: Seq<AssocM>,
    next_b: int,
    tid: int,
)
    requires
        0 <= m < n,
        n == names.len(),
        set_tags_inv(docs1, tags_a, assocs_a, next_a, tags0, f0, next0, did, names, m, n),
        has_doc_id(docs1, did),
        // the tag row: either found, or freshly pushed
        tags_b == tags_a ==> next_b == next_a && exists|t: int|
            0 <= t < tags_a.len() && (#[trigger] tags_a[t]).name == names[m]@ && tags_a[t].id
                == tid,
        tags_b != tags_a ==> tags_b == tags_a.push(TagM { id: tid, name: names[m]@ }) && !has_tag(
            tags_a,
            names[m]@,
        ) && tid == next_a && next_b == next_a + 1 && next_a < next0 + n,
        // the association: either already present, or freshly pushed
        assocs_b == assocs_a ==> assocs_a.contains((did, tid)),
        assocs_b != assocs_a ==> assocs_b == assocs_a.push((did, tid)) && !assocs_a.contains(
            (did, tid),
        ),
    ensures
        set_tags_inv(docs1, tags_b, assocs_b, next_b, tags0, f0, next0, did, names, m + 1, n),
{
    assert(forall|j: int| 0 <= j < tags_a.len() ==> #[trigger] tags_b[j] == tags_a[j]);
    assert(forall|k: int| 0 <= k < assocs_a.len() ==> #[trigger] assocs_b[k] == assocs_a[k]);
    // the name processed this round is now associated
    assert(doc_has_tag_named(tags_b, assocs_b, did, names[m]@)) by {
        if tags_b == tags_a {
            let t = choose|t: int|
                0 <= t < tags_a.len() && (#[trigger] tags_a[t]).name == names[m]@ && tags_a[t].id
                    == tid;
            assert(tags_b[t].name == names[m]@ && tags_b[t].id == tid);
            if assocs_b == assocs_a {
                assert(assocs_b.contains((did, tid)));
            } else {
                assert(assocs_b[assocs_b.len() - 1] == (did, tid));
            }
        } else {
            let t = tags_a.len() as int;
            assert(tags_b[t].name == names[m]@ && tags_b[t].id == tid);
            if assocs_b == assocs_a {
                assert(assocs_b.contains((did, tid)));
            } else {
                assert(assocs_b[assocs_b.len() - 1] == (did, tid));
            }
        }
    }
    // names processed earlier keep their association
    assert forall|q: int| 0 <= q < m + 1 implies doc_has_tag_named(
        tags_b,
        assocs_b,
        did,
        (#[trigger] names[q])@,
    ) by {
        if q < m {
            let t = choose|t: int|
                0 <= t < tags_a.len() && (#[trigger] tags_a[t]).name == names[q]@
                    && assocs_a.contains((did, tags_a[t].id));
            assert(tags_b[t].name == names[q]@);
            let k = choose|k: int| 0 <= k < assocs_a.len() && assocs_a[k] == (did, tags_a[t].id);
            assert(assocs_b[k] == (did, tags_b[t].id));
        }
    }
    // new associations still name a requested tag
    assert forall|k: int| f0.len() <= k < assocs_b.len() implies (#[trigger] assocs_b[k]).0 == did
        && has_tag_id(tags_b, assocs_b[k].1) && tag_name_among(tags_b, assocs_b[k].1, names, m + 1) by {
        if k < assocs_a.len() {
            let t = choose|t: int| 0 <= t < tags_a.len() && (#[trigger] tags_a[t]).id == assocs_a[k].1;
            assert(tags_b[t].id == assocs_b[k].1);
            let (t2, q2): (int, int) = choose|t2: int, q2: int|
                0 <= t2 < tags_a.len() && 0 <= q2 < m && (#[trigger] tags_a[t2]).id == assocs_a[k].1
                    && (#[trigger] names[q2])@ == tags_a[t2].name;
            assert(tags_b[t2].id == assocs_b[k].1 && names[q2]@ == tags_b[t2].name);
            assert(tag_name_among(tags_b, assocs_b[k].1, names, m + 1));
        } else {
            assert(assocs_b[k] == (did, tid));
            if tags_b == tags_a {
                let t = choose|t: int|
                    0 <= t < tags_a.len() && (#[trigger] tags_a[t]).name == names[m]@
                        && tags_a[t].id == tid;
                assert(tags_b[t].id == tid && tags_b[t].name == names[m]@);
            } else {
                let t = tags_a.len() as int;
                assert(tags_b[t].id == tid && tags_b[t].name == names[m]@);
            }
            assert(tag_name_among(tags_b, tid, names, m + 1));
        }
    }
    // uniqueness of the association list
    if assocs_b != assocs_a {
        assert(assocs_b.no_duplicates()) by {
            assert forall|p: int, q: int| 0 <= p < q < assocs_b.len() implies assocs_b[p]
                != assocs_b[q] by {
                if q == assocs_b.len() - 1 {
                    assert(assocs_b[q] == (did, tid));
                    assert(assocs_b[p] == assocs_a[p]);
                    if assocs_a[p] == (did, tid) {
                        assert(assocs_a.contains((did, tid)));
                    }
                }
            }
        }
    }
    // documents referenced by associations still exist
    assert forall|k: int| 0 <= k < assocs_b.len() implies has_doc_id(
        docs1,
        (#[trigger] assocs_b[k]).0,
    ) by {
        if k < assocs_a.len() {
            assert(has_doc_id(docs1, assocs_a[k].0));
        } else {
            assert(assocs_b[k].0 == did);
        }
    }
}

/// After the loop and the orphan sweep, the index is well-formed again
/// and the replacement's contract holds.
proof fn lemma_set_tags_finish(
    docs0: Seq<DocM>,
    docs1: Seq<DocM>,
    tags0: Seq<TagM>,
    assocs0: Seq<AssocM>,
    f0: Seq<AssocM>,
    next0: int,
    did: int,
    i: int,
    names: Seq<String>,
    tags_c: Seq<TagM>,
    assocs_c: Seq<AssocM>,
    next_c: int,
    tags_f: Seq<TagM>,
    now: int,
)
    requires
        index_wf(docs0, tags0, assocs0, next0),
        0 <= i < docs0.len(),
        docs0[i].id == did,
        doc_idx_by_id(docs0, did) == i,
        docs1 == docs0.update(
            i,
            DocM {
                updated_at: if now > docs0[i].updated_at {
                    now
                } else {
                    docs0[i].updated_at
                },
                ..docs0[i]
            },
        ),
        f0 == assocs0.filter(|a: AssocM| a.0 != did),
        set_tags_inv(
            docs1,
            tags_c,
            assocs_c,
            next_c,
            tags0,
            f0,
            next0,
            did,
            names,
            names.len() as int,
            names.len() as int,
        ),
        tags_f == tags_c.filter(|t: TagM| tag_referenced(assocs_c, t.id)),
    ensures
        index_wf(docs1, tags_f, assocs_c, next_c),
        set_tags_post(
            docs0,
            tags0,
            assocs0,
            next0,
            docs1,
            tags_f,
            assocs_c,
            next_c,
            did,
            names,
            now,
        ),
{
    let pred_t = |t: TagM| tag_referenced(assocs_c, t.id);
    let pred_a = |a: AssocM| a.0 != did;
    let n = names.len() as int;
    assert(forall|j: int|
        0 <= j < docs1.len() ==> (#[trigger] docs1[j]).id == docs0[j].id && (
        #[trigger] docs1[j]).filename == docs0[j].filename);
    lemma_filter_sub(tags_c, pred_t);
    lemma_filter_sub(assocs0, pred_a);
    lemma_tags_filter_unique(tags_c, pred_t);
    // a tag of `tags_c` that some association references survives the sweep
    assert forall|t: int|
        0 <= t < tags_c.len() && tag_referenced(assocs_c, (#[trigger] tags_c[t]).id) implies
        tags_f.contains(tags_c[t]) by {
        tags_c.lemma_filter_contains(pred_t, t);
    }
    // association-to-tag integrity
    assert forall|k: int| 0 <= k < assocs_c.len() implies has_tag_id(
        tags_f,
        (#[trigger] assocs_c[k]).1,
    ) by {
        if k < f0.len() {
            assert(assocs0.contains(f0[k]));
            let w = choose|w: int| 0 <= w < assocs0.len() && assocs0[w] == f0[k];
            assert(has_tag_id(tags0, assocs0[w].1));
            let t = choose|t: int| 0 <= t < tags0.len() && (#[trigger] tags0[t]).id == f0[k].1;
            assert(tags_c[t].id == assocs_c[k].1);
            assert(tag_referenced(assocs_c, tags_c[t].id));
            assert(tags_f.contains(tags_c[t]));
            let u = choose|u: int| 0 <= u < tags_f.len() && tags_f[u] == tags_c[t];
            assert(tags_f[u].id == assocs_c[k].1);
        } else {
            let t = choose|t: int| 0 <= t < tags_c.len() && (#[trigger] tags_c[t]).id == assocs_c[k].1;
            assert(tag_referenced(assocs_c, tags_c[t].id));
            assert(tags_f.contains(tags_c[t]));
            let u = choose|u: int| 0 <= u < tags_f.len() && tags_f[u] == tags_c[t];
            assert(tags_f[u].id == assocs_c[k].1);
        }
    }
    // the sweep keeps only referenced tags
    assert forall|p: int| 0 <= p < tags_f.len() implies tag_referenced(
        assocs_c,
        (#[trigger] tags_f[p]).id,
    ) by {
        tags_c.lemma_filter_pred(pred_t, p);
    }
    // key bounds
    assert forall|p: int| 0 <= p < tags_f.len() implies 0 <= (#[trigger] tags_f[p]).id < next_c by {
        assert(tags_c.contains(tags_f[p]));
        let w = choose|w: int| 0 <= w < tags_c.len() && tags_c[w] == tags_f[p];
        assert(0 <= tags_c[w].id < next_c);
    }
    assert forall|p: int| 0 <= p < docs1.len() implies 0 <= (#[trigger] docs1[p]).id < next_c by {
        assert(docs1[p].id == docs0[p].id);
    }
    // document-table uniqueness carries over from the original table
    assert forall|p: int, q: int| 0 <= p < q < docs1.len() implies (#[trigger] docs1[p]).id != (
    #[trigger] docs1[q]).id && docs1[p].filename != docs1[q].filename by {
        assert(docs0[p].id != docs0[q].id && docs0[p].filename != docs0[q].filename);
    }
    assert(index_wf(docs1, tags_f, assocs_c, next_c));
    // every requested name is associated after the sweep
    assert forall|q: int| 0 <= q < n implies doc_has_tag_named(
        tags_f,
        assocs_c,
        did,
        (#[trigger] names[q])@,
    ) by {
        let t = choose|t: int|
            0 <= t < tags_c.len() && (#[trigger] tags_c[t]).name == names[q]@ && assocs_c.contains(
                (did, tags_c[t].id),
            );
        let k = choose|k: int| 0 <= k < assocs_c.len() && assocs_c[k] == (did, tags_c[t].id);
        assert(tag_referenced(assocs_c, tags_c[t].id));
        assert(tags_f.contains(tags_c[t]));
        let u = choose|u: int| 0 <= u < tags_f.len() && tags_f[u] == tags_c[t];
        assert(tags_f[u].name == names[q]@ && assocs_c.contains((did, tags_f[u].id)));
    }
    // every association of the document names a requested tag
    assert forall|k: int|
        0 <= k < assocs_c.len() && (#[trigger] assocs_c[k]).0 == did implies exists|t: int|
        0 <= t < tags_f.len() && (#[trigger] tags_f[t]).id == assocs_c[k].1 && strs_view(
            names,
        ).contains(tags_f[t].name) by {
        if k < f0.len() {
            assert(assocs0.contains(f0[k]));
            assocs0.lemma_filter_pred(pred_a, k);
            assert(false);
        } else {
            let (t2, q2): (int, int) = choose|t2: int, q2: int|
                0 <= t2 < tags_c.len() && 0 <= q2 < n && (#[trigger] tags_c[t2]).id == assocs_c[k].1
                    && (#[trigger] names[q2])@ == tags_c[t2].name;
            assert(tag_referenced(assocs_c, tags_c[t2].id));
            assert(tags_f.contains(tags_c[t2]));
            let u = choose|u: int| 0 <= u < tags_f.len() && tags_f[u] == tags_c[t2];
            assert(strs_view(names)[q2] == names[q2]@);
            assert(strs_view(names).contains(tags_f[u].name));
            assert(tags_f[u].id == assocs_c[k].1);
        }
    }
    // other documents' associations are untouched
    assert forall|k: int|
        0 <= k < assocs_c.len() && (#[trigger] assocs_c[k]).0 != did implies assocs0.contains(
        assocs_c[k],
    ) by {
        assert(k < f0.len());
        assert(assocs0.contains(f0[k]));
    }
    assert forall|k: int|
        0 <= k < assocs0.len() && (#[trigger] assocs0[k]).0 != did implies assocs_c.contains(
        assocs0[k],
    ) by {
        assocs0.lemma_filter_contains(pred_a, k);
        assert(f0.contains(assocs0[k]));
        let w = choose|w: int| 0 <= w < f0.len() && f0[w] == assocs0[k];
        assert(assocs_c[w] == assocs0[k]);
    }
    // the tag table holds old rows and fresh, requested rows only
    assert forall|p: int| 0 <= p < tags_f.len() implies tags0.contains(#[trigger] tags_f[p]) || (
    tags_f[p].id >= next0 && strs_view(names).contains(tags_f[p].name)) by {
        assert(tags_c.contains(tags_f[p]));
        let w = choose|w: int| 0 <= w < tags_c.len() && tags_c[w] == tags_f[p];
        if w < tags0.len() {
            assert(tags0[w] == tags_f[p]);
        } else {
            let q = choose|q: int| 0 <= q < n && (#[trigger] names[q])@ == tags_c[w].name;
            assert(strs_view(names)[q] == names[q]@);
        }
    }
    // old rows still referenced survive
    assert forall|p: int|
        0 <= p < tags0.len() && tag_referenced(assocs_c, (#[trigger] tags0[p]).id) implies
        tags_f.contains(tags0[p]) by {
        assert(tags_c[p] == tags0[p]);
    }
}

/// Tag-table filters keep the table's keys and names unique.
proof fn lemma_tags_filter_unique(tags: Seq<TagM>, pred: spec_fn(TagM) -> bool)
    requires
        forall|i: int, j: int|
            0 <= i < j < tags.len() ==> (#[trigger] tags[i]).id != (#[trigger] tags[j]).id,
        forall|i: int, j: int|
            0 <= i < j < tags.len() ==> (#[trigger] tags[i]).name != (#[trigger] tags[j]).name,
    ensures
        forall|i: int, j: int|
            0 <= i < j < tags.filter(pred).len() ==> (#[trigger] tags.filter(pred)[i]).id != (
            #[trigger] tags.filter(pred)[j]).id,
        forall|i: int, j: int|
            0 <= i < j < tags.filter(pred).len() ==> (#[trigger] tags.filter(pred)[i]).name != (
            #[trigger] tags.filter(pred)[j]).name,
    decreases tags.len(),
{
    reveal(Seq::filter);
    if tags.len() > 0 {
        let t = tags.drop_last();
        lemma_tags_filter_unique(t, pred);
        lemma_filter_sub(t, pred);
        let ft = t.filter(pred);
        if pred(tags.last()) {
            assert forall|p: int| 0 <= p < ft.len() implies ft[p].id != tags.last().id
                && ft[p].name != tags.last().name by {
                assert(t.contains(ft[p]));
                let w = choose|w: int| 0 <= w < t.len() && t[w] == ft[p];
                assert(tags[w] == t[w]);
                assert(tags[w].id != tags[tags.len() - 1].id);
                assert(tags[w].name != tags[tags.len() - 1].name);
            }
            assert(tags.filter(pred) == ft.push(tags.last()));
        } else {
            assert(tags.filter(pred) == ft);
        }
    }
}

/// `m` renders the document row `d`: same fields, and `m.tags` lists
/// the names of `d`'s tags in tag-table order.
pub open spec fn is_meta_of(m: DocumentMeta, d: DocM, tags: Seq<TagM>, assocs: Seq<AssocM>) -> bool {
    &&& m.id as int == d.id
    &&& m.filename@ == d.filename
    &&& opt_view(m.title) == d.title
    &&& m.created_at as int == d.created_at
    &&& m.updated_at as int == d.updated_at
    &&& m.view_count as int == d.view_count
    &&& m.tags@.map(|k: int, s: String| s@) == tag_names_of(tags, assocs, d.id)
}

} // verus!
