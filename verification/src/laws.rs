//! The store's laws: properties that relate several operations, proved
//! once and for all from the operations' contracts.

use vstd::prelude::*;
use crate::history::{
    change_view, content_at_pos, current_of, history_seq, lemma_content_at_agree,
    lemma_history_element, lemma_history_push, lemma_history_sorted, resolve_from, wf_log,
    CommitRecord,
};
use crate::ids::{commit_id_of, lemma_commit_id_prefix_full, lemma_hex_seq_len};
use crate::index::{
    delete_post, doc_idx, has_doc, index_wf, tag_referenced, upsert_tags_post,
    AssocM, DocM, TagM,
};
use crate::store::log_extended;
use crate::text::is_prefix_of;

verus! {

/// Creating a document and immediately reading it back yields exactly
/// the written body: a create that succeeded leaves the content map
/// with the body under the filename, which is precisely what a current
/// read returns.
pub proof fn law_create_then_read(
    content0: Map<Seq<char>, Seq<char>>,
    content1: Map<Seq<char>, Seq<char>>,
    f: Seq<char>,
    body: Seq<char>,
)
    requires
        content1 == content0.insert(f, body),
    ensures
        content1.contains_key(f),
        content1[f] == body,
{
}

/// Every mutating write to a file prepends exactly one entry to that
/// file's history and touches no other file's history; histories stay
/// newest first, in never-increasing timestamp order.
pub proof fn law_history_counts_writes(
    log0: Seq<CommitRecord>,
    log1: Seq<CommitRecord>,
    f: Seq<char>,
    change: Option<Seq<char>>,
    message: Seq<char>,
    author: Seq<char>,
    now: int,
)
    requires
        wf_log(log0),
        wf_log(log1),
        log_extended(log0, log1, f, change, message, author, now),
    ensures
        history_seq(log1, f).len() == history_seq(log0, f).len() + 1,
        history_seq(log1, f)[0] == log1.last().info,
        forall|g: Seq<char>| g != f ==> history_seq(log1, g) == history_seq(log0, g),
        forall|a: int, b: int|
            0 <= a <= b < history_seq(log1, f).len() ==> #[trigger] history_seq(log1, f)[a].timestamp
                >= #[trigger] history_seq(log1, f)[b].timestamp,
{
    let r = log1.last();
    assert(log1 =~= log0.push(r));
    lemma_history_push(log0, r, f);
    assert forall|g: Seq<char>| g != f implies history_seq(log1, g) == history_seq(log0, g) by {
        lemma_history_push(log0, r, g);
    }
    lemma_history_sorted(log1, f);
}

/// When every commit that matches a prefix sits at one position, prefix
/// resolution finds that position.
proof fn lemma_resolve_pins(log: Seq<CommitRecord>, f: Seq<char>, p: Seq<char>, k: int, j0: int)
    requires
        0 <= j0 <= k < log.len(),
        log[j0].filename@ == f,
        is_prefix_of(p, log[j0].info.id@),
        forall|j: int|
            j0 < j < log.len() ==> !((#[trigger] log[j]).filename@ == f && is_prefix_of(
                p,
                log[j].info.id@,
            )),
    ensures
        resolve_from(log, f, p, k) == Some(j0),
    decreases k,
{
    if k > j0 {
        lemma_resolve_pins(log, f, p, k - 1, j0);
    }
}

/// Fetching a version at an identifier taken from the document's own
/// history is exact and repeatable: the identifier resolves to that
/// very commit, and replaying yields what that commit recorded — the
/// body that was current immediately after it.
pub proof fn law_version_at_history_entry(log: Seq<CommitRecord>, f: Seq<char>, n: int)
    requires
        wf_log(log),
        log.len() <= 0x10000000000000000,
        0 <= n < history_seq(log, f).len(),
    ensures
        exists|j: int|
            {
                &&& 0 <= j < log.len()
                &&& #[trigger] log[j].info == history_seq(log, f)[n]
                &&& resolve_from(log, f, history_seq(log, f)[n].id@, log.len() - 1) == Some(j)
                &&& content_at_pos(log, f, j) == change_view(log[j])
                &&& content_at_pos(log, f, j) == current_of(log.take(j + 1), f)
            },
{
    lemma_history_element(log, f, n);
    let h = history_seq(log, f)[n];
    let j = choose|j: int|
        0 <= j < log.len() && (#[trigger] log[j]).filename@ == f && log[j].info == h;
    assert(log[j].info.id@ == commit_id_of(j as nat));
    lemma_hex_seq_len(j as nat, crate::ids::id_width());
    assert(is_prefix_of(h.id@, log[j].info.id@)) by {
        assert(log[j].info.id@.subrange(0, log[j].info.id@.len() as int) =~= log[j].info.id@);
    }
    assert forall|j2: int|
        j < j2 < log.len() implies !((#[trigger] log[j2]).filename@ == f && is_prefix_of(
        h.id@,
        log[j2].info.id@,
    )) by {
        if log[j2].filename@ == f && is_prefix_of(h.id@, log[j2].info.id@) {
            assert(log[j2].info.id@ == commit_id_of(j2 as nat));
            lemma_commit_id_prefix_full(j as nat, j2 as nat);
        }
    }
    lemma_resolve_pins(log, f, h.id@, log.len() - 1, j);
    assert(content_at_pos(log, f, j) == change_view(log[j]));
    lemma_content_at_agree(log, log.take(j + 1), f, j);
    assert(content_at_pos(log.take(j + 1), f, j) == current_of(log.take(j + 1), f));
}

/// Deleting a document and re-creating the same filename at a later
/// clock reading produces a fresh metadata row: a new surrogate key and
/// a `created_at` strictly above the original's.
pub proof fn law_recreate_is_fresh(
    docs0: Seq<DocM>,
    tags0: Seq<TagM>,
    assocs0: Seq<AssocM>,
    next0: int,
    docs1: Seq<DocM>,
    tags1: Seq<TagM>,
    assocs1: Seq<AssocM>,
    docs2: Seq<DocM>,
    tags2: Seq<TagM>,
    assocs2: Seq<AssocM>,
    next2: int,
    f: Seq<char>,
    title: Option<Seq<char>>,
    names: Seq<String>,
    now2: int,
    id2: int,
)
    requires
        index_wf(docs0, tags0, assocs0, next0),
        has_doc(docs0, f),
        delete_post(docs0, tags0, assocs0, docs1, tags1, assocs1, f),
        upsert_tags_post(
            docs1,
            tags1,
            assocs1,
            next0,
            docs2,
            tags2,
            assocs2,
            next2,
            f,
            title,
            names,
            now2,
            id2,
        ),
        index_wf(docs2, tags2, assocs2, next2),
        now2 > docs0[doc_idx(docs0, f)].created_at,
    ensures
        has_doc(docs2, f),
        docs2[doc_idx(docs2, f)].created_at == now2,
        docs2[doc_idx(docs2, f)].created_at > docs0[doc_idx(docs0, f)].created_at,
        docs2[doc_idx(docs2, f)].id != docs0[doc_idx(docs0, f)].id,
{
    let i = doc_idx(docs0, f);
    assert(0 <= i < docs0.len() && docs0[i].filename == f);
    // after the deletion no row is named `f`
    assert(!has_doc(docs1, f)) by {
        if has_doc(docs1, f) {
            let w = choose|w: int| 0 <= w < docs1.len() && (#[trigger] docs1[w]).filename == f;
            let w0: int = if w < i {
                w
            } else {
                w + 1
            };
            assert(docs1[w] == docs0[w0]);
            assert(docs0[w0].filename == docs0[i].filename);
            assert(w0 != i);
        }
    }
    // so the re-creation pushed a fresh row
    let fresh = DocM {
        id: next0,
        filename: f,
        title: title,
        created_at: now2,
        updated_at: now2,
        view_count: 0,
    };
    assert(docs2 == docs1.push(fresh));
    assert(docs2[docs1.len() as int] == fresh);
    assert(has_doc(docs2, f));
    let c = doc_idx(docs2, f);
    assert(0 <= c < docs2.len() && docs2[c].filename == f);
    if c != docs1.len() as int {
        assert(docs2[c].filename == docs2[docs1.len() as int].filename);
        assert(false);
    }
    assert(docs2[c].created_at == now2);
    assert(0 <= docs0[i].id < next0);
}

/// The orphan-tag invariant: in any well-formed index — and every
/// mutating operation ends in one — every tag row is referenced by at
/// least one association.
pub proof fn law_no_orphan_tags(
    docs: Seq<DocM>,
    tags: Seq<TagM>,
    assocs: Seq<AssocM>,
    next_id: int,
)
    requires
        index_wf(docs, tags, assocs, next_id),
    ensures
        forall|i: int| 0 <= i < tags.len() ==> tag_referenced(assocs, (#[trigger] tags[i]).id),
{
}

} // verus!
