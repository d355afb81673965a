//! Case-insensitive substring search across all current documents.
//! Lowercasing is delegated to the standard library; everything around
//! it — counting occurrences, picking the preview line, ordering the
//! results — is verified.

use vstd::prelude::*;
use crate::errors::AppError;
use crate::seq_facts::{lemma_distinct_covers, lemma_some_index_free};
use crate::store::DocumentStore;

verus! {

/// What `str::to_lowercase` returns for a given character sequence: a
/// pure function of the characters alone.
pub uninterp spec fn lower_of(s: Seq<char>) -> Seq<char>;

/// Relies on `str::to_lowercase`: the result depends on the characters
/// alone, and each character lowercases to at least one character, so a
/// non-empty string stays non-empty.
#[verifier::external_body]
fn lowercase(s: &str) -> (r: String)
    ensures
        r@ == lower_of(s@),
        s@.len() > 0 ==> r@.len() > 0,
{
    s.to_lowercase()
}

/// The pattern `pat` occurs in `text` at position `i`.
pub open spec fn occurs_at(text: Seq<char>, pat: Seq<char>, i: int) -> bool {
    0 <= i && i + pat.len() <= text.len() && text.subrange(i, i + pat.len() as int) == pat
}

/// How many non-overlapping occurrences a left-to-right scan starting
/// at `i` finds: each match consumes the matched span.
pub open spec fn count_from(text: Seq<char>, pat: Seq<char>, i: int) -> int
    decreases text.len() - i,
{
    if pat.len() == 0 || i < 0 || i + pat.len() > text.len() {
        0
    } else if occurs_at(text, pat, i) {
        1 + count_from(text, pat, i + pat.len())
    } else {
        count_from(text, pat, i + 1)
    }
}

/// How many non-overlapping times the pattern occurs in the text.
pub open spec fn total_count(text: Seq<char>, pat: Seq<char>) -> int {
    count_from(text, pat, 0)
}

/// A positive count exhibits an occurrence.
proof fn lemma_count_pos(text: Seq<char>, pat: Seq<char>, i: int)
    requires
        count_from(text, pat, i) > 0,
    ensures
        exists|j: int| i <= j && occurs_at(text, pat, j),
    decreases text.len() - i,
{
    if !occurs_at(text, pat, i) {
        lemma_count_pos(text, pat, i + 1);
        let j = choose|j: int| i + 1 <= j && occurs_at(text, pat, j);
        assert(i <= j && occurs_at(text, pat, j));
    }
}

/// Whether the pattern occurs at position `i`.
fn match_at(text: &str, pat: &str, i: usize) -> (r: bool)
    requires
        i + pat@.len() <= text@.len(),
    ensures
        r == occurs_at(text@, pat@, i as int),
{
    let tl = text.unicode_len();
    let pl = pat.unicode_len();
    let mut j: usize = 0;
    while j < pl
        invariant
            tl == text@.len(),
            pl == pat@.len(),
            i + pl <= tl,
            j <= pl,
            forall|k: int| 0 <= k < j ==> text@[i + k] == pat@[k],
        decreases pl - j,
    {
        if text.get_char(i + j) != pat.get_char(j) {
            assert(!occurs_at(text@, pat@, i as int)) by {
                assert(text@.subrange(i as int, i + pat@.len() as int)[j as int] != pat@[j as int]);
            }
            return false;
        }
        j = j + 1;
    }
    proof {
        assert(text@.subrange(i as int, i + pat@.len() as int) =~= pat@);
    }
    true
}

/// How many non-overlapping times the pattern occurs in the text.
fn count_occurrences(text: &str, pat: &str) -> (n: usize)
    requires
        pat@.len() > 0,
    ensures
        n as int == total_count(text@, pat@),
{
    let tl = text.unicode_len();
    let pl = pat.unicode_len();
    if pl > tl {
        return 0;
    }
    let mut n: usize = 0;
    let mut i: usize = 0;
    while i <= tl - pl
        invariant
            tl == text@.len(),
            pl == pat@.len(),
            0 < pl <= tl,
            i <= tl,
            n + count_from(text@, pat@, i as int) == total_count(text@, pat@),
            n <= i,
        decreases tl - i,
    {
        if match_at(text, pat, i) {
            n = n + 1;
            i = i + pl;
        } else {
            i = i + 1;
        }
    }
    n
}

/// The first position the pattern occurs at, if it occurs anywhere.
fn find_first(text: &str, pat: &str) -> (r: Option<usize>)
    requires
        pat@.len() > 0,
    ensures
        match r {
            Some(i) => occurs_at(text@, pat@, i as int) && forall|j: int|
                0 <= j < i ==> !occurs_at(text@, pat@, j),
            None => forall|j: int| !occurs_at(text@, pat@, j),
        },
{
    let tl = text.unicode_len();
    let pl = pat.unicode_len();
    if pl > tl {
        return None;
    }
    let mut i: usize = 0;
    while i <= tl - pl
        invariant
            tl == text@.len(),
            pl == pat@.len(),
            0 < pl <= tl,
            i <= tl - pl + 1,
            forall|j: int| 0 <= j < i ==> !occurs_at(text@, pat@, j),
        decreases tl - pl + 1 - i,
    {
        if match_at(text, pat, i) {
            return Some(i);
        }
        i = i + 1;
    }
    None
}

/// The code points `str::trim` strips: the characters with the
/// Unicode `White_Space` property.
pub open spec fn is_ws(c: char) -> bool {
    ||| c == ' '
    ||| c == '\t'
    ||| c == '\n'
    ||| c == '\r'
    ||| c == '\u{0B}'
    ||| c == '\u{0C}'
    ||| c == '\u{85}'
    ||| c == '\u{A0}'
    ||| c == '\u{1680}'
    ||| ('\u{2000}' <= c && c <= '\u{200A}')
    ||| c == '\u{2028}'
    ||| c == '\u{2029}'
    ||| c == '\u{202F}'
    ||| c == '\u{205F}'
    ||| c == '\u{3000}'
}

/// Decides `is_ws`.
fn is_space(c: char) -> (r: bool)
    ensures
        r == is_ws(c),
{
    let u = c as u32;
    u == 0x20 || u == 0x09 || u == 0x0A || u == 0x0D || u == 0x0B || u == 0x0C || u == 0x85 || u
        == 0xA0 || u == 0x1680 || (0x2000 <= u && u <= 0x200A) || u == 0x2028 || u == 0x2029 || u
        == 0x202F || u == 0x205F || u == 0x3000
}

/// The start of the line containing position `p`: just after the
/// previous newline, or the start of the text.
fn line_start(text: &str, p: usize) -> (s: usize)
    requires
        p <= text@.len(),
    ensures
        s <= p,
        s == 0 || text@[s - 1] == '\n',
        forall|k: int| s <= k < p ==> text@[k] != '\n',
{
    let mut s: usize = p;
    while s > 0
        invariant
            p <= text@.len(),
            s <= p,
            forall|k: int| s <= k < p ==> text@[k] != '\n',
        decreases s,
    {
        if text.get_char(s - 1) == '\n' {
            return s;
        }
        s = s - 1;
    }
    s
}

/// The end of the line containing position `p`: the next newline at or
/// after `p`, or the end of the text.
fn line_end(text: &str, p: usize) -> (e: usize)
    requires
        p <= text@.len(),
    ensures
        p <= e <= text@.len(),
        e == text@.len() || text@[e as int] == '\n',
        forall|k: int| p <= k < e ==> text@[k] != '\n',
{
    let tl = text.unicode_len();
    let mut e: usize = p;
    while e < tl
        invariant
            tl == text@.len(),
            p <= e <= tl,
            forall|k: int| p <= k < e ==> text@[k] != '\n',
        decreases tl - e,
    {
        if text.get_char(e) == '\n' {
            return e;
        }
        e = e + 1;
    }
    e
}

/// One matching document: its name, the (lowercased) line around the
/// first occurrence, and how many times the query occurs.
pub struct SearchResult {
    pub filename: String,
    pub content_preview: String,
    pub matches: usize,
}

/// All matching documents, most matches first.
pub struct SearchResults {
    pub results: Vec<SearchResult>,
    pub query: String,
    pub total_matches: usize,
}

/// `prev` is the line of `low` around the first occurrence of `q`,
/// with leading and trailing whitespace stripped.
pub open spec fn preview_of(prev: Seq<char>, low: Seq<char>, q: Seq<char>) -> bool {
    exists|p: int, s: int, e: int, s2: int, e2: int|
        #![trigger occurs_at(low, q, p), low.subrange(s, e), low.subrange(s2, e2)]
        {
            &&& occurs_at(low, q, p)
            &&& forall|j: int| 0 <= j < p ==> !occurs_at(low, q, j)
            &&& 0 <= s <= p
            &&& s == 0 || low[s - 1] == '\n'
            &&& forall|k: int| s <= k < p ==> low[k] != '\n'
            &&& p <= e <= low.len()
            &&& e == low.len() || low[e] == '\n'
            &&& forall|k: int| p <= k < e ==> low[k] != '\n'
            &&& s <= s2 <= e2 <= e
            &&& forall|k: int| s <= k < s2 ==> is_ws(low[k])
            &&& forall|k: int| e2 <= k < e ==> is_ws(low[k])
            &&& s2 == e2 || (!is_ws(low[s2]) && !is_ws(low[e2 - 1]))
            &&& prev == low.subrange(s2, e2)
        }
}

/// The result entry is correct for its document under the store's
/// current content.
pub open spec fn good_result(
    res: SearchResult,
    cm: Map<Seq<char>, Seq<char>>,
    q: Seq<char>,
) -> bool {
    &&& cm.contains_key(res.filename@)
    &&& res.matches as int == total_count(lower_of(cm[res.filename@]), q)
    &&& res.matches > 0
    &&& preview_of(res.content_preview@, lower_of(cm[res.filename@]), q)
}

/// The sum of the match counts, topping out at the largest
/// representable value.
pub open spec fn sat_sum(rs: Seq<SearchResult>) -> int
    decreases rs.len(),
{
    if rs.len() == 0 {
        0
    } else {
        let rest = sat_sum(rs.drop_last());
        if rest + rs.last().matches <= usize::MAX {
            rest + rs.last().matches
        } else {
            usize::MAX as int
        }
    }
}

/// Builds the result entry for one matching document: the first
/// occurrence's line, trimmed, with the match count.
fn make_result(filename: &str, low: &String, q: &String, m: usize) -> (res: SearchResult)
    requires
        q@.len() > 0,
        m as int == total_count(low@, q@),
        m > 0,
    ensures
        res.filename@ == filename@,
        res.matches == m,
        preview_of(res.content_preview@, low@, q@),
{
    let p = match find_first(low.as_str(), q.as_str()) {
        Some(p) => p,
        None => {
            proof {
                lemma_count_pos(low@, q@, 0);
                assert(false);
            }
            0
        },
    };
    let s = line_start(low.as_str(), p);
    let e = line_end(low.as_str(), p);
    proof {
        assert(p + q@.len() <= low@.len());
    }
    let mut s2: usize = s;
    while s2 < e && is_space(low.as_str().get_char(s2))
        invariant
            s <= s2 <= e <= low@.len(),
            forall|k: int| s <= k < s2 ==> is_ws(low@[k]),
        decreases e - s2,
    {
        s2 = s2 + 1;
    }
    let mut e2: usize = e;
    while e2 > s2 && is_space(low.as_str().get_char(e2 - 1))
        invariant
            s <= s2 <= e2 <= e <= low@.len(),
            forall|k: int| e2 <= k < e ==> is_ws(low@[k]),
        decreases e2,
    {
        e2 = e2 - 1;
    }
    let prev = String::from_str(low.as_str().substring_char(s2, e2));
    let res = SearchResult {
        filename: String::from_str(filename),
        content_preview: prev,
        matches: m,
    };
    proof {
        assert(preview_of(res.content_preview@, low@, q@)) by {
            if s2 != e2 {
                assert(s2 < e2);
                assert(!is_ws(low@[s2 as int]));
                assert(!is_ws(low@[e2 as int - 1]));
            }
            let line = low@.subrange(s as int, e as int);
            assert(line.len() == e - s);
            assert(occurs_at(low@, q@, p as int) && 0 <= s as int <= p as int && p as int
                <= e as int <= low@.len() && s as int <= s2 as int <= e2 as int <= e as int
                && res.content_preview@ == low@.subrange(s2 as int, e2 as int));
        }
    }
    res
}

/// Gathers one result per document whose lowercased body contains the
/// lowercased query.
#[verifier::rlimit(80)]
fn collect_matches(store: &DocumentStore, query: &str, q: &String) -> (found: Vec<SearchResult>)
    requires
        store.wf(),
        q@ == lower_of(query@),
        q@.len() > 0,
    ensures
        forall|k: int|
            0 <= k < found@.len() ==> good_result(#[trigger] found@[k], store.content_map(), q@),
        forall|k1: int, k2: int|
            0 <= k1 < k2 < found@.len() ==> (#[trigger] found@[k1]).filename@ != (
            #[trigger] found@[k2]).filename@,
        forall|a: int|
            0 <= a < store.content_names().len() ==> total_count(
                lower_of(store.content_map()[#[trigger] store.content_names()[a]]),
                q@,
            ) == 0 || exists|k: int|
                0 <= k < found@.len() && (#[trigger] found@[k]).filename@
                    == store.content_names()[a],
{
    let names = store.list_documents();
    proof {
        store.lemma_list_names();
    }
    let ghost cm = store.content_map();
    let ghost cnames = store.content_names();
    let mut found: Vec<SearchResult> = Vec::new();
    let mut i: usize = 0;
    while i < names.len()
        invariant
            store.wf(),
            q@ == lower_of(query@),
            q@.len() > 0,
            cm == store.content_map(),
            cnames == store.content_names(),
            names@.map(|k: int, s: String| s@) == cnames,
            forall|a: int, b: int| 0 <= a < b < cnames.len() ==> cnames[a] != cnames[b],
            forall|a: int| 0 <= a < cnames.len() ==> cm.contains_key(#[trigger] cnames[a]),
            i <= names@.len(),
            forall|k: int| 0 <= k < found@.len() ==> good_result(#[trigger] found@[k], cm, q@),
            forall|k: int|
                0 <= k < found@.len() ==> exists|a: int|
                    0 <= a < i && (#[trigger] found@[k]).filename@ == cnames[a],
            forall|k1: int, k2: int|
                0 <= k1 < k2 < found@.len() ==> (#[trigger] found@[k1]).filename@ != (
                #[trigger] found@[k2]).filename@,
            forall|a: int|
                0 <= a < i ==> total_count(lower_of(cm[#[trigger] cnames[a]]), q@) == 0 || exists|
                    k: int,
                |
                    0 <= k < found@.len() && (#[trigger] found@[k]).filename@ == cnames[a],
        decreases names@.len() - i,
    {
        let name = &names[i];
        proof {
            assert(name@ == cnames[i as int]);
            assert(cm.contains_key(name@));
        }
        let body = match store.get_document(name.as_str()) {
            Some(b) => b,
            None => {
                proof {
                    assert(false);
                }
                String::new()
            },
        };
        let low = lowercase(body.as_str());
        let m = count_occurrences(low.as_str(), q.as_str());
        let ghost found_pre = found@;
        if m > 0 {
            let res = make_result(name.as_str(), &low, &q, m);
            found.push(res);
            proof {
                assert(low@ == lower_of(cm[name@]));
                assert(good_result(found@[found@.len() - 1], cm, q@));
                assert forall|k1: int, k2: int|
                    0 <= k1 < k2 < found@.len() implies (#[trigger] found@[k1]).filename@ != (
                #[trigger] found@[k2]).filename@ by {
                    if k2 == found@.len() - 1 {
                        let a = choose|a: int|
                            0 <= a < i && (#[trigger] found_pre[k1]).filename@ == cnames[a];
                        assert(found@[k1] == found_pre[k1]);
                        assert(cnames[a] != cnames[i as int]);
                    }
                }
            }
        }
        proof {
            assert forall|a: int|
                0 <= a < i + 1 implies total_count(lower_of(cm[#[trigger] cnames[a]]), q@) == 0
                || exists|k: int|
                0 <= k < found@.len() && (#[trigger] found@[k]).filename@ == cnames[a] by {
                if a < i {
                    if total_count(lower_of(cm[cnames[a]]), q@) != 0 {
                        let k = choose|k: int|
                            0 <= k < found_pre.len() && (#[trigger] found_pre[k]).filename@
                                == cnames[a];
                        assert(found@[k] == found_pre[k]);
                    }
                } else {
                    if total_count(lower_of(cm[cnames[a]]), q@) != 0 {
                        assert(found@[found@.len() - 1].filename@ == cnames[a]);
                    }
                }
            }
        }
        i = i + 1;
    }
    found
}

/// Reorders the results so that higher match counts come first.
fn sort_results(found: Vec<SearchResult>) -> (results: Vec<SearchResult>)
    requires
        forall|k1: int, k2: int|
            0 <= k1 < k2 < found@.len() ==> (#[trigger] found@[k1]).filename@ != (
            #[trigger] found@[k2]).filename@,
    ensures
        results@.len() == found@.len(),
        forall|k: int| 0 <= k < results@.len() ==> found@.contains(#[trigger] results@[k]),
        forall|j: int| 0 <= j < found@.len() ==> results@.contains(#[trigger] found@[j]),
        forall|a: int, b: int|
            0 <= a <= b < results@.len() ==> (#[trigger] results@[a]).matches >= (
            #[trigger] results@[b]).matches,
        forall|k1: int, k2: int|
            0 <= k1 < k2 < results@.len() ==> (#[trigger] results@[k1]).filename@ != (
            #[trigger] results@[k2]).filename@,
{
    let n = found.len();
    let mut picked: Vec<bool> = vec![false; n];
    let mut results: Vec<SearchResult> = Vec::new();
    let ghost mut sel: Seq<int> = Seq::empty();
    while results.len() < n
        invariant
            n == found@.len(),
            picked@.len() == n,
            results@.len() <= n,
            sel.len() == results@.len(),
            forall|k: int|
                0 <= k < sel.len() ==> 0 <= #[trigger] sel[k] < n && results@[k] == found@[sel[k]],
            forall|k1: int, k2: int| 0 <= k1 < k2 < sel.len() ==> sel[k1] != sel[k2],
            forall|j: int| 0 <= j < n ==> #[trigger] picked@[j] == sel.contains(j),
            forall|a: int, b: int|
                0 <= a <= b < results@.len() ==> (#[trigger] results@[a]).matches >= (
                #[trigger] results@[b]).matches,
            results@.len() > 0 ==> forall|j: int|
                0 <= j < n && !picked@[j] ==> (#[trigger] found@[j]).matches
                    <= results@[results@.len() - 1].matches,
        decreases n - results@.len(),
    {
        let mut best: usize = 0;
        let mut have: bool = false;
        let mut j: usize = 0;
        while j < n
            invariant
                n == found@.len(),
                picked@.len() == n,
                j <= n,
                have ==> best < n && !picked@[best as int],
                have ==> forall|p: int|
                    0 <= p < j && !picked@[p] ==> (#[trigger] found@[p]).matches
                        <= found@[best as int].matches,
                !have ==> forall|p: int| 0 <= p < j ==> #[trigger] picked@[p],
            decreases n - j,
        {
            if !picked[j] {
                if !have || found[j].matches > found[best].matches {
                    best = j;
                    have = true;
                }
            }
            j = j + 1;
        }
        if !have {
            proof {
                lemma_some_index_free(sel, n as int);
                let w = choose|w: int| 0 <= w < n && !sel.contains(w);
                assert(picked@[w]);
                assert(false);
            }
        }
        let copy = SearchResult {
            filename: found[best].filename.clone(),
            content_preview: found[best].content_preview.clone(),
            matches: found[best].matches,
        };
        proof {
            assert(copy == found@[best as int]);
        }
        let ghost r_old = results@;
        results.push(copy);
        picked[best] = true;
        proof {
            let sel_old = sel;
            sel = sel.push(best as int);
            assert(sel.drop_last() =~= sel_old);
            assert forall|jj: int| 0 <= jj < n implies #[trigger] picked@[jj] == sel.contains(
                jj,
            ) by {
                if jj == best as int {
                    assert(sel[sel.len() - 1] == jj);
                    assert(sel.contains(jj));
                } else {
                    if sel_old.contains(jj) {
                        let w = choose|w: int| 0 <= w < sel_old.len() && sel_old[w] == jj;
                        assert(sel[w] == jj);
                        assert(sel.contains(jj));
                    }
                    if sel.contains(jj) {
                        let w = choose|w: int| 0 <= w < sel.len() && sel[w] == jj;
                        assert(w != sel.len() - 1);
                        assert(sel_old[w] == jj);
                        assert(sel_old.contains(jj));
                    }
                }
            }
            assert forall|a: int, b: int| 0 <= a <= b < results@.len() implies (
            #[trigger] results@[a]).matches >= (#[trigger] results@[b]).matches by {
                if b == results@.len() - 1 && a < b {
                    assert(results@[a] == r_old[a]);
                    assert(r_old[a].matches >= r_old[r_old.len() - 1].matches);
                }
            }
        }
    }
    proof {
        lemma_distinct_covers(sel, n as int);
        assert forall|j: int| 0 <= j < found@.len() implies results@.contains(
            #[trigger] found@[j],
        ) by {
            assert(sel.contains(j));
            let k = choose|k: int| 0 <= k < sel.len() && sel[k] == j;
            assert(results@[k] == found@[j]);
        }
        assert forall|k: int| 0 <= k < results@.len() implies found@.contains(
            #[trigger] results@[k],
        ) by {
            assert(results@[k] == found@[sel[k]]);
        }
        assert forall|k1: int, k2: int|
            0 <= k1 < k2 < results@.len() implies (#[trigger] results@[k1]).filename@ != (
        #[trigger] results@[k2]).filename@ by {
            assert(results@[k1] == found@[sel[k1]]);
            assert(results@[k2] == found@[sel[k2]]);
            if sel[k1] < sel[k2] {
                assert(found@[sel[k1]].filename@ != found@[sel[k2]].filename@);
            } else {
                assert(found@[sel[k2]].filename@ != found@[sel[k1]].filename@);
            }
        }
    }
    results
}

/// Adds up the match counts, topping out at the largest representable
/// value.
fn sum_results(results: &Vec<SearchResult>) -> (total: usize)
    ensures
        total as int == sat_sum(results@),
{
    let mut total: usize = 0;
    let mut t: usize = 0;
    proof {
        assert(results@.take(0) =~= Seq::<SearchResult>::empty());
    }
    while t < results.len()
        invariant
            t <= results@.len(),
            total as int == sat_sum(results@.take(t as int)),
        decreases results@.len() - t,
    {
        let m = results[t].matches;
        if total > usize::MAX - m {
            total = usize::MAX;
        } else {
            total = total + m;
        }
        proof {
            assert(results@.take(t as int + 1).drop_last() =~= results@.take(t as int));
            assert(results@.take(t as int + 1).last() == results@[t as int]);
        }
        t = t + 1;
    }
    proof {
        assert(results@.take(results@.len() as int) =~= results@);
    }
    total
}

/// Scans every current document for the query, case-insensitively.
/// Fails with `InvalidInput` exactly on an empty query. On success the
/// result lists, most matches first, exactly the documents whose
/// lowercased body contains the lowercased query, each with its exact
/// match count and the line of its first match.
#[verifier::rlimit(60)]
pub fn search_documents(store: &DocumentStore, query: &str) -> (r: Result<SearchResults, AppError>)
    requires
        store.wf(),
    ensures
        r is Err <==> query@.len() == 0,
        r matches Err(e) ==> e == AppError::InvalidInput,
        r matches Ok(sr) ==> {
            let q = lower_of(query@);
            let cm = store.content_map();
            &&& sr.query@ == q
            &&& forall|k: int|
                0 <= k < sr.results@.len() ==> good_result(#[trigger] sr.results@[k], cm, q)
            &&& forall|k1: int, k2: int|
                0 <= k1 < k2 < sr.results@.len() ==> (#[trigger] sr.results@[k1]).filename@ != (
                #[trigger] sr.results@[k2]).filename@
            &&& forall|a: int, b: int|
                0 <= a <= b < sr.results@.len() ==> (#[trigger] sr.results@[a]).matches >= (
                #[trigger] sr.results@[b]).matches
            &&& forall|i: int|
                0 <= i < store.content_names().len() ==> total_count(
                    lower_of(cm[#[trigger] store.content_names()[i]]),
                    q,
                ) == 0 || exists|k: int|
                    0 <= k < sr.results@.len() && (#[trigger] sr.results@[k]).filename@
                        == store.content_names()[i]
            &&& sr.total_matches as int == sat_sum(sr.results@)
        },
{
    if query.unicode_len() == 0 {
        return Err(AppError::InvalidInput);
    }
    let q = lowercase(query);
    let found = collect_matches(store, query, &q);
    let ghost found_v = found@;
    let results = sort_results(found);
    let total = sum_results(&results);
    let out = SearchResults { results, query: q, total_matches: total };
    proof {
        let cm = store.content_map();
        assert forall|k: int| 0 <= k < out.results@.len() implies good_result(
            #[trigger] out.results@[k],
            cm,
            out.query@,
        ) by {
            assert(found_v.contains(out.results@[k]));
            let j = choose|j: int| 0 <= j < found_v.len() && found_v[j] == out.results@[k];
            assert(good_result(found_v[j], cm, out.query@));
        }
        assert forall|i: int|
            0 <= i < store.content_names().len() implies total_count(
            lower_of(cm[#[trigger] store.content_names()[i]]),
            out.query@,
        ) == 0 || exists|k: int|
            0 <= k < out.results@.len() && (#[trigger] out.results@[k]).filename@
                == store.content_names()[i] by {
            if total_count(lower_of(cm[store.content_names()[i]]), out.query@) != 0 {
                let kf = choose|kf: int|
                    0 <= kf < found_v.len() && (#[trigger] found_v[kf]).filename@
                        == store.content_names()[i];
                assert(out.results@.contains(found_v[kf]));
                let k = choose|k: int|
                    0 <= k < out.results@.len() && out.results@[k] == found_v[kf];
                assert(out.results@[k].filename@ == store.content_names()[i]);
            }
        }
    }
    Ok(out)
}

} // verus!
