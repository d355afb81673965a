//! The history engine: a linear, append-only commit log over the
//! content directory. Each mutating store operation adds exactly one
//! commit, which records the file it touched and either that file's new
//! body or its deletion. Any past state of a file can be replayed from
//! the log.

use vstd::prelude::*;
use crate::errors::AppError;
use crate::ids::{commit_id_of, commit_id_string, lemma_commit_id_distinct};
use crate::text::{is_prefix_of, str_eq, str_starts_with};

verus! {

/// What a commit reports about itself.
pub struct CommitInfo {
    /// The commit's identifier: its log position in fixed-width hex.
    pub id: String,
    pub author: String,
    pub message: String,
    pub timestamp: i64,
}

impl Clone for CommitInfo {
    fn clone(&self) -> (r: Self)
        ensures
            r == *self,
    {
        let r = CommitInfo {
            id: self.id.clone(),
            author: self.author.clone(),
            message: self.message.clone(),
            timestamp: self.timestamp,
        };
        r
    }
}

/// One entry of the log: the commit's metadata, the file it touched,
/// and the file's body after the commit (`None` records a deletion).
pub struct CommitRecord {
    pub info: CommitInfo,
    pub filename: String,
    pub change: Option<String>,
}

/// The body recorded by a commit, as a sequence of characters.
pub open spec fn change_view(r: CommitRecord) -> Option<Seq<char>> {
    match r.change {
        Some(b) => Some(b@),
        None => None,
    }
}

/// Every commit is identified by its log position.
pub open spec fn ids_ok(log: Seq<CommitRecord>) -> bool {
    forall|i: int| 0 <= i < log.len() ==> (#[trigger] log[i].info.id)@ == commit_id_of(i as nat)
}

/// Commit timestamps never decrease along the log.
pub open spec fn ts_sorted(log: Seq<CommitRecord>) -> bool {
    forall|i: int, j: int|
        0 <= i <= j < log.len() ==> #[trigger] log[i].info.timestamp <= #[trigger] log[j].info.timestamp
}

pub open spec fn wf_log(log: Seq<CommitRecord>) -> bool {
    ids_ok(log) && ts_sorted(log)
}

/// The timestamp actually recorded when a commit arrives carrying
/// clock reading `t`: the reading, unless the log head is younger.
pub open spec fn eff_ts(log: Seq<CommitRecord>, t: i64) -> i64 {
    if log.len() == 0 || t >= log.last().info.timestamp {
        t
    } else {
        log.last().info.timestamp
    }
}

/// The infos of the commits that touched `f`, newest first.
pub open spec fn history_seq(log: Seq<CommitRecord>, f: Seq<char>) -> Seq<CommitInfo>
    decreases log.len(),
{
    if log.len() == 0 {
        Seq::empty()
    } else {
        let tail = history_seq(log.drop_last(), f);
        if log.last().filename@ == f {
            seq![log.last().info] + tail
        } else {
            tail
        }
    }
}

/// The body of `f` as of log position `j`: what the latest commit at or
/// before `j` that touched `f` recorded (`None` when `f` did not exist
/// in that snapshot).
pub open spec fn content_at_pos(log: Seq<CommitRecord>, f: Seq<char>, j: int) -> Option<Seq<char>>
    decreases j + 1,
{
    if j < 0 || j >= log.len() {
        None
    } else if log[j].filename@ == f {
        change_view(log[j])
    } else {
        content_at_pos(log, f, j - 1)
    }
}

/// The newest log position at or below `j` whose commit touched `f` and
/// whose identifier starts with `p`.
pub open spec fn resolve_from(log: Seq<CommitRecord>, f: Seq<char>, p: Seq<char>, j: int) -> Option<
    int,
>
    decreases j + 1,
{
    if j < 0 || j >= log.len() {
        None
    } else if log[j].filename@ == f && is_prefix_of(p, log[j].info.id@) {
        Some(j)
    } else {
        resolve_from(log, f, p, j - 1)
    }
}

/// The body of `f` in the newest snapshot of the log.
pub open spec fn current_of(log: Seq<CommitRecord>, f: Seq<char>) -> Option<Seq<char>> {
    content_at_pos(log, f, log.len() - 1)
}

/// Replay depends only on the log up to the position inspected.
pub proof fn lemma_content_at_agree(
    s1: Seq<CommitRecord>,
    s2: Seq<CommitRecord>,
    f: Seq<char>,
    j: int,
)
    requires
        forall|p: int| 0 <= p <= j ==> s1[p] == s2[p],
        j < s1.len(),
        j < s2.len(),
    ensures
        content_at_pos(s1, f, j) == content_at_pos(s2, f, j),
    decreases j + 1,
{
    if j >= 0 && s1[j].filename@ != f {
        lemma_content_at_agree(s1, s2, f, j - 1);
    }
}

/// Appending a commit rewrites the current body of the file it touches
/// and leaves every other file's current body unchanged.
pub proof fn lemma_current_push(log: Seq<CommitRecord>, r: CommitRecord, f: Seq<char>)
    ensures
        current_of(log.push(r), f) == if r.filename@ == f {
            change_view(r)
        } else {
            current_of(log, f)
        },
{
    let s = log.push(r);
    assert(s[s.len() - 1] == r);
    if r.filename@ != f {
        lemma_content_at_agree(s, log, f, log.len() - 1);
    }
}

/// Whether any commit in the log ever touched `f`.
pub open spec fn tracked_in(log: Seq<CommitRecord>, f: Seq<char>) -> bool {
    exists|i: int| 0 <= i < log.len() && (#[trigger] log[i]).filename@ == f
}

/// Appending a commit prepends its info to the history of the file it
/// touches and leaves every other file's history unchanged.
pub proof fn lemma_history_push(log: Seq<CommitRecord>, r: CommitRecord, f: Seq<char>)
    ensures
        history_seq(log.push(r), f) == if r.filename@ == f {
            seq![r.info] + history_seq(log, f)
        } else {
            history_seq(log, f)
        },
{
    assert(log.push(r).drop_last() =~= log);
    if r.filename@ != f {
        assert(history_seq(log.push(r), f) =~= history_seq(log, f));
    }
}

/// Each entry of a file's history is the info of a commit that touched
/// the file.
pub proof fn lemma_history_element(log: Seq<CommitRecord>, f: Seq<char>, n: int)
    requires
        0 <= n < history_seq(log, f).len(),
    ensures
        exists|j: int|
            0 <= j < log.len() && (#[trigger] log[j]).filename@ == f && log[j].info
                == history_seq(log, f)[n],
    decreases log.len(),
{
    let h = history_seq(log, f);
    if log.last().filename@ == f && n == 0 {
        assert(log[log.len() - 1].filename@ == f && log[log.len() - 1].info == h[0]);
    } else {
        let tail = history_seq(log.drop_last(), f);
        let m: int = if log.last().filename@ == f {
            n - 1
        } else {
            n
        };
        lemma_history_element(log.drop_last(), f, m);
        let j = choose|j: int|
            0 <= j < log.drop_last().len() && (#[trigger] log.drop_last()[j]).filename@ == f
                && log.drop_last()[j].info == tail[m];
        assert(log[j].filename@ == f && log[j].info == h[n]);
    }
}

/// A file's history is ordered newest first: timestamps never increase
/// along it, and none exceeds the head commit's timestamp.
pub proof fn lemma_history_sorted(log: Seq<CommitRecord>, f: Seq<char>)
    requires
        ts_sorted(log),
    ensures
        forall|a: int, b: int|
            0 <= a <= b < history_seq(log, f).len() ==> #[trigger] history_seq(log, f)[a].timestamp
                >= #[trigger] history_seq(log, f)[b].timestamp,
        log.len() > 0 ==> forall|a: int|
            0 <= a < history_seq(log, f).len() ==> #[trigger] history_seq(log, f)[a].timestamp
                <= log.last().info.timestamp,
    decreases log.len(),
{
    if log.len() > 0 {
        let prefix = log.drop_last();
        assert(ts_sorted(prefix));
        lemma_history_sorted(prefix, f);
        let h = history_seq(log, f);
        let tail = history_seq(prefix, f);
        if prefix.len() > 0 {
            assert(prefix.last() == log[log.len() - 2]);
            assert(prefix.last().info.timestamp <= log.last().info.timestamp);
        }
        assert forall|a: int| 0 <= a < h.len() implies #[trigger] h[a].timestamp
            <= log.last().info.timestamp by {
            if log.last().filename@ == f {
                if a > 0 {
                    assert(h[a] == tail[a - 1]);
                }
            } else {
                assert(h[a] == tail[a]);
            }
        }
    }
}

/// The number of history entries equals the number of commits that
/// touched the file.
pub proof fn lemma_history_len(log: Seq<CommitRecord>, f: Seq<char>)
    ensures
        history_seq(log, f).len() == log.filter(|r: CommitRecord| r.filename@ == f).len(),
    decreases log.len(),
{
    reveal(Seq::filter);
    if log.len() > 0 {
        lemma_history_len(log.drop_last(), f);
    }
}

/// The single commit repository behind the store.
pub struct HistoryEngine {
    commits: Vec<CommitRecord>,
}

impl HistoryEngine {
    /// The commit log, oldest first.
    pub closed spec fn log(&self) -> Seq<CommitRecord> {
        self.commits@
    }

    pub open spec fn wf(&self) -> bool {
        wf_log(self.log())
    }

    pub fn new() -> (h: Self)
        ensures
            h.wf(),
            h.log() == Seq::<CommitRecord>::empty(),
    {
        let h = HistoryEngine { commits: Vec::new() };
        proof {
            assert(h.log() =~= Seq::<CommitRecord>::empty());
        }
        h
    }

    /// The number of commits in the log.
    pub fn len(&self) -> (n: usize)
        ensures
            n == self.log().len(),
    {
        self.commits.len()
    }

    /// The timestamp a new commit would record, given clock reading `t`.
    fn clamp_ts(&self, t: i64) -> (r: i64)
        ensures
            r == eff_ts(self.log(), t),
    {
        if self.commits.len() == 0 {
            t
        } else {
            let last = self.commits[self.commits.len() - 1].info.timestamp;
            if t >= last {
                t
            } else {
                last
            }
        }
    }

    /// Records that `filename` now has body `body`. Returns the new
    /// commit's identifier.
    pub fn commit(
        &mut self,
        filename: &str,
        body: &str,
        message: String,
        author: &str,
        timestamp: i64,
    ) -> (id: String)
        requires
            old(self).wf(),
        ensures
            final(self).wf(),
            final(self).log().len() == old(self).log().len() + 1,
            final(self).log().drop_last() == old(self).log(),
            final(self).log().last().filename@ == filename@,
            change_view(final(self).log().last()) == Some(body@),
            final(self).log().last().info.id@ == commit_id_of(old(self).log().len()),
            final(self).log().last().info.author@ == author@,
            final(self).log().last().info.message@ == message@,
            final(self).log().last().info.timestamp == eff_ts(old(self).log(), timestamp),
            id@ == commit_id_of(old(self).log().len()),
    {
        let ts = self.clamp_ts(timestamp);
        let id = commit_id_string(self.commits.len() as u64);
        let rec = CommitRecord {
            info: CommitInfo {
                id: id.clone(),
                author: String::from_str(author),
                message,
                timestamp: ts,
            },
            filename: String::from_str(filename),
            change: Some(String::from_str(body)),
        };
        self.commits.push(rec);
        proof {
            assert(final(self).log().drop_last() =~= old(self).log());
            assert forall|i: int| 0 <= i < self.log().len() implies (#[trigger] self.log()[i].info.id)@
                == commit_id_of(i as nat) by {
                if i < self.log().len() - 1 {
                    assert(old(self).log()[i].info.id@ == commit_id_of(i as nat));
                }
            }
        }
        id
    }

    /// Records the deletion of `filename`; refuses files the log never
    /// tracked. Returns the new commit's identifier on success.
    pub fn remove(
        &mut self,
        filename: &str,
        message: String,
        author: &str,
        timestamp: i64,
    ) -> (r: Result<String, AppError>)
        requires
            old(self).wf(),
        ensures
            final(self).wf(),
            r is Err <==> !tracked_in(old(self).log(), filename@),
            r matches Err(e) ==> e == AppError::NotFound && final(self).log() == old(self).log(),
            r is Ok ==> {
                &&& final(self).log().len() == old(self).log().len() + 1
                &&& final(self).log().drop_last() == old(self).log()
                &&& final(self).log().last().filename@ == filename@
                &&& change_view(final(self).log().last()) == None::<Seq<char>>
                &&& final(self).log().last().info.id@ == commit_id_of(old(self).log().len())
                &&& final(self).log().last().info.author@ == author@
                &&& final(self).log().last().info.message@ == message@
                &&& final(self).log().last().info.timestamp == eff_ts(old(self).log(), timestamp)
                &&& r matches Ok(id) && id@ == commit_id_of(old(self).log().len())
            },
    {
        if !self.ever_tracked(filename) {
            return Err(AppError::NotFound);
        }
        let ts = self.clamp_ts(timestamp);
        let id = commit_id_string(self.commits.len() as u64);
        let rec = CommitRecord {
            info: CommitInfo {
                id: id.clone(),
                author: String::from_str(author),
                message,
                timestamp: ts,
            },
            filename: String::from_str(filename),
            change: None,
        };
        self.commits.push(rec);
        proof {
            assert(final(self).log().drop_last() =~= old(self).log());
            assert forall|i: int| 0 <= i < self.log().len() implies (#[trigger] self.log()[i].info.id)@
                == commit_id_of(i as nat) by {
                if i < self.log().len() - 1 {
                    assert(old(self).log()[i].info.id@ == commit_id_of(i as nat));
                }
            }
        }
        Ok(id)
    }

    /// Whether any commit ever touched `filename`.
    pub fn ever_tracked(&self, filename: &str) -> (r: bool)
        ensures
            r == tracked_in(self.log(), filename@),
    {
        let mut i: usize = 0;
        while i < self.commits.len()
            invariant
                i <= self.log().len(),
                forall|j: int| 0 <= j < i ==> (#[trigger] self.log()[j]).filename@ != filename@,
            decreases self.log().len() - i,
        {
            if str_eq(self.commits[i].filename.as_str(), filename) {
                return true;
            }
            i = i + 1;
        }
        false
    }

    /// The commits that touched `filename`, newest first.
    pub fn history_of(&self, filename: &str) -> (r: Vec<CommitInfo>)
        ensures
            r@ == history_seq(self.log(), filename@),
    {
        let mut r: Vec<CommitInfo> = Vec::new();
        let mut i: usize = self.commits.len();
        proof {
            assert(self.log().skip(i as int) =~= Seq::<CommitRecord>::empty());
        }
        while i > 0
            invariant
                i <= self.log().len(),
                r@ == history_seq(self.log().skip(i as int), filename@),
            decreases i,
        {
            i = i - 1;
            if str_eq(self.commits[i].filename.as_str(), filename) {
                r.push(self.commits[i].info.clone());
            }
            proof {
                lemma_history_prepend(self.log()[i as int], self.log().skip(i as int + 1), filename@);
                assert(self.log().skip(i as int) =~= seq![self.log()[i as int]] + self.log().skip(
                    i as int + 1,
                ));
            }
        }
        proof {
            assert(self.log().skip(0) =~= self.log());
        }
        r
    }

    /// The most recent `limit` commits of the whole log, newest first.
    pub fn repo_history(&self, limit: usize) -> (r: Vec<CommitInfo>)
        ensures
            r@.len() == if limit < self.log().len() {
                limit as int
            } else {
                self.log().len() as int
            },
            forall|n: int|
                0 <= n < r@.len() ==> r@[n] == self.log()[self.log().len() - 1 - n].info,
    {
        let mut r: Vec<CommitInfo> = Vec::new();
        let mut i: usize = self.commits.len();
        while i > 0 && r.len() < limit
            invariant
                i <= self.log().len(),
                r@.len() == self.log().len() - i,
                r@.len() <= limit,
                forall|n: int|
                    0 <= n < r@.len() ==> r@[n] == self.log()[self.log().len() - 1 - n].info,
            decreases i,
    {
            i = i - 1;
            r.push(self.commits[i].info.clone());
        }
        r
    }

    /// The newest commit that touched `filename` and whose identifier
    /// starts with `prefix`, or nothing when no commit matches.
    pub fn resolve_prefix(&self, filename: &str, prefix: &str) -> (r: Option<CommitInfo>)
        ensures
            match r {
                Some(info) => exists|j: int|
                    resolve_from(self.log(), filename@, prefix@, self.log().len() - 1) == Some(j)
                        && 0 <= j < self.log().len() && info == self.log()[j].info,
                None => resolve_from(self.log(), filename@, prefix@, self.log().len() - 1)
                    is None,
            },
    {
        let mut i: usize = self.commits.len();
        while i > 0
            invariant
                i <= self.log().len(),
                resolve_from(self.log(), filename@, prefix@, self.log().len() - 1)
                    == resolve_from(self.log(), filename@, prefix@, i as int - 1),
            decreases i,
        {
            i = i - 1;
            if str_eq(self.commits[i].filename.as_str(), filename)
                && str_starts_with(self.commits[i].info.id.as_str(), prefix) {
                return Some(self.commits[i].info.clone());
            }
        }
        None
    }

    /// The body of `filename` as of the commit named by the full
    /// identifier `commit_id`, replayed from the log.
    pub fn content_at(&self, filename: &str, commit_id: &str) -> (r: Result<String, AppError>)
        requires
            self.wf(),
        ensures
            match r {
                Ok(b) => exists|j: int|
                    0 <= j < self.log().len() && commit_id_of(j as nat) == commit_id@
                        && content_at_pos(self.log(), filename@, j) == Some(b@),
                Err(e) => e == AppError::NotFound && forall|j: int|
                    0 <= j < self.log().len() && commit_id_of(j as nat) == commit_id@
                        ==> content_at_pos(self.log(), filename@, j) is None,
            },
    {
        let mut i: usize = self.commits.len();
        while i > 0
            invariant
                self.wf(),
                i <= self.log().len() <= usize::MAX,
                forall|j: int|
                    i <= j < self.log().len() ==> #[trigger] commit_id_of(j as nat) != commit_id@,
            decreases i,
        {
            i = i - 1;
            if str_eq(self.commits[i].info.id.as_str(), commit_id) {
                // Found the commit; replay the newest change to the
                // file at or before it.
                let ghost pos = i as int;
                let mut k: usize = i + 1;
                while k > 0
                    invariant
                        self.wf(),
                        self.log().len() <= usize::MAX,
                        k <= pos + 1 < self.log().len() + 1,
                        commit_id_of(pos as nat) == commit_id@,
                        content_at_pos(self.log(), filename@, pos) == content_at_pos(
                            self.log(),
                            filename@,
                            k as int - 1,
                        ),
                    decreases k,
                {
                    k = k - 1;
                    if str_eq(self.commits[k].filename.as_str(), filename) {
                        match &self.commits[k].change {
                            Some(b) => {
                                return Ok(b.clone());
                            },
                            None => {
                                proof {
                                    lemma_id_unique_in_range(self.log(), pos);
                                }
                                return Err(AppError::NotFound);
                            },
                        }
                    }
                }
                proof {
                    lemma_id_unique_in_range(self.log(), pos);
                }
                return Err(AppError::NotFound);
            }
        }
        Err(AppError::NotFound)
    }
}

/// Prepending an old commit appends its info (or nothing) to a file's
/// history, since histories are newest first.
pub proof fn lemma_history_prepend(x: CommitRecord, log: Seq<CommitRecord>, f: Seq<char>)
    ensures
        history_seq(seq![x] + log, f) == if x.filename@ == f {
            history_seq(log, f) + seq![x.info]
        } else {
            history_seq(log, f)
        },
    decreases log.len(),
{
    let s = seq![x] + log;
    if log.len() == 0 {
        assert(s =~= seq![x]);
        assert(s.len() == 1);
        assert(s.last() == x);
        let e = s.drop_last();
        assert(e =~= Seq::<CommitRecord>::empty());
        assert(history_seq(e, f) == Seq::<CommitInfo>::empty());
        assert(history_seq(log, f) == Seq::<CommitInfo>::empty());
        if x.filename@ == f {
            assert(history_seq(s, f) =~= history_seq(log, f) + seq![x.info]);
        } else {
            assert(history_seq(s, f) =~= history_seq(log, f));
        }
    } else {
        assert(s.last() == log.last());
        assert(s.drop_last() =~= seq![x] + log.drop_last());
        lemma_history_prepend(x, log.drop_last(), f);
        if x.filename@ == f {
            if log.last().filename@ == f {
                assert(history_seq(s, f) =~= history_seq(log, f) + seq![x.info]);
            } else {
                assert(history_seq(s, f) =~= history_seq(log, f) + seq![x.info]);
            }
        } else {
            if log.last().filename@ == f {
                assert(history_seq(s, f) =~= history_seq(log, f));
            }
        }
    }
}

/// In a well-identified log, no position other than `pos` carries the
/// identifier of `pos`.
proof fn lemma_id_unique_in_range(log: Seq<CommitRecord>, pos: int)
    requires
        ids_ok(log),
        0 <= pos < log.len(),
        log.len() <= 0x10000000000000000,
    ensures
        forall|j: int|
            0 <= j < log.len() && j != pos ==> #[trigger] commit_id_of(j as nat) != commit_id_of(
                pos as nat,
            ),
{
    assert forall|j: int| 0 <= j < log.len() && j != pos implies #[trigger] commit_id_of(j as nat)
        != commit_id_of(pos as nat) by {
        lemma_commit_id_distinct(j as nat, pos as nat);
    }
}

} // verus!
