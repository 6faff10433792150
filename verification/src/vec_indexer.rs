//! The indexer: decides which metadata-store records are embedded in one
//! run, derives their stable embedding identifiers, tracks progress, and
//! ranks the raw results of a similarity query for the caller.  Reading
//! files and invoking the embedding model are outside work.

use vstd::prelude::*;
use crate::db::FileRecord;
use crate::text::{spec_has_suffix, has_suffix, push_char, spec_decimal, usize_to_string};
use crate::embeddings::{SCALE, sort_scored, idx_present};

verus! {

/// A path the indexer treats as an embeddable text document.
pub open spec fn is_markdown(p: Seq<char>) -> bool {
    spec_has_suffix(p, ".md"@) || spec_has_suffix(p, ".markdown"@)
}

/// The embedding identifier derived from a document's two identities: its
/// virtual path and its physical path, joined with a separator.
pub open spec fn spec_embedding_id(vp: Seq<char>, p: Seq<char>) -> Seq<char> {
    vp + seq!['|'] + p
}

/// Derives the embedding identifier of a document.
pub fn embedding_id(virtual_path: &str, path: &str) -> (r: String)
    ensures
        r@ == spec_embedding_id(virtual_path@, path@),
{
    let mut r = virtual_path.to_owned();
    push_char(&mut r, '|');
    r.append(path);
    r
}

/// One document scheduled for embedding in a run.
pub struct IndexTask {
    pub path: String,
    pub virtual_path: String,
    pub metadata: String,
    pub embedding_id: String,
}

/// First record index at or after `from` whose path is `p`.
pub open spec fn spec_first_record(rs: Seq<FileRecord>, p: Seq<char>, from: int) -> Option<int>
    decreases rs.len() - from,
{
    if from < 0 || from >= rs.len() {
        None
    } else if rs[from].path@ == p {
        Some(from)
    } else {
        spec_first_record(rs, p, from + 1)
    }
}

/// A task is sound for a record list: its path is a markdown path, its
/// fields are those of the first record carrying that path, and its
/// identifier is derived from the two paths.
pub open spec fn task_ok(rs: Seq<FileRecord>, t: IndexTask) -> bool {
    &&& is_markdown(t.path@)
    &&& spec_first_record(rs, t.path@, 0) matches Some(k) && (t.virtual_path@
        == rs[k].virtual_path@ && t.metadata@ == rs[k].metadata@ && t.path@ == rs[k].path@)
    &&& t.embedding_id@ == spec_embedding_id(t.virtual_path@, t.path@)
}

/// Some scheduled task carries the path.
pub open spec fn has_task(ts: Seq<IndexTask>, p: Seq<char>) -> bool {
    exists|a: int| 0 <= a < ts.len() && (#[trigger] ts[a]).path@ == p
}

/// A found record index lies in range, carries the path, and nothing
/// earlier does.
proof fn lemma_first_record_found(rs: Seq<FileRecord>, p: Seq<char>, from: int)
    requires
        0 <= from,
        spec_first_record(rs, p, from) is Some,
    ensures
        ({
            let k = spec_first_record(rs, p, from)->Some_0;
            from <= k < rs.len() && rs[k].path@ == p && forall|m: int|
                from <= m < k ==> rs[m].path@ != p
        }),
    decreases rs.len() - from,
{
    if from < rs.len() && rs[from].path@ != p {
        lemma_first_record_found(rs, p, from + 1);
    }
}

/// A record carrying the path makes the search succeed.
proof fn lemma_first_record_exists(rs: Seq<FileRecord>, p: Seq<char>, w: int)
    requires
        0 <= w < rs.len(),
        rs[w].path@ == p,
    ensures
        spec_first_record(rs, p, 0) is Some,
    decreases w,
{
    if spec_first_record(rs, p, 0) is None {
        lemma_first_record_none(rs, p, 0);
        assert(false);
    }
}

/// When nothing is found, no record at or after `from` carries the path.
proof fn lemma_first_record_none(rs: Seq<FileRecord>, p: Seq<char>, from: int)
    requires
        0 <= from,
        spec_first_record(rs, p, from) is None,
    ensures
        forall|m: int| from <= m < rs.len() ==> rs[m].path@ != p,
    decreases rs.len() - from,
{
    if from < rs.len() {
        lemma_first_record_none(rs, p, from + 1);
    }
}

/// Plans one indexing run over the current file tree: markdown documents
/// only, each physical path scheduled once (the first record wins), each
/// task carrying its derived embedding identifier.
pub fn plan_index_run(records: &Vec<FileRecord>) -> (tasks: Vec<IndexTask>)
    ensures
        forall|a: int| 0 <= a < tasks@.len() ==> task_ok(records@, #[trigger] tasks@[a]),
        forall|a: int, b: int|
            0 <= a < b < tasks@.len() ==> tasks@[a].path@ != tasks@[b].path@,
        forall|k: int|
            0 <= k < records@.len() && is_markdown((#[trigger] records@[k]).path@) ==> has_task(
                tasks@,
                records@[k].path@,
            ),
{
    let mut tasks: Vec<IndexTask> = Vec::new();
    let mut t: usize = 0;
    while t < records.len()
        invariant
            t <= records.len(),
            forall|a: int| 0 <= a < tasks@.len() ==> task_ok(records@, #[trigger] tasks@[a]),
            forall|a: int, b: int|
                0 <= a < b < tasks@.len() ==> tasks@[a].path@ != tasks@[b].path@,
            forall|k: int|
                0 <= k < t && is_markdown((#[trigger] records@[k]).path@) ==> has_task(
                    tasks@,
                    records@[k].path@,
                ),
        decreases records.len() - t,
    {
        let md = has_suffix(records[t].path.as_str(), ".md") || has_suffix(
            records[t].path.as_str(),
            ".markdown",
        );
        if md {
            let mut seen = false;
            let mut a: usize = 0;
            while a < tasks.len()
                invariant
                    a <= tasks.len(),
                    t < records.len(),
                    seen ==> has_task(tasks@, records@[t as int].path@),
                    !seen ==> forall|x: int|
                        0 <= x < a ==> (#[trigger] tasks@[x]).path@ != records@[t as int].path@,
                decreases tasks.len() - a,
            {
                if tasks[a].path == records[t].path {
                    seen = true;
                    proof {
                        assert(tasks@[a as int].path@ == records@[t as int].path@);
                    }
                    a = tasks.len();
                } else {
                    a = a + 1;
                }
            }
            let ghost told = tasks@;
            if !seen {
                proof {
                    lemma_first_record_exists(records@, records@[t as int].path@, t as int);
                    lemma_first_record_found(records@, records@[t as int].path@, 0);
                    let k = spec_first_record(records@, records@[t as int].path@, 0)->Some_0;
                    if k < t {
                        assert(records@[k].path@ == records@[t as int].path@);
                        assert(is_markdown(records@[k].path@));
                        assert(has_task(told, records@[k].path@));
                        let x = choose|x: int|
                            0 <= x < told.len() && (#[trigger] told[x]).path@ == records@[
                                k
                            ].path@;
                        assert(false);
                    }
                    assert(k == t);
                }
                let id = embedding_id(records[t].virtual_path.as_str(), records[t].path.as_str());
                let task = IndexTask {
                    path: records[t].path.clone(),
                    virtual_path: records[t].virtual_path.clone(),
                    metadata: records[t].metadata.clone(),
                    embedding_id: id,
                };
                tasks.push(task);
                proof {
                    assert(tasks@ =~= told.push(tasks@.last()));
                    assert(task_ok(records@, tasks@[tasks@.len() - 1]));
                    assert forall|k2: int|
                        0 <= k2 < t + 1 && is_markdown(
                            (#[trigger] records@[k2]).path@,
                        ) implies has_task(tasks@, records@[k2].path@) by {
                        if k2 < t {
                            let x = choose|x: int|
                                0 <= x < told.len() && (#[trigger] told[x]).path@ == records@[
                                    k2
                                ].path@;
                            assert(tasks@[x].path@ == records@[k2].path@);
                        } else {
                            assert(tasks@[tasks@.len() - 1].path@ == records@[t as int].path@);
                        }
                    }
                }
            } else {
                proof {
                    assert forall|k2: int|
                        0 <= k2 < t + 1 && is_markdown(
                            (#[trigger] records@[k2]).path@,
                        ) implies has_task(tasks@, records@[k2].path@) by {}
                }
            }
        }
        t = t + 1;
    }
    tasks
}

/// Progress counters of one indexing run.
pub struct IndexProgress {
    pub processed: u64,
    pub succeeded: u64,
    pub failed: u64,
}

impl IndexProgress {
    /// A run that has processed nothing yet.
    pub fn new() -> (r: IndexProgress)
        ensures
            r.processed == 0 && r.succeeded == 0 && r.failed == 0,
    {
        IndexProgress { processed: 0, succeeded: 0, failed: 0 }
    }

    /// Records one successfully embedded document.
    pub fn record_success(&mut self)
        requires
            old(self).processed < u64::MAX,
            old(self).succeeded < u64::MAX,
        ensures
            final(self).processed == old(self).processed + 1,
            final(self).succeeded == old(self).succeeded + 1,
            final(self).failed == old(self).failed,
    {
        self.processed = self.processed + 1;
        self.succeeded = self.succeeded + 1;
    }

    /// Records one document that could not be embedded.
    pub fn record_failure(&mut self)
        requires
            old(self).processed < u64::MAX,
            old(self).failed < u64::MAX,
        ensures
            final(self).processed == old(self).processed + 1,
            final(self).failed == old(self).failed + 1,
            final(self).succeeded == old(self).succeeded,
    {
        self.processed = self.processed + 1;
        self.failed = self.failed + 1;
    }

}

/// The similarity of one raw backend score: mirrored around one unit when
/// the backend reports a distance (lower is closer), kept as-is when it
/// already reports a similarity.
pub open spec fn spec_similarity(score: i64, distance_based: bool) -> int {
    if distance_based {
        SCALE - score
    } else {
        score as int
    }
}

/// Raw scores a ranking accepts: within one million fixed-point units, so
/// the distance-to-similarity conversion stays in range.
pub open spec fn score_in_range(s: i64) -> bool {
    -1000000000000 <= s <= 1000000000000
}

/// View of scored path candidates after similarity conversion.
pub open spec fn sim_view(cs: Seq<(String, i64)>, distance_based: bool) -> Seq<(Seq<char>, int)> {
    cs.map_values(|c: (String, i64)| (c.0@, spec_similarity(c.1, distance_based)))
}

/// Ranks raw similarity candidates for a caller: scores are normalized to
/// similarities, results below `threshold` are dropped, the rest are
/// sorted by non-increasing similarity and cut to `max_results`; every
/// kept-but-uncut candidate scores no better than the last result.
pub fn rank_similar(candidates: &Vec<(String, i64)>, distance_based: bool, threshold: i64, max_results: usize) -> (r: Vec<(String, i64)>)
    requires
        forall|k: int| 0 <= k < candidates@.len() ==> score_in_range((#[trigger] candidates@[k]).1),
    ensures
        ({
            let kept = sim_view(candidates@, distance_based).filter(
                |c: (Seq<char>, int)| c.1 >= threshold,
            );
            &&& r@.len() == (if max_results <= kept.len() {
                max_results as int
            } else {
                kept.len() as int
            })
            &&& forall|a: int, b: int| 0 <= a < b < r@.len() ==> r@[a].1 >= r@[b].1
            &&& forall|a: int|
                0 <= a < r@.len() ==> kept.contains((((#[trigger] r@[a]).0@, r@[a].1 as int)))
            &&& forall|a: int| 0 <= a < r@.len() ==> (#[trigger] r@[a]).1 >= threshold
            &&& forall|j: int|
                0 <= j < kept.len() && r@.len() > 0 ==> (#[trigger] kept[j]).1 <= r@[r@.len()
                    - 1].1 || (exists|a: int|
                    0 <= a < r@.len() && ((#[trigger] r@[a]).0@, r@[a].1 as int) == kept[j])
        }),
{
    let ghost p = |c: (Seq<char>, int)| c.1 >= threshold;
    let ghost sv = sim_view(candidates@, distance_based);
    let mut filtered: Vec<(String, i64)> = Vec::new();
    let mut i: usize = 0;
    proof {
        reveal(Seq::filter);
        assert(sv.take(0) =~= Seq::<(Seq<char>, int)>::empty());
        assert(filtered@.map_values(|c: (String, i64)| (c.0@, c.1 as int)) =~= sv.take(0).filter(
            p,
        ));
    }
    while i < candidates.len()
        invariant
            i <= candidates.len(),
            sv == sim_view(candidates@, distance_based),
            p == (|c: (Seq<char>, int)| c.1 >= threshold),
            forall|k: int|
                0 <= k < candidates@.len() ==> score_in_range((#[trigger] candidates@[k]).1),
            filtered@.map_values(|c: (String, i64)| (c.0@, c.1 as int)) == sv.take(
                i as int,
            ).filter(p),
            forall|a: int| 0 <= a < filtered@.len() ==> (#[trigger] filtered@[a]).1 >= threshold,
        decreases candidates.len() - i,
    {
        let ghost pre = sv.take(i as int);
        let ghost post = sv.take(i as int + 1);
        let ghost fv = filtered@.map_values(|c: (String, i64)| (c.0@, c.1 as int));
        proof {
            reveal(Seq::filter);
            assert(post.drop_last() =~= pre);
            assert(post.last() == sv[i as int]);
            assert(sv[i as int] == (candidates@[i as int].0@, spec_similarity(
                candidates@[i as int].1,
                distance_based,
            )));
        }
        let sim: i64 = if distance_based {
            SCALE - candidates[i].1
        } else {
            candidates[i].1
        };
        if sim >= threshold {
            let name = candidates[i].0.clone();
            filtered.push((name, sim));
            proof {
                assert(filtered@.map_values(|c: (String, i64)| (c.0@, c.1 as int)) =~= fv.push(
                    sv[i as int],
                ));
                assert(filtered@.map_values(|c: (String, i64)| (c.0@, c.1 as int)) =~= post.filter(
                    p,
                ));
            }
        } else {
            proof {
                assert(filtered@.map_values(|c: (String, i64)| (c.0@, c.1 as int)) =~= post.filter(
                    p,
                ));
            }
        }
        i = i + 1;
    }
    proof {
        assert(sv.take(candidates@.len() as int) =~= sv);
        assert(sv.len() == candidates@.len());
    }
    let ghost kept = sv.filter(p);
    let ghost fv = filtered@.map_values(|c: (String, i64)| (c.0@, c.1 as int));
    let mut scores: Vec<i64> = Vec::new();
    let mut s: usize = 0;
    while s < filtered.len()
        invariant
            s <= filtered.len(),
            scores@.len() == s,
            forall|k: int| 0 <= k < s ==> #[trigger] scores@[k] == filtered@[k].1,
        decreases filtered.len() - s,
    {
        scores.push(filtered[s].1);
        s = s + 1;
    }
    let sorted = sort_scored(&scores);
    let cut: usize = if max_results <= filtered.len() {
        max_results
    } else {
        filtered.len()
    };
    let mut r: Vec<(String, i64)> = Vec::new();
    let mut w: usize = 0;
    while w < cut
        invariant
            w <= cut <= filtered@.len(),
            sorted@.len() == scores@.len() == filtered@.len(),
            r@.len() == w,
            forall|a: int| 0 <= a < sorted@.len() ==> (#[trigger] sorted@[a]).0 < filtered@.len(),
            forall|a: int|
                0 <= a < sorted@.len() ==> (#[trigger] sorted@[a]).1 == scores@[sorted@[a].0 as int],
            forall|k: int| 0 <= k < scores@.len() ==> #[trigger] scores@[k] == filtered@[k].1,
            forall|a: int|
                0 <= a < w ==> (#[trigger] r@[a]).0@ == filtered@[sorted@[a].0 as int].0@ && r@[a].1
                    == sorted@[a].1,
        decreases cut - w,
    {
        let j = sorted[w].0;
        let name = filtered[j].0.clone();
        r.push((name, sorted[w].1));
        w = w + 1;
    }
    proof {
        assert(fv =~= kept);
        assert forall|a: int|
            0 <= a < r@.len() implies (kept.contains((((#[trigger] r@[a]).0@, r@[a].1 as int)))
            && r@[a].1 >= threshold) by {
            let j = sorted@[a].0 as int;
            assert(r@[a].1 == sorted@[a].1);
            assert(sorted@[a].1 == scores@[j]);
            assert(scores@[j] == filtered@[j].1);
            assert(fv[j] == (filtered@[j].0@, filtered@[j].1 as int));
            assert(kept[j] == (r@[a].0@, r@[a].1 as int));
            assert(filtered@[j].1 >= threshold);
        }
        assert forall|j: int|
            0 <= j < kept.len() && r@.len() > 0 implies ((#[trigger] kept[j]).1 <= r@[r@.len()
            - 1].1 || (exists|a: int|
            0 <= a < r@.len() && ((#[trigger] r@[a]).0@, r@[a].1 as int) == kept[j])) by {
            assert(idx_present(sorted@, j));
            let a = choose|a: int| 0 <= a < sorted@.len() && (#[trigger] sorted@[a]).0 == j;
            if a < cut {
                assert(fv[j] == (filtered@[j].0@, filtered@[j].1 as int));
                assert((r@[a].0@, r@[a].1 as int) == kept[j]);
            } else {
                assert(sorted@[a].1 <= sorted@[cut - 1].1);
                assert(r@[cut - 1].1 == sorted@[cut - 1].1);
                assert(sorted@[a].1 == scores@[j]);
                assert(fv[j] == (filtered@[j].0@, filtered@[j].1 as int));
                assert(kept[j].1 == filtered@[j].1 as int);
            }
        }
    }
    r
}

/// How many raw candidates a similarity query should request to
/// compensate for approximate recall: one and a half times the wanted
/// count, saturating at the machine's limit.
pub fn overfetch_limit(limit: usize) -> (r: usize)
    ensures
        limit + limit / 2 <= usize::MAX ==> r == limit + limit / 2,
        limit + limit / 2 > usize::MAX ==> r == usize::MAX,
{
    let half = limit / 2;
    if limit <= usize::MAX - half {
        limit + half
    } else {
        usize::MAX
    }
}

/// The default minimum similarity a related document must reach.
pub fn default_similarity_threshold() -> (r: i64)
    ensures
        r == 100000,
{
    100000
}

/// The default cap on related-document results.
pub fn default_max_results() -> (r: usize)
    ensures
        r == 20,
{
    20
}

/// The progress line printed when an indexing run completes.
pub fn progress_summary(p: &IndexProgress) -> (r: String)
    requires
        p.processed <= usize::MAX,
        p.succeeded <= usize::MAX,
        p.failed <= usize::MAX,
    ensures
        r@ == "Indexing complete: "@ + spec_decimal(p.processed as nat)
            + " files processed ("@ + spec_decimal(p.succeeded as nat) + " succeeded, "@
            + spec_decimal(p.failed as nat) + " failed)"@,
{
    let mut r = String::from_str("Indexing complete: ");
    let n1 = usize_to_string(p.processed as usize);
    r.append(n1.as_str());
    r.append(" files processed (");
    let n2 = usize_to_string(p.succeeded as usize);
    r.append(n2.as_str());
    r.append(" succeeded, ");
    let n3 = usize_to_string(p.failed as usize);
    r.append(n3.as_str());
    r.append(" failed)");
    r
}

} // verus!
