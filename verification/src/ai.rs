//! Semantic scoring: cosine similarity between fixed-point embedding
//! vectors, and the ranking that turns candidate phrases into tags.  The
//! embedding model producing the vectors is an external collaborator.

use vstd::prelude::*;
use crate::ann::{spec_isqrt, lemma_isqrt_bounds, isqrt};
use crate::embeddings::{
    SCALE, DIM_MAX, comps_ok, spec_dot_from, spec_score, sort_scored, idx_present,
    DocumentEmbedding, EmbRow,
};
verus! {

/// The squared euclidean norm of a vector.
pub open spec fn spec_sq_norm(v: Seq<i64>) -> int {
    spec_score(v, v)
}

/// A vector's dot product with itself is never negative.
proof fn lemma_self_dot_nonneg(v: Seq<i64>, from: int)
    ensures
        spec_dot_from(v, v, from) >= 0,
    decreases v.len() - from,
{
    if 0 <= from < v.len() {
        lemma_self_dot_nonneg(v, from + 1);
        assert(v[from] * v[from] >= 0) by (nonlinear_arith);
    }
}

/// The cosine similarity of two vectors in fixed-point millionths: their
/// dot product scaled by one unit and divided by the product of the
/// integer square roots of their squared norms, clamped into one unit, and
/// zero whenever either vector has no length.
pub open spec fn spec_cosine(a: Seq<i64>, b: Seq<i64>) -> int {
    let d = spec_score(a, b);
    let na = spec_sq_norm(a);
    let nb = spec_sq_norm(b);
    if na == 0 || nb == 0 {
        0
    } else {
        let sa = spec_isqrt(na as nat);
        let sb = spec_isqrt(nb as nat);
        let mag = ((if d < 0 {
            -d
        } else {
            d
        }) as nat * (SCALE as nat)) / (sa * sb);
        let clamped: int = if mag > SCALE as nat {
            SCALE as int
        } else {
            mag as int
        };
        if d < 0 {
            -clamped
        } else {
            clamped
        }
    }
}

/// The dot product of two bounded vectors, stopping at the shorter one.
fn dot_any(a: &Vec<i64>, b: &Vec<i64>) -> (r: i64)
    requires
        a@.len() <= DIM_MAX,
        b@.len() <= DIM_MAX,
        comps_ok(a@),
        comps_ok(b@),
    ensures
        r == spec_score(a@, b@),
        -4096000000000000 <= r <= 4096000000000000,
{
    let n: usize = if a.len() <= b.len() {
        a.len()
    } else {
        b.len()
    };
    let mut acc: i64 = 0;
    let mut i: usize = 0;
    while i < n
        invariant
            i <= n,
            n == (if a@.len() <= b@.len() {
                a@.len() as int
            } else {
                b@.len() as int
            }),
            a@.len() <= DIM_MAX,
            b@.len() <= DIM_MAX,
            comps_ok(a@),
            comps_ok(b@),
            -(i as int) * 1000000000000 <= acc <= (i as int) * 1000000000000,
            acc + spec_dot_from(a@, b@, i as int) == spec_score(a@, b@),
        decreases n - i,
    {
        proof {
            assert(-SCALE <= a@[i as int] <= SCALE);
            assert(-SCALE <= b@[i as int] <= SCALE);
            assert(-1000000000000 <= a@[i as int] * b@[i as int] <= 1000000000000)
                by (nonlinear_arith)
                requires
                    -1000000 <= a@[i as int] <= 1000000,
                    -1000000 <= b@[i as int] <= 1000000,
            ;
            assert(((i as int) + 1) * 1000000000000 <= 4096000000000000) by (nonlinear_arith)
                requires
                    (i as int) + 1 <= 4096,
            ;
            assert((i as int) * 1000000000000 + 1000000000000 == ((i as int) + 1)
                * 1000000000000) by (nonlinear_arith);
        }
        acc = acc + a[i] * b[i];
        i = i + 1;
    }
    proof {
        assert(spec_dot_from(a@, b@, n as int) == 0);
        assert((i as int) * 1000000000000 <= 4096000000000000) by (nonlinear_arith)
            requires
                i as int <= 4096,
        ;
    }
    acc
}

/// Compute cosine similarity between two vectors.
pub fn cosine_similarity(a: &Vec<i64>, b: &Vec<i64>) -> (r: i64)
    requires
        a@.len() <= DIM_MAX,
        b@.len() <= DIM_MAX,
        comps_ok(a@),
        comps_ok(b@),
    ensures
        r == spec_cosine(a@, b@),
{
    let d = dot_any(a, b);
    let na = dot_any(a, a);
    let nb = dot_any(b, b);
    proof {
        lemma_self_dot_nonneg(a@, 0);
        lemma_self_dot_nonneg(b@, 0);
    }
    if na == 0 || nb == 0 {
        return 0;
    }
    let sa = isqrt(na as u64);
    let sb = isqrt(nb as u64);
    proof {
        lemma_isqrt_bounds(na as nat);
        lemma_isqrt_bounds(nb as nat);
        assert(sa >= 1 && sb >= 1) by (nonlinear_arith)
            requires
                na >= 1,
                nb >= 1,
                na < (sa + 1) * (sa + 1),
                nb < (sb + 1) * (sb + 1),
        ;
        assert(sa as int * sa as int <= na);
        assert(sb as int * sb as int <= nb);
        assert(sa <= 4294967295 && sb <= 4294967295) by (nonlinear_arith)
            requires
                sa * sa <= na <= 4096000000000000,
                sb * sb <= nb <= 4096000000000000,
        ;
        assert((sa as int) * (sb as int) >= 1) by (nonlinear_arith)
            requires
                sa >= 1,
                sb >= 1,
        ;
        assert((sa as nat) * (sb as nat) < 0x100000000000000000000000000000000)
            by (nonlinear_arith)
            requires
                sa <= 4294967295,
                sb <= 4294967295,
        ;
    }
    let denom: u128 = (sa as u128) * (sb as u128);
    let mag: u128 = if d < 0 {
        (-d) as u128
    } else {
        d as u128
    };
    proof {
        assert((mag as nat) * (SCALE as nat) < 0x100000000000000000000000000000000)
            by (nonlinear_arith)
            requires
                mag <= 4096000000000000,
                SCALE == 1000000,
        ;
    }
    let scaled: u128 = mag * (SCALE as u128);
    let m: u128 = scaled / denom;
    let clamped: i64 = if m > 1000000 {
        1000000
    } else {
        m as i64
    };
    if d < 0 {
        -clamped
    } else {
        clamped
    }
}

/// Cosine similarity never leaves one fixed-point unit in either
/// direction.
pub proof fn lemma_cosine_bounded(a: Seq<i64>, b: Seq<i64>)
    ensures
        -SCALE <= spec_cosine(a, b) <= SCALE,
{
    let d = spec_score(a, b);
    let na = spec_sq_norm(a);
    let nb = spec_sq_norm(b);
    lemma_self_dot_nonneg(a, 0);
    lemma_self_dot_nonneg(b, 0);
    if na != 0 && nb != 0 {
        let sa = spec_isqrt(na as nat);
        let sb = spec_isqrt(nb as nat);
        lemma_isqrt_bounds(na as nat);
        lemma_isqrt_bounds(nb as nat);
        assert(sa >= 1 && sb >= 1) by (nonlinear_arith)
            requires
                na >= 1,
                nb >= 1,
                na < (sa + 1) * (sa + 1),
                nb < (sb + 1) * (sb + 1),
        ;
        let dd = sa * sb;
        assert(dd >= 1) by (nonlinear_arith)
            requires
                sa >= 1,
                sb >= 1,
                dd == sa * sb,
        ;
        let ad: nat = (if d < 0 {
            -d
        } else {
            d
        }) as nat;
        let num = ad * (SCALE as nat);
        assert(num >= 0) by (nonlinear_arith)
            requires
                ad >= 0,
                SCALE == 1000000,
                num == ad * (SCALE as nat),
        ;
        let mag = num / dd;
        assert(mag >= 0) by (nonlinear_arith)
            requires
                num >= 0,
                dd >= 1,
                mag == num / dd,
        ;
        let clamped: int = if mag > SCALE as nat {
            SCALE as int
        } else {
            mag as int
        };
        assert(clamped >= 0);
        assert(clamped <= SCALE);
        assert(spec_cosine(a, b) == (if d < 0 {
            -clamped
        } else {
            clamped
        }));
    }
}

/// A vector's cosine similarity with itself is the maximal score, one full
/// unit, whenever the vector has any length at all.
pub proof fn lemma_cosine_self(v: Seq<i64>)
    requires
        spec_sq_norm(v) > 0,
    ensures
        spec_cosine(v, v) == SCALE,
{
    lemma_self_dot_nonneg(v, 0);
    let n = spec_sq_norm(v);
    let s = spec_isqrt(n as nat);
    lemma_isqrt_bounds(n as nat);
    assert(s >= 1) by (nonlinear_arith)
        requires
            n >= 1,
            n < (s + 1) * (s + 1),
    ;
    assert(s * s >= 1) by (nonlinear_arith)
        requires
            s >= 1,
    ;
    let d = (s * s) as int;
    let num = n * (SCALE as int);
    assert((n as nat) * (SCALE as nat) == num) by (nonlinear_arith)
        requires
            n > 0,
            num == n * (SCALE as int),
    ;
    assert(d * (SCALE as int) <= num) by (nonlinear_arith)
        requires
            d <= n,
            SCALE == 1000000,
            num == n * (SCALE as int),
    ;
    vstd::arithmetic::div_mod::lemma_div_is_ordered(d * (SCALE as int), num, d);
    vstd::arithmetic::div_mod::lemma_div_multiples_vanish(SCALE as int, d);
    assert((d * (SCALE as int)) / d == SCALE as int);
    assert(num / d >= SCALE as int);
    assert(((n as nat) * (SCALE as nat)) / ((s * s) as nat) >= SCALE as nat);
}

/// Exact-match recall: when a matching row's vector equals a non-zero
/// query and the results carry cosine scores, the row is among the results
/// or the last result already scores the full unit — no worse-scoring row
/// ever displaces an exact match.
pub proof fn lemma_exact_match_recall(
    q: Seq<i64>,
    m: Seq<EmbRow>,
    res: Seq<(DocumentEmbedding, i64)>,
    j: int,
)
    requires
        0 <= j < m.len(),
        m[j].vector == q,
        spec_sq_norm(q) > 0,
        res.len() > 0,
        forall|a: int|
            0 <= a < res.len() ==> (#[trigger] res[a]).1 == spec_cosine(
                q,
                res[a].0.row().vector,
            ),
        (exists|a: int| 0 <= a < res.len() && (#[trigger] res[a]).0.row() == m[j])
            || spec_cosine(q, m[j].vector) <= res[res.len() - 1].1,
    ensures
        (exists|a: int| 0 <= a < res.len() && (#[trigger] res[a]).0.row() == m[j]) || res[res.len()
            - 1].1 == SCALE,
{
    if !(exists|a: int| 0 <= a < res.len() && (#[trigger] res[a]).0.row() == m[j]) {
        lemma_cosine_self(q);
        lemma_cosine_bounded(q, res[res.len() - 1].0.row().vector);
    }
}

/// View of scored phrase candidates.
pub open spec fn cand_view(cs: Seq<(String, Vec<i64>)>) -> Seq<(Seq<char>, Seq<i64>)> {
    cs.map_values(|c: (String, Vec<i64>)| (c.0@, c.1@))
}

/// `js` selects `names` from the candidates: distinct indices, names taken
/// in order of non-increasing cosine similarity against the query, and no
/// unselected candidate scores better than the last selected one.
pub open spec fn tags_selection(
    q: Seq<i64>,
    cs: Seq<(Seq<char>, Seq<i64>)>,
    js: Seq<int>,
    names: Seq<Seq<char>>,
) -> bool {
    &&& js.len() == names.len()
    &&& forall|a: int| 0 <= a < js.len() ==> 0 <= #[trigger] js[a] < cs.len()
    &&& forall|a: int, b: int| 0 <= a < b < js.len() ==> js[a] != js[b]
    &&& forall|a: int| 0 <= a < js.len() ==> names[a] == cs[#[trigger] js[a]].0
    &&& forall|a: int, b: int|
        0 <= a < b < js.len() ==> spec_cosine(q, cs[#[trigger] js[a]].1) >= spec_cosine(
            q,
            cs[#[trigger] js[b]].1,
        )
    &&& forall|j: int|
        0 <= j < cs.len() && js.len() > 0 ==> ((exists|a: int|
            0 <= a < js.len() && #[trigger] js[a] == j) || spec_cosine(q, (#[trigger] cs[j]).1)
            <= spec_cosine(q, cs[js[js.len() - 1]].1))
}

/// Generate tags for a note: each candidate phrase is scored by the cosine
/// similarity of its embedding against the note's embedding, and the three
/// best phrases win.
pub fn generate_tags(overall: &Vec<i64>, candidates: &Vec<(String, Vec<i64>)>) -> (r: Vec<String>)
    requires
        overall@.len() <= DIM_MAX,
        comps_ok(overall@),
        forall|k: int|
            0 <= k < candidates@.len() ==> ((#[trigger] candidates@[k]).1@.len() <= DIM_MAX
                && comps_ok(candidates@[k].1@)),
    ensures
        r@.len() == (if candidates@.len() <= 3 {
            candidates@.len() as int
        } else {
            3
        }),
        exists|js: Seq<int>|
            tags_selection(overall@, cand_view(candidates@), js, r.deep_view()),
{
    let ghost cv = cand_view(candidates@);
    let mut scores: Vec<i64> = Vec::new();
    let mut i: usize = 0;
    while i < candidates.len()
        invariant
            i <= candidates.len(),
            scores@.len() == i,
            cv == cand_view(candidates@),
            overall@.len() <= DIM_MAX,
            comps_ok(overall@),
            forall|k: int|
                0 <= k < candidates@.len() ==> ((#[trigger] candidates@[k]).1@.len() <= DIM_MAX
                    && comps_ok(candidates@[k].1@)),
            forall|k: int|
                0 <= k < i ==> #[trigger] scores@[k] == spec_cosine(overall@, cv[k].1),
        decreases candidates.len() - i,
    {
        proof {
            assert(cv[i as int] == (candidates@[i as int].0@, candidates@[i as int].1@));
        }
        let sc = cosine_similarity(overall, &candidates[i].1);
        scores.push(sc);
        i = i + 1;
    }
    let sorted = sort_scored(&scores);
    let cut: usize = if candidates.len() <= 3 {
        candidates.len()
    } else {
        3
    };
    let mut r: Vec<String> = Vec::new();
    let mut w: usize = 0;
    while w < cut
        invariant
            w <= cut <= candidates@.len(),
            sorted@.len() == scores@.len() == candidates@.len(),
            cv == cand_view(candidates@),
            r@.len() == w,
            forall|a: int| 0 <= a < sorted@.len() ==> (#[trigger] sorted@[a]).0 < candidates@.len(),
            forall|a: int|
                0 <= a < w ==> (#[trigger] r@[a])@ == candidates@[sorted@[a].0 as int].0@,
        decreases cut - w,
    {
        let j = sorted[w].0;
        let name = candidates[j].0.clone();
        r.push(name);
        w = w + 1;
    }
    proof {
        let js = Seq::new(cut as nat, |a: int| sorted@[a].0 as int);
        assert(r.deep_view().len() == cut);
        assert forall|a: int| 0 <= a < js.len() implies r.deep_view()[a] == cv[
            #[trigger] js[a]
        ].0 by {
            assert(r.deep_view()[a] == r@[a]@);
            assert(cv[js[a]] == (candidates@[js[a]].0@, candidates@[js[a]].1@));
        }
        assert forall|a: int, b: int|
            0 <= a < b < js.len() implies spec_cosine(overall@, cv[#[trigger] js[a]].1)
            >= spec_cosine(overall@, cv[#[trigger] js[b]].1) by {
            assert(sorted@[a].1 == scores@[sorted@[a].0 as int]);
            assert(sorted@[b].1 == scores@[sorted@[b].0 as int]);
            assert(sorted@[a].1 >= sorted@[b].1);
        }
        assert forall|j: int|
            0 <= j < cv.len() && js.len() > 0 implies ((exists|a: int|
            0 <= a < js.len() && #[trigger] js[a] == j) || spec_cosine(
            overall@,
            (#[trigger] cv[j]).1,
        ) <= spec_cosine(overall@, cv[js[js.len() - 1]].1)) by {
            assert(idx_present(sorted@, j));
            let a = choose|a: int| 0 <= a < sorted@.len() && (#[trigger] sorted@[a]).0 == j;
            if a < cut {
                assert(js[a] == j);
            } else {
                assert(sorted@[a].1 <= sorted@[cut - 1].1);
                assert(sorted@[a].1 == scores@[j]);
                assert(sorted@[cut - 1].1 == scores@[sorted@[cut - 1].0 as int]);
                assert(js[js.len() - 1] == sorted@[cut - 1].0 as int);
            }
        }
        assert(tags_selection(overall@, cv, js, r.deep_view()));
    }
    r
}

} // verus!
