//! Lexical search support: titles, previews, and relevant-snippet
//! extraction.  The inverted index itself lives behind the persistence
//! layer; everything here computes on document text handed in as plain
//! values.

use vstd::prelude::*;
use crate::text::{
    spec_trim, spec_join, spec_words, spec_flatten_ws, is_space, lower_of, lowercase,
    spec_contains_sub, contains_sub, spec_has_prefix, has_prefix, split_str, keep_nonempty,
    join_with, trim_str, string_of, chars_of, clone_strings,
};
use crate::frontmatter::spec_lines;

verus! {

/// A search result: the stored path, the document title, the backend's
/// relevance score in fixed-point millionths, and an optional snippet.
pub struct SearchResult {
    pub path: String,
    pub title: String,
    pub score: i64,
    pub snippet: Option<String>,
}

/// Statistics about the search index.
pub struct IndexStats {
    pub num_documents: usize,
    pub index_size_bytes: u64,
    pub fields: Vec<String>,
}

/// Groups a line list at blank lines, keeping empty groups.
pub open spec fn spec_line_groups(ls: Seq<Seq<char>>) -> Seq<Seq<Seq<char>>>
    decreases ls.len(),
{
    if ls.len() == 0 {
        seq![Seq::empty()]
    } else {
        let rest = spec_line_groups(ls.skip(1));
        if spec_trim(ls[0]).len() == 0 {
            seq![Seq::<Seq<char>>::empty()] + rest
        } else {
            seq![seq![ls[0]] + rest[0]] + rest.skip(1)
        }
    }
}

/// A grouping always yields at least one group.
proof fn lemma_line_groups_len(ls: Seq<Seq<char>>)
    ensures
        spec_line_groups(ls).len() >= 1,
    decreases ls.len(),
{
    if ls.len() > 0 {
        lemma_line_groups_len(ls.skip(1));
    }
}

/// The paragraphs of a document: maximal runs of non-blank lines, each run
/// joined back with newlines.
pub open spec fn spec_paragraphs(content: Seq<char>) -> Seq<Seq<char>> {
    spec_line_groups(spec_lines(content)).filter(|g: Seq<Seq<char>>| g.len() > 0).map_values(
        |g: Seq<Seq<char>>| spec_join(g, '\n'),
    )
}

/// A paragraph that is only a heading: its trimmed text starts with `#`.
pub open spec fn heading_only(p: Seq<char>) -> bool {
    spec_trim(p).len() > 0 && spec_trim(p)[0] == '#'
}

/// How many of the query terms occur in `x`, case-insensitively.
pub open spec fn spec_term_score(x: Seq<char>, terms: Seq<Seq<char>>) -> nat {
    terms.filter(|t: Seq<char>| spec_contains_sub(lower_of(x), lower_of(t))).len()
}

/// `b` is the first index of `ps` attaining the maximal term score.
pub open spec fn first_max_para(ps: Seq<Seq<char>>, terms: Seq<Seq<char>>, b: int) -> bool {
    &&& 0 <= b < ps.len()
    &&& forall|j: int|
        0 <= j < ps.len() ==> spec_term_score(#[trigger] ps[j], terms) <= spec_term_score(
            ps[b],
            terms,
        )
    &&& forall|j: int|
        0 <= j < b ==> spec_term_score(#[trigger] ps[j], terms) < spec_term_score(ps[b], terms)
}

/// The first index of `ps` attaining the maximal term score.
pub open spec fn best_para_index(ps: Seq<Seq<char>>, terms: Seq<Seq<char>>) -> int {
    choose|b: int| first_max_para(ps, terms, b)
}

/// Two first maxima coincide.
pub proof fn lemma_first_max_unique(ps: Seq<Seq<char>>, terms: Seq<Seq<char>>, b1: int, b2: int)
    requires
        first_max_para(ps, terms, b1),
        first_max_para(ps, terms, b2),
    ensures
        b1 == b2,
{
    if b1 < b2 {
        assert(spec_term_score(ps[b1], terms) < spec_term_score(ps[b2], terms));
        assert(spec_term_score(ps[b2], terms) <= spec_term_score(ps[b1], terms));
    }
    if b2 < b1 {
        assert(spec_term_score(ps[b2], terms) < spec_term_score(ps[b1], terms));
        assert(spec_term_score(ps[b1], terms) <= spec_term_score(ps[b2], terms));
    }
}

/// The text of the ten-word window starting at `start`.
pub open spec fn spec_window_text(words: Seq<Seq<char>>, start: int) -> Seq<char> {
    spec_join(words.subrange(start, start + 10), ' ')
}

/// `w` is the first window start attaining the maximal term score among
/// the windows of `words`.
pub open spec fn first_max_window(words: Seq<Seq<char>>, terms: Seq<Seq<char>>, w: int) -> bool {
    &&& 0 <= w <= words.len() - 10
    &&& forall|j: int|
        0 <= j <= words.len() - 10 ==> spec_term_score(
            #[trigger] spec_window_text(words, j),
            terms,
        ) <= spec_term_score(spec_window_text(words, w), terms)
    &&& forall|j: int|
        0 <= j < w ==> spec_term_score(#[trigger] spec_window_text(words, j), terms)
            < spec_term_score(spec_window_text(words, w), terms)
}

/// The first window start attaining the maximal term score.
pub open spec fn best_window_index(words: Seq<Seq<char>>, terms: Seq<Seq<char>>) -> int {
    choose|w: int| first_max_window(words, terms, w)
}

/// Two first-maximal windows coincide.
pub proof fn lemma_first_max_window_unique(
    words: Seq<Seq<char>>,
    terms: Seq<Seq<char>>,
    w1: int,
    w2: int,
)
    requires
        first_max_window(words, terms, w1),
        first_max_window(words, terms, w2),
    ensures
        w1 == w2,
{
    if w1 < w2 {
        assert(spec_term_score(spec_window_text(words, w1), terms) < spec_term_score(
            spec_window_text(words, w2),
            terms,
        ));
        assert(spec_term_score(spec_window_text(words, w2), terms) <= spec_term_score(
            spec_window_text(words, w1),
            terms,
        ));
    }
    if w2 < w1 {
        assert(spec_term_score(spec_window_text(words, w2), terms) < spec_term_score(
            spec_window_text(words, w1),
            terms,
        ));
        assert(spec_term_score(spec_window_text(words, w1), terms) <= spec_term_score(
            spec_window_text(words, w2),
            terms,
        ));
    }
}

/// `s` cut to at most `max` characters, the tail replaced by an ellipsis
/// when the cut really shortens it.
pub open spec fn spec_truncated(s: Seq<char>, max: int) -> Seq<char> {
    if s.len() <= max {
        s
    } else {
        s.take(max - 3) + "..."@
    }
}

/// The best window of the winning paragraph, expanded by two words of
/// context on each side, with ellipsis markers where it does not reach the
/// paragraph boundary.
pub open spec fn spec_window_snippet(words: Seq<Seq<char>>, w: int) -> Seq<char> {
    let lo = if w >= 2 {
        w - 2
    } else {
        0
    };
    let hi = if w + 12 <= words.len() {
        w + 12
    } else {
        words.len() as int
    };
    let body = spec_join(words.subrange(lo, hi), ' ');
    (if lo > 0 {
        "... "@
    } else {
        Seq::<char>::empty()
    }) + body + (if hi < words.len() {
        " ..."@
    } else {
        Seq::<char>::empty()
    })
}

/// One piece under construction prepended to the first group of a tail.
spec fn graft_group(cur: Seq<Seq<char>>, gs: Seq<Seq<Seq<char>>>) -> Seq<Seq<Seq<char>>> {
    seq![cur + gs[0]] + gs.skip(1)
}

/// Groups lines at blank lines, keeping empty groups.
fn group_lines(lines: &Vec<String>) -> (r: Vec<Vec<String>>)
    ensures
        r.deep_view() == spec_line_groups(lines.deep_view()),
        r.len() >= 1,
{
    let ghost lv = lines.deep_view();
    let n = lines.len();
    let mut done: Vec<Vec<String>> = Vec::new();
    let mut cur: Vec<String> = Vec::new();
    let mut i: usize = 0;
    proof {
        assert(lv.skip(0) =~= lv);
        assert(done.deep_view() =~= Seq::<Seq<Seq<char>>>::empty());
        assert(cur.deep_view() =~= Seq::<Seq<char>>::empty());
    }
    while i < n
        invariant
            i <= n,
            n == lines.len(),
            lv == lines.deep_view(),
            spec_line_groups(lv) == done.deep_view() + graft_group(
                cur.deep_view(),
                spec_line_groups(lv.skip(i as int)),
            ),
        decreases n - i,
    {
        let ghost tail = lv.skip(i as int);
        let ghost rest = spec_line_groups(lv.skip(i as int + 1));
        proof {
            assert(tail.len() > 0);
            assert(tail[0] == lv[i as int]);
            assert(tail.skip(1) =~= lv.skip(i as int + 1));
            lemma_line_groups_len(lv.skip(i as int + 1));
        }
        let trimmed = trim_str(lines[i].as_str());
        proof {
            assert(lines@[i as int]@ == lv[i as int]);
        }
        if trimmed.as_str().is_empty() {
            proof {
                assert(spec_trim(tail[0]).len() == 0);
                assert(spec_line_groups(tail) == seq![Seq::<Seq<char>>::empty()] + rest);
                assert(graft_group(cur.deep_view(), spec_line_groups(tail)) =~~= seq![
                    cur.deep_view(),
                ] + rest);
            }
            let ghost dv = done.deep_view();
            done.push(cur);
            cur = Vec::new();
            proof {
                assert(done.deep_view() =~= dv.push(done@.last().deep_view()));
                assert(cur.deep_view() =~= Seq::<Seq<char>>::empty());
                assert(graft_group(cur.deep_view(), rest) =~~= rest);
                assert(done.deep_view() + graft_group(cur.deep_view(), rest) =~~= dv + (seq![
                    done@.last().deep_view(),
                ] + rest));
            }
        } else {
            proof {
                assert(spec_trim(tail[0]).len() != 0);
                assert(spec_line_groups(tail) == seq![seq![tail[0]] + rest[0]] + rest.skip(1));
                assert(graft_group(cur.deep_view(), spec_line_groups(tail)) =~~= seq![
                    cur.deep_view() + seq![tail[0]] + rest[0],
                ] + rest.skip(1));
            }
            let ghost cv = cur.deep_view();
            let line = lines[i].clone();
            cur.push(line);
            proof {
                assert(cur.deep_view() =~= cv.push(lv[i as int]));
                assert(cur.deep_view() + rest[0] =~= cv + seq![tail[0]] + rest[0]);
                assert(graft_group(cur.deep_view(), rest) =~~= seq![
                    cv + seq![tail[0]] + rest[0],
                ] + rest.skip(1));
            }
        }
        i = i + 1;
    }
    proof {
        assert(lv.skip(n as int) =~= Seq::<Seq<char>>::empty());
        assert(spec_line_groups(Seq::<Seq<char>>::empty()) == seq![Seq::<Seq<char>>::empty()]);
        assert(graft_group(cur.deep_view(), seq![Seq::<Seq<char>>::empty()]) =~~= seq![
            cur.deep_view(),
        ]);
    }
    let ghost dv = done.deep_view();
    done.push(cur);
    proof {
        assert(done.deep_view() =~= dv.push(done@.last().deep_view()));
        assert(done.deep_view() =~~= spec_line_groups(lv));
    }
    done
}

/// Splits a document into its paragraphs.
pub fn paragraphs_of(content: &str) -> (r: Vec<String>)
    ensures
        r.deep_view() == spec_paragraphs(content@),
{
    let lines = split_str(content, '\n');
    let groups = group_lines(&lines);
    let ghost gv = groups.deep_view();
    let mut kept: Vec<Vec<String>> = Vec::new();
    let ghost p = |g: Seq<Seq<char>>| g.len() > 0;
    let mut i: usize = 0;
    proof {
        reveal(Seq::filter);
        assert(gv.take(0) =~= Seq::<Seq<Seq<char>>>::empty());
        assert(kept.deep_view() =~= gv.take(0).filter(p));
    }
    while i < groups.len()
        invariant
            i <= groups.len(),
            gv == groups.deep_view(),
            p == (|g: Seq<Seq<char>>| g.len() > 0),
            kept.deep_view() == gv.take(i as int).filter(p),
        decreases groups.len() - i,
    {
        let ghost pre = gv.take(i as int);
        let ghost post = gv.take(i as int + 1);
        proof {
            reveal(Seq::filter);
            assert(post.drop_last() =~= pre);
            assert(post.last() == gv[i as int]);
            assert(gv[i as int] == groups@[i as int].deep_view());
            assert(gv[i as int].len() == groups@[i as int]@.len());
        }
        if groups[i].len() > 0 {
            let ghost kv = kept.deep_view();
            let g = clone_strings(&groups[i]);
            kept.push(g);
            proof {
                assert(kept.deep_view() =~= kv.push(gv[i as int]));
                assert(kept.deep_view() =~= post.filter(p));
            }
        } else {
            proof {
                assert(kept.deep_view() =~= post.filter(p));
            }
        }
        i = i + 1;
    }
    proof {
        assert(gv.take(groups@.len() as int) =~= gv);
        assert(gv.len() == groups@.len());
    }
    let mut out: Vec<String> = Vec::new();
    let ghost jf = |g: Seq<Seq<char>>| spec_join(g, '\n');
    let mut k: usize = 0;
    proof {
        assert(kept.deep_view().take(0) =~= Seq::<Seq<Seq<char>>>::empty());
        assert(out.deep_view() =~= kept.deep_view().take(0).map_values(jf));
    }
    while k < kept.len()
        invariant
            k <= kept.len(),
            jf == (|g: Seq<Seq<char>>| spec_join(g, '\n')),
            out.deep_view() == kept.deep_view().take(k as int).map_values(jf),
        decreases kept.len() - k,
    {
        let ghost ov = out.deep_view();
        let joined = join_with(&kept[k], '\n');
        proof {
            assert(kept@[k as int].deep_view() == kept.deep_view()[k as int]);
        }
        out.push(joined);
        proof {
            assert(out.deep_view() =~= ov.push(jf(kept.deep_view()[k as int])));
            assert(kept.deep_view().take(k as int + 1) =~= kept.deep_view().take(k as int).push(
                kept.deep_view()[k as int],
            ));
            assert(out.deep_view() =~= kept.deep_view().take(k as int + 1).map_values(jf));
        }
        k = k + 1;
    }
    proof {
        assert(kept.deep_view().take(kept@.len() as int) =~= kept.deep_view());
        assert(kept.deep_view().len() == kept@.len());
    }
    out
}

/// Counts how many query terms occur in `x`, case-insensitively.
pub fn term_score(x: &str, terms: &Vec<String>) -> (c: usize)
    ensures
        c == spec_term_score(x@, terms.deep_view()),
{
    let ghost tv = terms.deep_view();
    let ghost p = |t: Seq<char>| spec_contains_sub(lower_of(x@), lower_of(t));
    let low = lowercase(x);
    let mut c: usize = 0;
    let mut i: usize = 0;
    proof {
        reveal(Seq::filter);
        assert(tv.take(0) =~= Seq::<Seq<char>>::empty());
    }
    while i < terms.len()
        invariant
            i <= terms.len(),
            c <= i,
            tv == terms.deep_view(),
            low@ == lower_of(x@),
            p == (|t: Seq<char>| spec_contains_sub(lower_of(x@), lower_of(t))),
            c == tv.take(i as int).filter(p).len(),
        decreases terms.len() - i,
    {
        let ghost pre = tv.take(i as int);
        let ghost post = tv.take(i as int + 1);
        proof {
            reveal(Seq::filter);
            assert(post.drop_last() =~= pre);
            assert(post.last() == tv[i as int]);
            assert(tv[i as int] == terms@[i as int]@);
        }
        let lt = lowercase(terms[i].as_str());
        if contains_sub(low.as_str(), lt.as_str()) {
            c = c + 1;
        }
        i = i + 1;
    }
    proof {
        assert(tv.take(terms@.len() as int) =~= tv);
        assert(tv.len() == terms@.len());
    }
    c
}

/// Cuts `s` to at most `max` characters, ending in an ellipsis when cut.
pub fn truncate_text(s: &str, max: usize) -> (r: String)
    requires
        max >= 3,
    ensures
        r@ == spec_truncated(s@, max as int),
{
    let cs = chars_of(s);
    if cs.len() <= max {
        return s.to_owned();
    }
    let mut out: Vec<char> = Vec::new();
    let mut i: usize = 0;
    while i < max - 3
        invariant
            max >= 3,
            i <= max - 3 < cs.len(),
            cs@ == s@,
            out@ == s@.take(i as int),
        decreases max - 3 - i,
    {
        out.push(cs[i]);
        assert(out@ =~= s@.take(i as int + 1));
        i = i + 1;
    }
    let mut r = string_of(&out);
    r.append("...");
    r
}

/// The whitespace-separated words of `x`.
pub fn words_of(x: &str) -> (r: Vec<String>)
    ensures
        r.deep_view() == spec_words(x@),
{
    let cs = chars_of(x);
    let mut flat: Vec<char> = Vec::new();
    let mut i: usize = 0;
    proof {
        assert(flat@ =~= spec_flatten_ws(x@).take(0));
    }
    while i < cs.len()
        invariant
            i <= cs.len(),
            cs@ == x@,
            flat@ == spec_flatten_ws(x@).take(i as int),
        decreases cs.len() - i,
    {
        let c = cs[i];
        proof {
            assert(spec_flatten_ws(x@)[i as int] == (if is_space(x@[i as int]) {
                ' '
            } else {
                x@[i as int]
            }));
        }
        if c == ' ' || c == '\t' || c == '\n' || c == '\r' {
            flat.push(' ');
        } else {
            flat.push(c);
        }
        proof {
            assert(flat@ =~= spec_flatten_ws(x@).take(i as int + 1));
        }
        i = i + 1;
    }
    proof {
        assert(spec_flatten_ws(x@).take(cs@.len() as int) =~= spec_flatten_ws(x@));
    }
    let flat_s = string_of(&flat);
    let pieces = split_str(flat_s.as_str(), ' ');
    keep_nonempty(&pieces)
}

/// The non-heading paragraphs of a document, in order.
fn body_paragraphs(content: &str) -> (r: Vec<String>)
    ensures
        r.deep_view() == spec_paragraphs(content@).filter(|p: Seq<char>| !heading_only(p)),
{
    let paras = paragraphs_of(content);
    let ghost pv = paras.deep_view();
    let ghost keep = |p: Seq<char>| !heading_only(p);
    let mut kept: Vec<String> = Vec::new();
    let mut i: usize = 0;
    proof {
        reveal(Seq::filter);
        assert(pv.take(0) =~= Seq::<Seq<char>>::empty());
        assert(kept.deep_view() =~= pv.take(0).filter(keep));
    }
    while i < paras.len()
        invariant
            i <= paras.len(),
            pv == paras.deep_view(),
            keep == (|p: Seq<char>| !heading_only(p)),
            kept.deep_view() == pv.take(i as int).filter(keep),
        decreases paras.len() - i,
    {
        let ghost pre = pv.take(i as int);
        let ghost post = pv.take(i as int + 1);
        proof {
            reveal(Seq::filter);
            assert(post.drop_last() =~= pre);
            assert(post.last() == pv[i as int]);
            assert(pv[i as int] == paras@[i as int]@);
        }
        let trimmed = trim_str(paras[i].as_str());
        let is_heading = if trimmed.as_str().is_empty() {
            false
        } else {
            trimmed.as_str().get_char(0) == '#'
        };
        if !is_heading {
            let ghost kv = kept.deep_view();
            let p = paras[i].clone();
            kept.push(p);
            proof {
                assert(kept.deep_view() =~= kv.push(pv[i as int]));
                assert(kept.deep_view() =~= post.filter(keep));
            }
        } else {
            proof {
                assert(kept.deep_view() =~= post.filter(keep));
            }
        }
        i = i + 1;
    }
    proof {
        assert(pv.take(paras@.len() as int) =~= pv);
        assert(pv.len() == paras@.len());
    }
    kept
}

/// Copies ten consecutive words starting at `start`.
fn window_words(words: &Vec<String>, start: usize) -> (r: Vec<String>)
    requires
        start + 10 <= words@.len(),
    ensures
        r.deep_view() == words.deep_view().subrange(start as int, start as int + 10),
{
    let mut r: Vec<String> = Vec::new();
    let wl = words.len();
    assert(start + 10 <= wl);
    let stop = start + 10;
    let mut k: usize = start;
    proof {
        assert(r.deep_view() =~= words.deep_view().subrange(start as int, start as int));
    }
    while k < stop
        invariant
            start <= k <= stop <= words@.len(),
            stop == start + 10,
            r.deep_view() == words.deep_view().subrange(start as int, k as int),
        decreases stop - k,
    {
        let ghost rv = r.deep_view();
        let w = words[k].clone();
        proof {
            assert(w@ == words.deep_view()[k as int]);
        }
        r.push(w);
        proof {
            assert(r.deep_view() =~= rv.push(words.deep_view()[k as int]));
            assert(r.deep_view() =~= words.deep_view().subrange(start as int, k as int + 1));
        }
        k = k + 1;
    }
    r
}

/// Extracts the most relevant snippet of a document for the given query
/// terms: paragraphs are scored by how many distinct terms they contain
/// (case-insensitively), the first best paragraph wins, short winners are
/// returned whole, longer ones are narrowed to the best ten-word window
/// with two words of context and ellipsis markers, and the result is cut
/// to `max_length` characters.
pub fn extract_relevant_snippet(content: &str, query_terms: &Vec<String>, max_length: usize) -> (r:
    Option<String>)
    requires
        max_length >= 3,
    ensures
        ({
            let paras = spec_paragraphs(content@).filter(|p: Seq<char>| !heading_only(p));
            let terms = query_terms.deep_view();
            if content@.len() == 0 || terms.len() == 0 || paras.len() == 0 {
                r is None
            } else {
                let b = best_para_index(paras, terms);
                &&& first_max_para(paras, terms, b)
                &&& if spec_term_score(paras[b], terms) == 0 {
                    r matches Some(s) && s@ == spec_truncated(paras[0], max_length as int)
                } else {
                    let words = spec_words(paras[b]);
                    if words.len() <= 10 {
                        r matches Some(s) && s@ == paras[b]
                    } else {
                        let w = best_window_index(words, terms);
                        &&& first_max_window(words, terms, w)
                        &&& r matches Some(s) && s@ == spec_truncated(
                            spec_window_snippet(words, w),
                            max_length as int,
                        )
                    }
                }
            }
        }),
{
    if content.is_empty() || query_terms.len() == 0 {
        return None;
    }
    let paras = body_paragraphs(content);
    if paras.len() == 0 {
        proof {
            assert(paras.deep_view().len() == paras@.len());
        }
        return None;
    }
    let ghost pv = paras.deep_view();
    let ghost tv = query_terms.deep_view();
    let mut best: usize = 0;
    let mut best_score = term_score(paras[0].as_str(), query_terms);
    proof {
        assert(pv[0] == paras@[0]@);
    }
    let mut j: usize = 1;
    while j < paras.len()
        invariant
            1 <= j <= paras.len(),
            best < j,
            pv == paras.deep_view(),
            tv == query_terms.deep_view(),
            best_score == spec_term_score(pv[best as int], tv),
            forall|k: int| 0 <= k < j ==> spec_term_score(#[trigger] pv[k], tv) <= best_score,
            forall|k: int| 0 <= k < best ==> spec_term_score(#[trigger] pv[k], tv) < best_score,
        decreases paras.len() - j,
    {
        proof {
            assert(pv[j as int] == paras@[j as int]@);
        }
        let sc = term_score(paras[j].as_str(), query_terms);
        if sc > best_score {
            best = j;
            best_score = sc;
        }
        j = j + 1;
    }
    proof {
        assert(pv.len() == paras@.len());
        assert(first_max_para(pv, tv, best as int));
        assert(first_max_para(pv, tv, best_para_index(pv, tv))) by {
            assert(exists|b: int| first_max_para(pv, tv, b));
        }
        lemma_first_max_unique(pv, tv, best as int, best_para_index(pv, tv));
    }
    if best_score == 0 {
        proof {
            assert(pv[0] == paras@[0]@);
        }
        return Some(truncate_text(paras[0].as_str(), max_length));
    }
    proof {
        assert(pv[best as int] == paras@[best as int]@);
    }
    let words = words_of(paras[best].as_str());
    let ghost wv = words.deep_view();
    if words.len() <= 10 {
        proof {
            assert(wv.len() == words@.len());
        }
        return Some(paras[best].clone());
    }
    proof {
        assert(wv.len() == words@.len());
    }
    let count: usize = words.len() - 10 + 1;
    let first_window = window_words(&words, 0);
    let first_text = join_with(&first_window, ' ');
    proof {
        assert(first_text@ == spec_window_text(wv, 0));
    }
    let mut best_w: usize = 0;
    let mut best_w_score = term_score(first_text.as_str(), query_terms);
    let mut start: usize = 1;
    while start < count
        invariant
            1 <= start <= count,
            best_w < start,
            count == words@.len() - 10 + 1,
            wv.len() == words@.len() >= 11,
            wv == words.deep_view(),
            tv == query_terms.deep_view(),
            best_w_score == spec_term_score(spec_window_text(wv, best_w as int), tv),
            forall|k: int|
                0 <= k < start ==> spec_term_score(#[trigger] spec_window_text(wv, k), tv)
                    <= best_w_score,
            forall|k: int|
                0 <= k < best_w ==> spec_term_score(#[trigger] spec_window_text(wv, k), tv)
                    < best_w_score,
        decreases count - start,
    {
        let wd = window_words(&words, start);
        let wt = join_with(&wd, ' ');
        proof {
            assert(wt@ == spec_window_text(wv, start as int));
        }
        let sc = term_score(wt.as_str(), query_terms);
        if sc > best_w_score {
            best_w = start;
            best_w_score = sc;
        }
        start = start + 1;
    }
    proof {
        assert(first_max_window(wv, tv, best_w as int));
        assert(first_max_window(wv, tv, best_window_index(wv, tv))) by {
            assert(exists|w: int| first_max_window(wv, tv, w));
        }
        lemma_first_max_window_unique(wv, tv, best_w as int, best_window_index(wv, tv));
    }
    let lo: usize = if best_w >= 2 {
        best_w - 2
    } else {
        0
    };
    let hi: usize = if words.len() >= 12 && best_w <= words.len() - 12 {
        best_w + 12
    } else {
        words.len()
    };
    let mut mid: Vec<String> = Vec::new();
    let mut k: usize = lo;
    proof {
        assert(mid.deep_view() =~= wv.subrange(lo as int, lo as int));
    }
    while k < hi
        invariant
            lo <= k <= hi <= words@.len(),
            wv == words.deep_view(),
            mid.deep_view() == wv.subrange(lo as int, k as int),
        decreases hi - k,
    {
        let ghost mv = mid.deep_view();
        let w = words[k].clone();
        proof {
            assert(w@ == wv[k as int]);
        }
        mid.push(w);
        proof {
            assert(mid.deep_view() =~= mv.push(wv[k as int]));
            assert(mid.deep_view() =~= wv.subrange(lo as int, k as int + 1));
        }
        k = k + 1;
    }
    let body = join_with(&mid, ' ');
    let mut snippet = String::new();
    if lo > 0 {
        snippet.append("... ");
    }
    snippet.append(body.as_str());
    if hi < words.len() {
        snippet.append(" ...");
    }
    proof {
        assert(snippet@ == spec_window_snippet(wv, best_w as int));
    }
    Some(truncate_text(snippet.as_str(), max_length))
}

/// First line index at or after `from` that opens a level-one heading.
pub open spec fn spec_first_h1(lines: Seq<Seq<char>>, from: int) -> Option<int>
    decreases lines.len() - from,
{
    if from < 0 || from >= lines.len() {
        None
    } else if spec_has_prefix(lines[from], "# "@) {
        Some(from)
    } else {
        spec_first_h1(lines, from + 1)
    }
}

/// A heading line with every leading `# ` marker removed.
pub open spec fn spec_strip_h1(s: Seq<char>) -> Seq<char>
    decreases s.len(),
{
    if spec_has_prefix(s, "# "@) && s.len() >= 2 {
        spec_strip_h1(s.skip(2))
    } else {
        s
    }
}

/// Last position of `c` in `s`.
pub open spec fn spec_rfind(s: Seq<char>, c: char) -> Option<int>
    decreases s.len(),
{
    if s.len() == 0 {
        None
    } else if s[s.len() - 1] == c {
        Some(s.len() - 1)
    } else {
        spec_rfind(s.drop_last(), c)
    }
}

/// The file stem of a path: its last component without the extension, or
/// `Untitled` for a path with no components.
pub open spec fn spec_file_stem(path: Seq<char>) -> Seq<char> {
    let cs = crate::scan::spec_path_components(path);
    if cs.len() == 0 {
        "Untitled"@
    } else {
        let name = cs.last();
        match spec_rfind(name, '.') {
            Some(d) => if d > 0 {
                name.take(d)
            } else {
                name
            },
            None => name,
        }
    }
}

/// The title of a document: the first level-one heading with its markers
/// stripped, or the file stem of its path when no heading is present.
pub fn extract_title_from_markdown(content: &str, path: &str) -> (r: String)
    ensures
        r@ == match spec_first_h1(spec_lines(content@), 0) {
            Some(i) => spec_strip_h1(spec_lines(content@)[i]),
            None => spec_file_stem(path@),
        },
{
    let lines = split_str(content, '\n');
    let ghost lv = lines.deep_view();
    let mut i: usize = 0;
    let mut found: Option<usize> = None;
    while found.is_none() && i < lines.len()
        invariant
            i <= lines.len(),
            lv == lines.deep_view(),
            found is None ==> spec_first_h1(lv, 0) == spec_first_h1(lv, i as int),
            found matches Some(f) ==> spec_first_h1(lv, 0) == Some(f as int) && f
                < lines@.len(),
        decreases lines.len() - i,
    {
        proof {
            assert(lv[i as int] == lines@[i as int]@);
        }
        if has_prefix(lines[i].as_str(), "# ") {
            found = Some(i);
        }
        i = i + 1;
    }
    match found {
        Some(f) => {
            proof {
                assert(lv[f as int] == lines@[f as int]@);
            }
            let mut cur = chars_of(lines[f].as_str());
            proof {
                reveal_strlit("# ");
            }
            while cur.len() >= 2 && cur[0] == '#' && cur[1] == ' '
                invariant
                    "# "@.len() == 2 && "# "@[0] == '#' && "# "@[1] == ' ',
                    spec_strip_h1(lv[f as int]) == spec_strip_h1(cur@),
                decreases cur.len(),
            {
                proof {
                    assert(cur@.take(2) =~= "# "@);
                    assert(spec_has_prefix(cur@, "# "@));
                }
                let mut rest: Vec<char> = Vec::new();
                let mut k: usize = 2;
                while k < cur.len()
                    invariant
                        2 <= k <= cur.len(),
                        rest@ == cur@.subrange(2, k as int),
                    decreases cur.len() - k,
                {
                    rest.push(cur[k]);
                    assert(rest@ =~= cur@.subrange(2, k as int + 1));
                    k = k + 1;
                }
                proof {
                    assert(cur@.subrange(2, cur@.len() as int) =~= cur@.skip(2));
                }
                cur = rest;
            }
            proof {
                if cur@.len() >= 2 {
                    assert(spec_has_prefix(cur@, "# "@) ==> (cur@.take(2)[0] == '#'
                        && cur@.take(2)[1] == ' '));
                }
                assert(spec_strip_h1(cur@) == cur@);
            }
            string_of(&cur)
        },
        None => {
            proof {
                assert(lv.len() == lines@.len());
            }
            let comps = crate::scan::path_components(path);
            let ghost cv = comps.deep_view();
            if comps.len() == 0 {
                proof {
                    assert(cv.len() == comps@.len());
                }
                return String::from_str("Untitled");
            }
            proof {
                assert(cv.len() == comps@.len());
                assert(cv[cv.len() - 1] == comps@[comps@.len() - 1]@);
            }
            let name = &comps[comps.len() - 1];
            let cs = chars_of(name.as_str());
            let mut dot: Option<usize> = None;
            let mut k: usize = cs.len();
            proof {
                assert(name@.take(cs@.len() as int) =~= name@);
            }
            while k > 0 && dot.is_none()
                invariant
                    k <= cs.len(),
                    cs@ == name@,
                    dot is None ==> spec_rfind(name@, '.') == spec_rfind(
                        name@.take(k as int),
                        '.',
                    ),
                    dot matches Some(d) ==> spec_rfind(name@, '.') == Some(d as int) && d
                        < cs.len(),
                decreases k,
            {
                proof {
                    let part = name@.take(k as int);
                    assert(part[part.len() - 1] == name@[k as int - 1]);
                    assert(part.drop_last() =~= name@.take(k as int - 1));
                }
                if cs[k - 1] == '.' {
                    dot = Some(k - 1);
                }
                k = k - 1;
            }
            match dot {
                Some(d) if d > 0 => {
                    let mut stem: Vec<char> = Vec::new();
                    let mut t: usize = 0;
                    while t < d
                        invariant
                            t <= d < cs.len(),
                            cs@ == name@,
                            stem@ == name@.take(t as int),
                        decreases d - t,
                    {
                        stem.push(cs[t]);
                        assert(stem@ =~= name@.take(t as int + 1));
                        t = t + 1;
                    }
                    string_of(&stem)
                },
                _ => {
                    proof {
                        if dot is None {
                            assert(name@.take(cs@.len() as int) =~= name@);
                        }
                    }
                    name.clone()
                },
            }
        },
    }
}

/// The plain preview of a document: its first three non-heading lines,
/// joined with spaces and cut to 150 characters.
pub fn preview_snippet(content: &str) -> (r: String)
    ensures
        ({
            let kept = spec_lines(content@).filter(|l: Seq<char>| !spec_has_prefix(l, "#"@));
            let first = kept.take(if kept.len() <= 3 {
                kept.len() as int
            } else {
                3
            });
            r@ == spec_truncated(spec_join(first, ' '), 150)
        }),
{
    let lines = split_str(content, '\n');
    let ghost lv = lines.deep_view();
    let ghost keep = |l: Seq<char>| !spec_has_prefix(l, "#"@);
    let mut kept: Vec<String> = Vec::new();
    let mut i: usize = 0;
    proof {
        reveal(Seq::filter);
        assert(lv.take(0) =~= Seq::<Seq<char>>::empty());
        assert(kept.deep_view() =~= lv.take(0).filter(keep));
    }
    while i < lines.len()
        invariant
            i <= lines.len(),
            lv == lines.deep_view(),
            keep == (|l: Seq<char>| !spec_has_prefix(l, "#"@)),
            kept.deep_view() == lv.take(i as int).filter(keep),
        decreases lines.len() - i,
    {
        let ghost pre = lv.take(i as int);
        let ghost post = lv.take(i as int + 1);
        proof {
            reveal(Seq::filter);
            assert(post.drop_last() =~= pre);
            assert(post.last() == lv[i as int]);
            assert(lv[i as int] == lines@[i as int]@);
        }
        if !has_prefix(lines[i].as_str(), "#") {
            let ghost kv = kept.deep_view();
            let l = lines[i].clone();
            kept.push(l);
            proof {
                assert(kept.deep_view() =~= kv.push(lv[i as int]));
                assert(kept.deep_view() =~= post.filter(keep));
            }
        } else {
            proof {
                assert(kept.deep_view() =~= post.filter(keep));
            }
        }
        i = i + 1;
    }
    proof {
        assert(lv.take(lines@.len() as int) =~= lv);
        assert(lv.len() == lines@.len());
    }
    let cut: usize = if kept.len() <= 3 {
        kept.len()
    } else {
        3
    };
    let mut first: Vec<String> = Vec::new();
    let mut k: usize = 0;
    proof {
        assert(first.deep_view() =~= kept.deep_view().take(0));
    }
    while k < cut
        invariant
            k <= cut <= kept@.len(),
            first.deep_view() == kept.deep_view().take(k as int),
        decreases cut - k,
    {
        let ghost fv = first.deep_view();
        let l = kept[k].clone();
        proof {
            assert(l@ == kept.deep_view()[k as int]);
        }
        first.push(l);
        proof {
            assert(first.deep_view() =~= fv.push(kept.deep_view()[k as int]));
            assert(first.deep_view() =~= kept.deep_view().take(k as int + 1));
        }
        k = k + 1;
    }
    proof {
        assert(kept.deep_view().len() == kept@.len());
    }
    let joined = join_with(&first, ' ');
    truncate_text(joined.as_str(), 150)
}

} // verus!
