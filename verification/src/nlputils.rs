//! Candidate phrases for auto-tagging: adjective and noun unigrams, mixed
//! bigrams, normalised, de-duplicated by stem.  Part-of-speech tagging is
//! outside work; tokens arrive here with their text and tag.

use vstd::prelude::*;
use crate::text::{
    spec_trim, trim_str, lower_of, lowercase, spec_has_prefix, has_prefix, push_char,
};

verus! {

/// One token of a tagged sentence: its text and its part-of-speech tag.
pub struct TokenInfo {
    pub text: String,
    pub pos: String,
}

/// View of tagged sentences.
pub open spec fn sents_view(ss: Seq<Vec<TokenInfo>>) -> Seq<Seq<TokenInfo>> {
    ss.map_values(|v: Vec<TokenInfo>| v@)
}

/// A tag that makes its token a candidate: an adjective or any noun form.
pub open spec fn is_candidate_pos(pos: Seq<char>) -> bool {
    pos == "JJ"@ || spec_has_prefix(pos, "NN"@)
}

/// The normalised form of a token text: trimmed, in lower case.
pub open spec fn norm_of(t: Seq<char>) -> Seq<char> {
    lower_of(spec_trim(t))
}

/// The token at `(s, i)` is a candidate unigram with non-empty normal
/// form.
pub open spec fn unigram_at(sv: Seq<Seq<TokenInfo>>, s: int, i: int) -> bool {
    &&& 0 <= s < sv.len()
    &&& 0 <= i < sv[s].len()
    &&& is_candidate_pos(sv[s][i].pos@)
    &&& norm_of(sv[s][i].text@).len() > 0
}

/// The tokens at `(s, i)` and `(s, i + 1)` form a candidate bigram: both
/// are candidates, not both nouns, both with non-empty normal forms.
pub open spec fn bigram_at(sv: Seq<Seq<TokenInfo>>, s: int, i: int) -> bool {
    &&& 0 <= s < sv.len()
    &&& 0 <= i && i + 1 < sv[s].len()
    &&& is_candidate_pos(sv[s][i].pos@)
    &&& is_candidate_pos(sv[s][i + 1].pos@)
    &&& !(spec_has_prefix(sv[s][i].pos@, "NN"@) && spec_has_prefix(sv[s][i + 1].pos@, "NN"@))
    &&& norm_of(sv[s][i].text@).len() > 0
    &&& norm_of(sv[s][i + 1].text@).len() > 0
}

/// The phrase of the bigram at `(s, i)`.
pub open spec fn bigram_text(sv: Seq<Seq<TokenInfo>>, s: int, i: int) -> Seq<char> {
    norm_of(sv[s][i].text@) + seq![' '] + norm_of(sv[s][i + 1].text@)
}

/// `w` is the normal form of some candidate unigram.
pub open spec fn unigram_word(sv: Seq<Seq<TokenInfo>>, w: Seq<char>) -> bool {
    exists|s: int, i: int| unigram_at(sv, s, i) && #[trigger] norm_of(sv[s][i].text@) == w
}

/// `w` is the phrase of some candidate bigram.
pub open spec fn bigram_word(sv: Seq<Seq<TokenInfo>>, w: Seq<char>) -> bool {
    exists|s: int, i: int| bigram_at(sv, s, i) && #[trigger] bigram_text(sv, s, i) == w
}

/// `w` holds a space character.
pub open spec fn has_space(w: Seq<char>) -> bool {
    exists|k: int| 0 <= k < w.len() && w[k] == ' '
}

/// Some element of `rs` reads `w`.
pub open spec fn has_str(rs: Seq<String>, w: Seq<char>) -> bool {
    exists|a: int| 0 <= a < rs.len() && (#[trigger] rs[a])@ == w
}

/// The stem of a word, as the Snowball English stemmer computes it; the
/// mapping itself is left unspecified.
pub uninterp spec fn stem_of(w: Seq<char>) -> Seq<char>;

/// Relies on `rust_stemmers::Stemmer::stem` with the English algorithm:
/// the result depends on the word alone.
#[verifier::external_body]
fn stem_word(w: &str) -> (r: String)
    ensures
        r@ == stem_of(w@),
{
    let stemmer = rust_stemmers::Stemmer::create(rust_stemmers::Algorithm::English);
    stemmer.stem(w).into_owned()
}

/// Pushes `w` unless an equal string is already present.
fn push_unique(rs: &mut Vec<String>, w: String)
    ensures
        has_str(final(rs)@, w@),
        final(rs)@.len() >= old(rs)@.len(),
        forall|a: int| 0 <= a < old(rs)@.len() ==> final(rs)@[a] == old(rs)@[a],
        final(rs)@.len() == old(rs)@.len() || (final(rs)@.len() == old(rs)@.len() + 1
            && final(rs)@.last()@ == w@),
        (forall|a: int, b: int| 0 <= a < b < old(rs)@.len() ==> old(rs)@[a]@ != old(rs)@[b]@)
            ==> (forall|a: int, b: int|
            0 <= a < b < final(rs)@.len() ==> final(rs)@[a]@ != final(rs)@[b]@),
        forall|x: Seq<char>| has_str(old(rs)@, x) ==> has_str(final(rs)@, x),
        forall|x: Seq<char>|
            has_str(final(rs)@, x) ==> has_str(old(rs)@, x) || x == w@,
{
    let mut a: usize = 0;
    while a < rs.len()
        invariant
            a <= rs.len(),
            rs == old(rs),
            forall|x: int| 0 <= x < a ==> (#[trigger] rs@[x])@ != w@,
        decreases rs.len() - a,
    {
        if rs[a] == w {
            proof {
                assert(rs@[a as int]@ == w@);
            }
            return ;
        }
        a = a + 1;
    }
    let ghost pre = rs@;
    rs.push(w);
    proof {
        assert(rs@ =~= pre.push(rs@.last()));
        assert(rs@[rs@.len() - 1]@ == w@);
        assert forall|x: Seq<char>| has_str(pre, x) implies has_str(rs@, x) by {
            let i = choose|i: int| 0 <= i < pre.len() && (#[trigger] pre[i])@ == x;
            assert(rs@[i]@ == x);
        }
        assert forall|x: Seq<char>|
            has_str(rs@, x) implies has_str(pre, x) || x == w@ by {
            let i = choose|i: int| 0 <= i < rs@.len() && (#[trigger] rs@[i])@ == x;
            if i < pre.len() {
                assert(pre[i]@ == x);
            }
        }
        if forall|a2: int, b: int| 0 <= a2 < b < pre.len() ==> pre[a2]@ != pre[b]@ {
            assert forall|a2: int, b: int|
                0 <= a2 < b < rs@.len() implies rs@[a2]@ != rs@[b]@ by {
                if b == rs@.len() - 1 {
                    assert(rs@[a2]@ != w@);
                }
            }
        }
    }
}

/// Tests whether `w` holds a space.
fn word_has_space(w: &str) -> (r: bool)
    ensures
        r == has_space(w@),
{
    let cs = crate::text::chars_of(w);
    let mut k: usize = 0;
    while k < cs.len()
        invariant
            k <= cs.len(),
            cs@ == w@,
            forall|m: int| 0 <= m < k ==> w@[m] != ' ',
        decreases cs.len() - k,
    {
        if cs[k] == ' ' {
            assert(has_space(w@));
            return true;
        }
        k = k + 1;
    }
    false
}

/// Extract candidate phrases from tagged sentences: the normal forms of
/// adjective and noun unigrams, de-duplicated so that one shortest surface
/// form stands for each stem, and mixed bigrams kept verbatim, the whole
/// list sorted ascending; every returned phrase is distinct, every
/// candidate bigram is present, and every candidate unigram is represented
/// by a word of its stem no longer than itself.
pub fn extract_candidate_phrases(sentences: &Vec<Vec<TokenInfo>>) -> (r: Vec<String>)
    ensures
        forall|a: int, b: int|
            0 <= a < b < r@.len() ==> crate::text::lex_leq(r@[a]@, r@[b]@),
        forall|a: int, b: int| 0 <= a < b < r@.len() ==> r@[a]@ != r@[b]@,
        forall|a: int|
            0 <= a < r@.len() ==> unigram_word(sents_view(sentences@), (#[trigger] r@[a])@)
                || bigram_word(sents_view(sentences@), r@[a]@),
        forall|s: int, i: int|
            bigram_at(sents_view(sentences@), s, i) ==> has_str(
                r@,
                #[trigger] bigram_text(sents_view(sentences@), s, i),
            ),
        forall|s: int, i: int|
            unigram_at(sents_view(sentences@), s, i) && !has_space(
                #[trigger] norm_of(sents_view(sentences@)[s][i].text@),
            ) ==> exists|a: int|
                0 <= a < r@.len() && stem_of((#[trigger] r@[a])@) == stem_of(
                    norm_of(sents_view(sentences@)[s][i].text@),
                ) && !has_space(r@[a]@) && r@[a]@.len() <= norm_of(
                    sents_view(sentences@)[s][i].text@,
                ).len(),
        forall|s: int, i: int|
            unigram_at(sents_view(sentences@), s, i) && has_space(
                #[trigger] norm_of(sents_view(sentences@)[s][i].text@),
            ) ==> has_str(r@, norm_of(sents_view(sentences@)[s][i].text@)),
{
    let ghost sv = sents_view(sentences@);
    let cands = collect_candidates(sentences);
    let ghost cv = cands@;
    let deduped = split_and_dedup(cands, Ghost(sv));
    let ghost dv = deduped@;
    let r = crate::text::sort_strings_lex(&deduped);
    proof {
        let js = choose|js: Seq<int>| crate::text::strings_selection(dv, js, r@);
        assert forall|a: int, b: int| 0 <= a < b < r@.len() implies r@[a]@ != r@[b]@ by {
            assert(r@[a]@ == dv[js[a]]@);
            assert(r@[b]@ == dv[js[b]]@);
            assert(js[a] != js[b]);
            if js[a] < js[b] {
                assert(dv[js[a]]@ != dv[js[b]]@);
            } else {
                assert(dv[js[b]]@ != dv[js[a]]@);
            }
        }
        assert forall|a: int|
            0 <= a < r@.len() implies (unigram_word(sv, (#[trigger] r@[a])@) || bigram_word(
            sv,
            r@[a]@,
        )) by {
            assert(r@[a]@ == dv[js[a]]@);
            assert(unigram_word(sv, dv[js[a]]@) || bigram_word(sv, dv[js[a]]@));
        }
        assert forall|s2: int, i2: int|
            bigram_at(sv, s2, i2) implies has_str(
            r@,
            #[trigger] bigram_text(sv, s2, i2),
        ) by {
            let bt = bigram_text(sv, s2, i2);
            let l1 = norm_of(sv[s2][i2].text@).len();
            assert(bt[l1 as int] == ' ');
            assert(has_space(bt));
            assert(has_str(cv, bt));
            assert(has_str(dv, bt));
            let k = choose|k: int| 0 <= k < dv.len() && (#[trigger] dv[k])@ == bt;
            assert(crate::text::picks(js, k));
            let a = choose|a: int| 0 <= a < js.len() && #[trigger] js[a] == k;
            assert(r@[a]@ == bt);
        }
        assert forall|s2: int, i2: int|
            unigram_at(sv, s2, i2) && !has_space(
                #[trigger] norm_of(sv[s2][i2].text@),
            ) implies exists|a: int|
            0 <= a < r@.len() && stem_of((#[trigger] r@[a])@) == stem_of(
                norm_of(sv[s2][i2].text@),
            ) && !has_space(r@[a]@) && r@[a]@.len() <= norm_of(sv[s2][i2].text@).len() by {
            let w = norm_of(sv[s2][i2].text@);
            assert(has_str(cv, w));
            let k = choose|k: int|
                0 <= k < dv.len() && stem_of((#[trigger] dv[k])@) == stem_of(w) && !has_space(
                    dv[k]@,
                ) && dv[k]@.len() <= w.len();
            assert(crate::text::picks(js, k));
            let a = choose|a: int| 0 <= a < js.len() && #[trigger] js[a] == k;
            assert(r@[a]@ == dv[k]@);
        }
        assert forall|s2: int, i2: int|
            unigram_at(sv, s2, i2) && has_space(
                #[trigger] norm_of(sv[s2][i2].text@),
            ) implies has_str(r@, norm_of(sv[s2][i2].text@)) by {
            let w = norm_of(sv[s2][i2].text@);
            assert(has_str(cv, w));
            assert(has_str(dv, w));
            let k = choose|k: int| 0 <= k < dv.len() && (#[trigger] dv[k])@ == w;
            assert(crate::text::picks(js, k));
            let a = choose|a: int| 0 <= a < js.len() && #[trigger] js[a] == k;
            assert(r@[a]@ == w);
        }
    }
    r
}

/// Gathers every candidate unigram normal form and bigram phrase, each
/// once.
#[verifier::rlimit(50)]
fn collect_candidates(sentences: &Vec<Vec<TokenInfo>>) -> (cands: Vec<String>)
    ensures
        forall|a: int, b: int| 0 <= a < b < cands@.len() ==> cands@[a]@ != cands@[b]@,
        forall|a: int|
            0 <= a < cands@.len() ==> unigram_word(sents_view(sentences@), (
            #[trigger] cands@[a])@) || bigram_word(sents_view(sentences@), cands@[a]@),
        forall|s: int, i: int|
            unigram_at(sents_view(sentences@), s, i) ==> has_str(
                cands@,
                norm_of((#[trigger] sents_view(sentences@)[s][i]).text@),
            ),
        forall|s: int, i: int|
            bigram_at(sents_view(sentences@), s, i) ==> has_str(
                cands@,
                #[trigger] bigram_text(sents_view(sentences@), s, i),
            ),
{
    let ghost sv = sents_view(sentences@);
    let mut cands: Vec<String> = Vec::new();
    let mut s: usize = 0;
    while s < sentences.len()
        invariant
            s <= sentences.len(),
            sv == sents_view(sentences@),
            forall|a: int, b: int| 0 <= a < b < cands@.len() ==> cands@[a]@ != cands@[b]@,
            forall|a: int|
                0 <= a < cands@.len() ==> unigram_word(sv, (#[trigger] cands@[a])@)
                    || bigram_word(sv, cands@[a]@),
            forall|s2: int, i2: int|
                0 <= s2 < s && unigram_at(sv, s2, i2) ==> has_str(
                    cands@,
                    norm_of((#[trigger] sv[s2][i2]).text@),
                ),
            forall|s2: int, i2: int|
                0 <= s2 < s && bigram_at(sv, s2, i2) ==> has_str(
                    cands@,
                    #[trigger] bigram_text(sv, s2, i2),
                ),
        decreases sentences.len() - s,
    {
        proof {
            assert(sv[s as int] == sentences@[s as int]@);
        }
        let toks = &sentences[s];
        let mut i: usize = 0;
        while i < toks.len()
            invariant
                i <= toks.len(),
                s < sentences.len(),
                toks == &sentences@[s as int],
                sv == sents_view(sentences@),
                sv[s as int] == sentences@[s as int]@,
                forall|a: int, b: int| 0 <= a < b < cands@.len() ==> cands@[a]@ != cands@[b]@,
                forall|a: int|
                    0 <= a < cands@.len() ==> unigram_word(sv, (#[trigger] cands@[a])@)
                        || bigram_word(sv, cands@[a]@),
                forall|s2: int, i2: int|
                    0 <= s2 < s && unigram_at(sv, s2, i2) ==> has_str(
                        cands@,
                        norm_of((#[trigger] sv[s2][i2]).text@),
                    ),
                forall|i2: int|
                    0 <= i2 < i && unigram_at(sv, s as int, i2) ==> has_str(
                        cands@,
                        norm_of((#[trigger] sv[s as int][i2]).text@),
                    ),
                forall|s2: int, i2: int|
                    0 <= s2 < s && bigram_at(sv, s2, i2) ==> has_str(
                        cands@,
                        #[trigger] bigram_text(sv, s2, i2),
                    ),
                forall|i2: int|
                    0 <= i2 < i && bigram_at(sv, s as int, i2) ==> has_str(
                        cands@,
                        #[trigger] bigram_text(sv, s as int, i2),
                    ),
            decreases toks.len() - i,
        {
            let ghost candsa = cands@;
            let is_cand = has_prefix(toks[i].pos.as_str(), "NN") || {
                let jj = String::from_str("JJ");
                toks[i].pos == jj
            };
            proof {
                assert(is_cand == is_candidate_pos(sv[s as int][i as int].pos@));
            }
            let trimmed = trim_str(toks[i].text.as_str());
            let word = lowercase(trimmed.as_str());
            proof {
                assert(word@ == norm_of(sv[s as int][i as int].text@));
            }
            let word_empty = word.as_str().is_empty();
            if is_cand && !word_empty {
                push_unique(&mut cands, word);
            }
            proof {
                assert forall|i2: int|
                    0 <= i2 < i + 1 && unigram_at(sv, s as int, i2) implies has_str(
                    cands@,
                    norm_of((#[trigger] sv[s as int][i2]).text@),
                ) by {
                    if i2 < i {
                        let x = choose|x: int|
                            0 <= x < candsa.len() && (#[trigger] candsa[x])@ == norm_of(
                                sv[s as int][i2].text@,
                            );
                        assert(has_str(candsa, norm_of(sv[s as int][i2].text@)));
                    }
                }
                assert forall|s2: int, i2: int|
                    0 <= s2 < s && unigram_at(sv, s2, i2) implies has_str(
                    cands@,
                    norm_of((#[trigger] sv[s2][i2]).text@),
                ) by {
                    assert(has_str(candsa, norm_of(sv[s2][i2].text@)));
                }
                assert forall|s2: int, i2: int|
                    0 <= s2 < s && bigram_at(sv, s2, i2) implies has_str(
                    cands@,
                    #[trigger] bigram_text(sv, s2, i2),
                ) by {
                    assert(has_str(candsa, bigram_text(sv, s2, i2)));
                }
            }
            let ghost candsb = cands@;
            if i + 1 < toks.len() {
                let c2 = has_prefix(toks[i + 1].pos.as_str(), "NN") || {
                    let jj = String::from_str("JJ");
                    toks[i + 1].pos == jj
                };
                let both_nn = has_prefix(toks[i].pos.as_str(), "NN") && has_prefix(
                    toks[i + 1].pos.as_str(),
                    "NN",
                );
                proof {
                    assert(c2 == is_candidate_pos(sv[s as int][i as int + 1].pos@));
                }
                let t1 = trim_str(toks[i].text.as_str());
                let w1 = lowercase(t1.as_str());
                let t2 = trim_str(toks[i + 1].text.as_str());
                let w2 = lowercase(t2.as_str());
                proof {
                    assert(w1@ == norm_of(sv[s as int][i as int].text@));
                    assert(w2@ == norm_of(sv[s as int][i as int + 1].text@));
                }
                let w1e = w1.as_str().is_empty();
                let w2e = w2.as_str().is_empty();
                if is_cand && c2 && !both_nn && !w1e && !w2e {
                    let mut phrase = w1;
                    push_char(&mut phrase, ' ');
                    phrase.append(w2.as_str());
                    proof {
                        assert(phrase@ == bigram_text(sv, s as int, i as int));
                    }
                    push_unique(&mut cands, phrase);
                }
                proof {
                    assert forall|i2: int|
                        0 <= i2 < i + 1 && bigram_at(sv, s as int, i2) implies has_str(
                        cands@,
                        #[trigger] bigram_text(sv, s as int, i2),
                    ) by {
                        if i2 < i {
                            assert(has_str(candsa, bigram_text(sv, s as int, i2)));
                            assert(has_str(candsb, bigram_text(sv, s as int, i2)));
                        } else {
                            assert(bigram_at(sv, s as int, i2) ==> (is_cand && c2 && !both_nn
                                && !w1e && !w2e));
                        }
                    }
                    assert forall|i2: int|
                        0 <= i2 < i + 1 && unigram_at(sv, s as int, i2) implies has_str(
                        cands@,
                        norm_of((#[trigger] sv[s as int][i2]).text@),
                    ) by {
                        assert(has_str(candsb, norm_of(sv[s as int][i2].text@)));
                    }
                    assert forall|s2: int, i2: int|
                        0 <= s2 < s && unigram_at(sv, s2, i2) implies has_str(
                        cands@,
                        norm_of((#[trigger] sv[s2][i2]).text@),
                    ) by {
                        assert(has_str(candsb, norm_of(sv[s2][i2].text@)));
                    }
                    assert forall|s2: int, i2: int|
                        0 <= s2 < s && bigram_at(sv, s2, i2) implies has_str(
                        cands@,
                        #[trigger] bigram_text(sv, s2, i2),
                    ) by {
                        assert(has_str(candsb, bigram_text(sv, s2, i2)));
                    }
                }
            } else {
                proof {
                    assert(sv[s as int].len() == toks@.len());
                    assert forall|i2: int|
                        0 <= i2 < i + 1 && bigram_at(sv, s as int, i2) implies has_str(
                        cands@,
                        #[trigger] bigram_text(sv, s as int, i2),
                    ) by {
                        assert(i2 < i);
                        assert(has_str(candsa, bigram_text(sv, s as int, i2)));
                    }
                }
            }
            i = i + 1;
        }
        proof {
            assert(sv[s as int].len() == sentences@[s as int]@.len());
            assert forall|i2: int|
                unigram_at(sv, s as int, i2) implies has_str(
                cands@,
                norm_of((#[trigger] sv[s as int][i2]).text@),
            ) by {
                assert(0 <= i2 < i);
            }
            assert forall|i2: int|
                bigram_at(sv, s as int, i2) implies has_str(
                cands@,
                #[trigger] bigram_text(sv, s as int, i2),
            ) by {
                assert(0 <= i2 < i);
            }
        }
        s = s + 1;
    }
    proof {
        assert(sv.len() == sentences@.len());
    }
    cands
}

/// Splits candidates into stem representatives and multi-word phrases.
fn split_and_dedup(cands: Vec<String>, Ghost(sv): Ghost<Seq<Seq<TokenInfo>>>) -> (r: Vec<String>)
    requires
        forall|a: int, b: int| 0 <= a < b < cands@.len() ==> cands@[a]@ != cands@[b]@,
        forall|a: int|
            0 <= a < cands@.len() ==> unigram_word(sv, (#[trigger] cands@[a])@) || bigram_word(
                sv,
                cands@[a]@,
            ),
    ensures
        forall|a: int, b: int| 0 <= a < b < r@.len() ==> r@[a]@ != r@[b]@,
        forall|a: int|
            0 <= a < r@.len() ==> unigram_word(sv, (#[trigger] r@[a])@) || bigram_word(
                sv,
                r@[a]@,
            ),
        forall|x: Seq<char>|
            has_str(cands@, x) && has_space(x) ==> has_str(r@, x),
        forall|x: Seq<char>|
            has_str(cands@, x) && !has_space(x) ==> exists|a: int|
                0 <= a < r@.len() && stem_of((#[trigger] r@[a])@) == stem_of(x) && !has_space(
                    r@[a]@,
                ) && r@[a]@.len() <= x.len(),
{
    let mut reps: Vec<(String, String)> = Vec::new();
    let mut multis: Vec<String> = Vec::new();
    let mut t: usize = 0;
    while t < cands.len()
        invariant
            t <= cands.len(),
            forall|a: int, b: int| 0 <= a < b < cands@.len() ==> cands@[a]@ != cands@[b]@,
            forall|a: int|
                0 <= a < cands@.len() ==> unigram_word(sv, (#[trigger] cands@[a])@)
                    || bigram_word(sv, cands@[a]@),
            forall|a: int|
                0 <= a < reps@.len() ==> (#[trigger] reps@[a]).0@ == stem_of(reps@[a].1@),
            forall|a: int|
                0 <= a < reps@.len() ==> has_str(cands@, (#[trigger] reps@[a]).1@) && !has_space(
                    reps@[a].1@,
                ),
            forall|a: int, b: int|
                0 <= a < b < reps@.len() ==> (#[trigger] reps@[a]).0@ != (
                #[trigger] reps@[b]).0@,
            forall|a: int|
                0 <= a < multis@.len() ==> has_str(cands@, (#[trigger] multis@[a])@)
                    && has_space(multis@[a]@),
            forall|a: int, b: int| 0 <= a < b < multis@.len() ==> multis@[a]@ != multis@[b]@,
            forall|k: int|
                0 <= k < t && has_space((#[trigger] cands@[k])@) ==> has_str(
                    multis@,
                    cands@[k]@,
                ),
            forall|k: int|
                0 <= k < t && !has_space((#[trigger] cands@[k])@) ==> exists|a: int|
                    0 <= a < reps@.len() && (#[trigger] reps@[a]).0@ == stem_of(cands@[k]@)
                        && reps@[a].1@.len() <= cands@[k]@.len(),
        decreases cands.len() - t,
    {
        let w = cands[t].clone();
        proof {
            assert(w@ == cands@[t as int]@);
        }
        if word_has_space(w.as_str()) {
            let ghost mold = multis@;
            let mut dup = false;
            let mut x: usize = 0;
            while x < multis.len()
                invariant
                    x <= multis.len(),
                    dup ==> has_str(multis@, w@),
                    !dup ==> forall|m: int| 0 <= m < x ==> (#[trigger] multis@[m])@ != w@,
                decreases multis.len() - x,
            {
                if multis[x] == w {
                    dup = true;
                    proof {
                        assert(multis@[x as int]@ == w@);
                    }
                    x = multis.len();
                } else {
                    x = x + 1;
                }
            }
            if !dup {
                multis.push(w);
                proof {
                    assert(multis@ =~= mold.push(multis@.last()));
                    assert(multis@[multis@.len() - 1]@ == cands@[t as int]@);
                    assert forall|k: int|
                        0 <= k < t + 1 && has_space((#[trigger] cands@[k])@) implies has_str(
                        multis@,
                        cands@[k]@,
                    ) by {
                        if k < t {
                            let m = choose|m: int|
                                0 <= m < mold.len() && (#[trigger] mold[m])@ == cands@[k]@;
                            assert(multis@[m]@ == cands@[k]@);
                        }
                    }
                }
            } else {
                proof {
                    assert forall|k: int|
                        0 <= k < t + 1 && has_space((#[trigger] cands@[k])@) implies has_str(
                        multis@,
                        cands@[k]@,
                    ) by {}
                }
            }
        } else {
            let st = stem_word(w.as_str());
            let ghost rold = reps@;
            let mut found: Option<usize> = None;
            let mut x: usize = 0;
            while found.is_none() && x < reps.len()
                invariant
                    x <= reps.len(),
                    st@ == stem_of(w@),
                    found is None ==> forall|m: int|
                        0 <= m < x ==> (#[trigger] reps@[m]).0@ != st@,
                    found matches Some(f) ==> f < reps@.len() && reps@[f as int].0@ == st@,
                decreases reps.len() - x,
            {
                if reps[x].0 == st {
                    found = Some(x);
                    proof {
                        assert(reps@[x as int].0@ == st@);
                    }
                }
                x = x + 1;
            }
            match found {
                None => {
                    reps.push((st, w));
                    proof {
                        assert(reps@ =~= rold.push(reps@.last()));
                        assert(reps@[reps@.len() - 1].0@ == stem_of(cands@[t as int]@));
                        assert(reps@[reps@.len() - 1].1@ == cands@[t as int]@);
                        assert forall|k: int|
                            0 <= k < t + 1 && !has_space((#[trigger] cands@[k])@) implies exists|
                            a: int,
                        |
                            0 <= a < reps@.len() && (#[trigger] reps@[a]).0@ == stem_of(
                                cands@[k]@,
                            ) && reps@[a].1@.len() <= cands@[k]@.len() by {
                            if k < t {
                                let m = choose|m: int|
                                    0 <= m < rold.len() && (#[trigger] rold[m]).0@ == stem_of(
                                        cands@[k]@,
                                    ) && rold[m].1@.len() <= cands@[k]@.len();
                                assert(reps@[m].0@ == stem_of(cands@[k]@));
                                assert(reps@[m].1@.len() <= cands@[k]@.len());
                            } else {
                                assert(reps@[reps@.len() - 1].0@ == stem_of(cands@[k]@));
                                assert(reps@[reps@.len() - 1].1@.len() <= cands@[k]@.len());
                            }
                        }
                    }
                },
                Some(f) => {
                    let shorter = w.as_str().unicode_len() < reps[f].1.as_str().unicode_len();
                    if shorter {
                        let old_pair = reps.remove(f);
                        reps.insert(f, (old_pair.0, w));
                        proof {
                            assert(reps@ =~= rold.update(f as int, reps@[f as int]));
                            assert(reps@[f as int].0@ == rold[f as int].0@);
                            assert(reps@[f as int].1@ == cands@[t as int]@);
                            assert(reps@[f as int].1@.len() < rold[f as int].1@.len());
                            assert forall|k: int|
                                0 <= k < t + 1 && !has_space(
                                    (#[trigger] cands@[k])@,
                                ) implies exists|a: int|
                                0 <= a < reps@.len() && (#[trigger] reps@[a]).0@ == stem_of(
                                    cands@[k]@,
                                ) && reps@[a].1@.len() <= cands@[k]@.len() by {
                                if k < t {
                                    let m = choose|m: int|
                                        0 <= m < rold.len() && (#[trigger] rold[m]).0@
                                            == stem_of(cands@[k]@) && rold[m].1@.len()
                                            <= cands@[k]@.len();
                                    assert(reps@[m].0@ == stem_of(cands@[k]@));
                                    if m == f {
                                        assert(reps@[m].1@.len() <= cands@[k]@.len());
                                    } else {
                                        assert(reps@[m].1@.len() <= cands@[k]@.len());
                                    }
                                } else {
                                    assert(reps@[f as int].0@ == stem_of(cands@[k]@));
                                    assert(reps@[f as int].1@.len() <= cands@[k]@.len());
                                }
                            }
                        }
                    } else {
                        proof {
                            assert forall|k: int|
                                0 <= k < t + 1 && !has_space(
                                    (#[trigger] cands@[k])@,
                                ) implies exists|a: int|
                                0 <= a < reps@.len() && (#[trigger] reps@[a]).0@ == stem_of(
                                    cands@[k]@,
                                ) && reps@[a].1@.len() <= cands@[k]@.len() by {
                                if k == t {
                                    assert(reps@[f as int].0@ == stem_of(cands@[k]@));
                                    assert(reps@[f as int].1@.len() <= cands@[k]@.len());
                                }
                            }
                        }
                    }
                },
            }
        }
        t = t + 1;
    }
    let mut r: Vec<String> = Vec::new();
    let mut a: usize = 0;
    while a < reps.len()
        invariant
            a <= reps.len(),
            r@.len() == a,
            forall|m: int|
                0 <= m < reps@.len() ==> (#[trigger] reps@[m]).0@ == stem_of(reps@[m].1@),
            forall|m: int|
                0 <= m < reps@.len() ==> has_str(cands@, (#[trigger] reps@[m]).1@) && !has_space(
                    reps@[m].1@,
                ),
            forall|m: int, b: int|
                0 <= m < b < reps@.len() ==> (#[trigger] reps@[m]).0@ != (
                #[trigger] reps@[b]).0@,
            forall|m: int| 0 <= m < a ==> (#[trigger] r@[m])@ == reps@[m].1@,
        decreases reps.len() - a,
    {
        let word = reps[a].1.clone();
        r.push(word);
        a = a + 1;
    }
    let ghost rwords = r@;
    let mut b: usize = 0;
    while b < multis.len()
        invariant
            b <= multis.len(),
            r@.len() == rwords.len() + b,
            forall|m: int| 0 <= m < rwords.len() ==> r@[m] == rwords[m],
            forall|m: int| 0 <= m < b ==> (#[trigger] r@[rwords.len() + m])@ == multis@[m]@,
            rwords.len() == reps@.len(),
            forall|m: int| 0 <= m < rwords.len() ==> (#[trigger] rwords[m])@ == reps@[m].1@,
            forall|m: int|
                0 <= m < reps@.len() ==> (#[trigger] reps@[m]).0@ == stem_of(reps@[m].1@),
            forall|m: int|
                0 <= m < reps@.len() ==> has_str(cands@, (#[trigger] reps@[m]).1@) && !has_space(
                    reps@[m].1@,
                ),
            forall|m: int, b2: int|
                0 <= m < b2 < reps@.len() ==> (#[trigger] reps@[m]).0@ != (
                #[trigger] reps@[b2]).0@,
            forall|m: int|
                0 <= m < multis@.len() ==> has_str(cands@, (#[trigger] multis@[m])@)
                    && has_space(multis@[m]@),
            forall|m: int, b2: int| 0 <= m < b2 < multis@.len() ==> multis@[m]@ != multis@[b2]@,
        decreases multis.len() - b,
    {
        let word = multis[b].clone();
        r.push(word);
        b = b + 1;
    }
    proof {
        let n = reps@.len() as int;
        assert forall|x: int, y: int| 0 <= x < y < r@.len() implies r@[x]@ != r@[y]@ by {
            if x < n && y < n {
                assert(r@[x] == rwords[x]);
                assert(r@[y] == rwords[y]);
                assert(rwords[x]@ == reps@[x].1@);
                assert(rwords[y]@ == reps@[y].1@);
                if r@[x]@ == r@[y]@ {
                    assert(reps@[x].0@ == reps@[y].0@);
                }
            } else if x < n && y >= n {
                assert(r@[x] == rwords[x]);
                assert(rwords[x]@ == reps@[x].1@);
                assert(!has_space(reps@[x].1@));
                let my = y - n;
                assert(r@[rwords.len() + my]@ == multis@[my]@);
                assert(has_space(multis@[my]@));
            } else {
                let mx = x - n;
                let my = y - n;
                assert(r@[rwords.len() + mx]@ == multis@[mx]@);
                assert(r@[rwords.len() + my]@ == multis@[my]@);
                assert(multis@[mx]@ != multis@[my]@);
            }
        }
        assert forall|x: int|
            0 <= x < r@.len() implies unigram_word(sv, (#[trigger] r@[x])@) || bigram_word(
            sv,
            r@[x]@,
        ) by {
            if x < n {
                assert(r@[x] == rwords[x]);
                assert(rwords[x]@ == reps@[x].1@);
                assert(has_str(cands@, reps@[x].1@));
                let c = choose|c: int|
                    0 <= c < cands@.len() && (#[trigger] cands@[c])@ == reps@[x].1@;
                assert(cands@[c]@ == r@[x]@);
            } else {
                let mx = x - n;
                assert(r@[rwords.len() + mx]@ == multis@[mx]@);
                assert(has_str(cands@, multis@[mx]@));
                let c = choose|c: int|
                    0 <= c < cands@.len() && (#[trigger] cands@[c])@ == multis@[mx]@;
                assert(cands@[c]@ == r@[x]@);
            }
        }
        assert forall|x: Seq<char>|
            has_str(cands@, x) && has_space(x) implies has_str(r@, x) by {
            let k = choose|k: int| 0 <= k < cands@.len() && (#[trigger] cands@[k])@ == x;
            assert(has_str(multis@, x));
            let m = choose|m: int| 0 <= m < multis@.len() && (#[trigger] multis@[m])@ == x;
            assert(r@[rwords.len() + m]@ == multis@[m]@);
            assert(r@[rwords.len() + m]@ == x);
        }
        assert forall|x: Seq<char>|
            has_str(cands@, x) && !has_space(x) implies exists|a2: int|
            0 <= a2 < r@.len() && stem_of((#[trigger] r@[a2])@) == stem_of(x) && !has_space(
            r@[a2]@,
        ) && r@[a2]@.len() <= x.len() by {
            let k = choose|k: int| 0 <= k < cands@.len() && (#[trigger] cands@[k])@ == x;
            let m = choose|m: int|
                0 <= m < reps@.len() && (#[trigger] reps@[m]).0@ == stem_of(cands@[k]@)
                    && reps@[m].1@.len() <= cands@[k]@.len();
            assert(r@[m] == rwords[m]);
            assert(rwords[m]@ == reps@[m].1@);
            assert(stem_of(r@[m]@) == reps@[m].0@);
            assert(!has_space(reps@[m].1@));
            assert(r@[m]@.len() <= x.len());
        }
    }
    r
}

} // verus!
