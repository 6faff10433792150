//! Shared text utilities: splitting, joining, trimming, substring search and
//! decimal rendering, with exact specifications over character sequences.

use vstd::prelude::*;

verus! {

/// Whitespace characters recognised when splitting text into words.
pub open spec fn is_space(c: char) -> bool {
    c == ' ' || c == '\t' || c == '\n' || c == '\r'
}

/// Splits `s` at every occurrence of `sep`, keeping empty pieces, so a string
/// with `n` separators yields `n + 1` pieces.
pub open spec fn spec_split_keep(s: Seq<char>, sep: char) -> Seq<Seq<char>>
    decreases s.len(),
{
    if s.len() == 0 {
        seq![Seq::empty()]
    } else {
        let rest = spec_split_keep(s.skip(1), sep);
        if s[0] == sep {
            seq![Seq::<char>::empty()] + rest
        } else {
            seq![seq![s[0]] + rest[0]] + rest.skip(1)
        }
    }
}

/// A split always yields at least one piece.
pub proof fn lemma_split_keep_len(s: Seq<char>, sep: char)
    ensures
        spec_split_keep(s, sep).len() >= 1,
    decreases s.len(),
{
    if s.len() > 0 {
        lemma_split_keep_len(s.skip(1), sep);
    }
}

/// No character of `s` is the separator.
pub open spec fn sep_free(s: Seq<char>, sep: char) -> bool {
    forall|k: int| 0 <= k < s.len() ==> s[k] != sep
}

/// Splitting a separator-free text yields that text as its one piece.
pub proof fn lemma_split_sep_free(s: Seq<char>, sep: char)
    requires
        sep_free(s, sep),
    ensures
        spec_split_keep(s, sep) == seq![s],
    decreases s.len(),
{
    if s.len() > 0 {
        assert(forall|k: int| 0 <= k < s.skip(1).len() ==> #[trigger] s.skip(1)[k] == s[k + 1]);
        lemma_split_sep_free(s.skip(1), sep);
        assert(seq![s[0]] + s.skip(1) =~= s);
        assert(spec_split_keep(s, sep) =~~= seq![s]);
    } else {
        assert(s =~= Seq::<char>::empty());
        assert(spec_split_keep(s, sep) =~~= seq![s]);
    }
}

/// Splitting around one separator splits before and after it, the
/// separator-free front as one piece.
pub proof fn lemma_split_concat(x: Seq<char>, y: Seq<char>, sep: char)
    requires
        sep_free(x, sep),
    ensures
        spec_split_keep(x + seq![sep] + y, sep) == seq![x] + spec_split_keep(y, sep),
    decreases x.len(),
{
    let s = x + seq![sep] + y;
    if x.len() == 0 {
        assert(s[0] == sep);
        assert(s.skip(1) =~= y);
        assert(spec_split_keep(s, sep) =~~= seq![x] + spec_split_keep(y, sep));
    } else {
        assert(s[0] == x[0]);
        assert(s[0] != sep);
        assert(forall|k: int| 0 <= k < x.skip(1).len() ==> #[trigger] x.skip(1)[k] == x[k + 1]);
        lemma_split_concat(x.skip(1), y, sep);
        assert(s.skip(1) =~= x.skip(1) + seq![sep] + y);
        lemma_split_keep_len(y, sep);
        let rest = spec_split_keep(s.skip(1), sep);
        assert(rest == seq![x.skip(1)] + spec_split_keep(y, sep));
        assert(rest[0] == x.skip(1));
        assert(seq![s[0]] + rest[0] =~= x);
        assert(rest.skip(1) =~= spec_split_keep(y, sep));
        assert(spec_split_keep(s, sep) =~~= seq![x] + spec_split_keep(y, sep));
    }
}

/// Splitting a text around an explicit separator splits its two halves
/// independently, whatever they hold.
pub proof fn lemma_split_concat_general(x: Seq<char>, y: Seq<char>, sep: char)
    ensures
        spec_split_keep(x + seq![sep] + y, sep) == spec_split_keep(x, sep) + spec_split_keep(
            y,
            sep,
        ),
    decreases x.len(),
{
    let s = x + seq![sep] + y;
    if x.len() == 0 {
        assert(s[0] == sep);
        assert(s.skip(1) =~= y);
        assert(x =~= Seq::<char>::empty());
        assert(spec_split_keep(x, sep) == seq![Seq::<char>::empty()]);
        assert(spec_split_keep(s, sep) =~~= spec_split_keep(x, sep) + spec_split_keep(y, sep));
    } else {
        assert(s[0] == x[0]);
        lemma_split_concat_general(x.skip(1), y, sep);
        assert(s.skip(1) =~= x.skip(1) + seq![sep] + y);
        lemma_split_keep_len(x.skip(1), sep);
        lemma_split_keep_len(y, sep);
        let r = spec_split_keep(s.skip(1), sep);
        assert(r == spec_split_keep(x.skip(1), sep) + spec_split_keep(y, sep));
        if x[0] == sep {
            assert(spec_split_keep(s, sep) == seq![Seq::<char>::empty()] + r);
            assert(spec_split_keep(x, sep) == seq![Seq::<char>::empty()] + spec_split_keep(
                x.skip(1),
                sep,
            ));
            assert(spec_split_keep(s, sep) =~~= spec_split_keep(x, sep) + spec_split_keep(
                y,
                sep,
            ));
        } else {
            assert(r[0] == spec_split_keep(x.skip(1), sep)[0]);
            assert(spec_split_keep(s, sep) == seq![seq![s[0]] + r[0]] + r.skip(1));
            assert(spec_split_keep(x, sep) == seq![seq![x[0]] + spec_split_keep(x.skip(1), sep)[0]]
                + spec_split_keep(x.skip(1), sep).skip(1));
            assert(r.skip(1) =~= spec_split_keep(x.skip(1), sep).skip(1) + spec_split_keep(
                y,
                sep,
            ));
            assert(spec_split_keep(s, sep) =~~= spec_split_keep(x, sep) + spec_split_keep(
                y,
                sep,
            ));
        }
    }
}

/// Splitting the separator-joined pieces back gives the pieces, when each
/// piece is non-empty and separator-free.
pub proof fn lemma_split_of_join(cs: Seq<Seq<char>>, sep: char)
    requires
        forall|k: int| 0 <= k < cs.len() ==> (#[trigger] cs[k]).len() > 0,
        forall|k: int| 0 <= k < cs.len() ==> sep_free(#[trigger] cs[k], sep),
    ensures
        nonempty_pieces(spec_split_keep(spec_join(cs, sep), sep)) == cs,
    decreases cs.len(),
{
    reveal(Seq::filter);
    broadcast use vstd::seq_lib::group_filter_ensures;

    let p = |piece: Seq<char>| piece.len() > 0;
    if cs.len() == 0 {
        assert(spec_join(cs, sep) == Seq::<char>::empty());
        assert(spec_split_keep(Seq::<char>::empty(), sep) == seq![Seq::<char>::empty()]);
        let single = seq![Seq::<char>::empty()];
        assert(single.drop_last() =~= Seq::<Seq<char>>::empty());
        assert(single.last() == Seq::<char>::empty());
        assert(!p(Seq::<char>::empty()));
        assert(Seq::<Seq<char>>::empty().filter(p) =~= Seq::<Seq<char>>::empty());
        assert(single.filter(p) =~= Seq::<Seq<char>>::empty());
        assert(nonempty_pieces(spec_split_keep(spec_join(cs, sep), sep)) =~~= cs);
    } else if cs.len() == 1 {
        assert(spec_join(cs, sep) == cs[0]);
        lemma_split_sep_free(cs[0], sep);
        let single = seq![cs[0]];
        assert(single.drop_last() =~= Seq::<Seq<char>>::empty());
        assert(single.last() == cs[0]);
        assert(p(cs[0]));
        assert(Seq::<Seq<char>>::empty().filter(p) =~= Seq::<Seq<char>>::empty());
        assert(single.filter(p) =~~= cs);
    } else {
        let rest = cs.skip(1);
        assert(forall|k: int| 0 <= k < rest.len() ==> #[trigger] rest[k] == cs[k + 1]);
        lemma_split_of_join(rest, sep);
        assert(spec_join(cs, sep) == cs[0] + seq![sep] + spec_join(rest, sep));
        lemma_split_concat(cs[0], spec_join(rest, sep), sep);
        Seq::filter_distributes_over_add(
            seq![cs[0]],
            spec_split_keep(spec_join(rest, sep), sep),
            p,
        );
        assert(seq![cs[0]].drop_last() =~= Seq::<Seq<char>>::empty());
        assert(seq![cs[0]].filter(p) =~~= seq![cs[0]]);
        assert(nonempty_pieces(spec_split_keep(spec_join(cs, sep), sep)) =~~= seq![cs[0]]
            + rest);
        assert(seq![cs[0]] + rest =~= cs);
    }
}

/// Every non-empty piece is one of the pieces.
pub proof fn lemma_nonempty_pieces_elements(s: Seq<Seq<char>>)
    ensures
        forall|i: int|
            0 <= i < nonempty_pieces(s).len() ==> s.contains(#[trigger] nonempty_pieces(s)[i]),
    decreases s.len(),
{
    reveal(Seq::filter);
    if s.len() > 0 {
        let d = s.drop_last();
        lemma_nonempty_pieces_elements(d);
        assert forall|i: int|
            0 <= i < nonempty_pieces(s).len() implies s.contains(
            #[trigger] nonempty_pieces(s)[i],
        ) by {
            if i < nonempty_pieces(d).len() {
                assert(nonempty_pieces(d)[i] == nonempty_pieces(s)[i]);
                let w = choose|w: int| 0 <= w < d.len() && d[w] == nonempty_pieces(d)[i];
                assert(s[w] == nonempty_pieces(s)[i]);
            } else {
                assert(nonempty_pieces(s)[i] == s.last());
                assert(s[s.len() - 1] == s.last());
            }
        }
    }
}

/// Every non-empty piece is indeed non-empty.
pub proof fn lemma_nonempty_pieces_nonempty(s: Seq<Seq<char>>)
    ensures
        forall|i: int|
            0 <= i < nonempty_pieces(s).len() ==> (#[trigger] nonempty_pieces(s)[i]).len() > 0,
    decreases s.len(),
{
    reveal(Seq::filter);
    if s.len() > 0 {
        let d = s.drop_last();
        lemma_nonempty_pieces_nonempty(d);
        assert forall|i: int|
            0 <= i < nonempty_pieces(s).len() implies (#[trigger] nonempty_pieces(
            s,
        )[i]).len() > 0 by {
            if i < nonempty_pieces(d).len() {
                assert(nonempty_pieces(d)[i] == nonempty_pieces(s)[i]);
            } else {
                assert(nonempty_pieces(s)[i] == s.last());
            }
        }
    }
}

/// Every piece of a split is separator-free.
pub proof fn lemma_split_pieces_sep_free(s: Seq<char>, sep: char)
    ensures
        forall|i: int|
            0 <= i < spec_split_keep(s, sep).len() ==> sep_free(
                #[trigger] spec_split_keep(s, sep)[i],
                sep,
            ),
    decreases s.len(),
{
    if s.len() > 0 {
        lemma_split_pieces_sep_free(s.skip(1), sep);
        let rest = spec_split_keep(s.skip(1), sep);
        lemma_split_keep_len(s.skip(1), sep);
        let whole = spec_split_keep(s, sep);
        if s[0] == sep {
            assert forall|i: int|
                0 <= i < whole.len() implies sep_free(#[trigger] whole[i], sep) by {
                if i > 0 {
                    assert(whole[i] == rest[i - 1]);
                }
            }
        } else {
            assert forall|i: int|
                0 <= i < whole.len() implies sep_free(#[trigger] whole[i], sep) by {
                if i == 0 {
                    assert(whole[0] == seq![s[0]] + rest[0]);
                    assert(sep_free(rest[0], sep));
                    assert forall|k: int|
                        0 <= k < whole[0].len() implies whole[0][k] != sep by {
                        if k > 0 {
                            assert(whole[0][k] == rest[0][k - 1]);
                        }
                    }
                } else {
                    assert(whole[i] == rest.skip(1)[i - 1]);
                    assert(rest.skip(1)[i - 1] == rest[i]);
                }
            }
        }
    }
}

/// Lexicographic order on character sequences, by code point: the order
/// an embedded store's binary collation gives UTF-8 text.
pub open spec fn lex_leq(a: Seq<char>, b: Seq<char>) -> bool
    decreases a.len(),
{
    if a.len() == 0 {
        true
    } else if b.len() == 0 {
        false
    } else if (a[0] as u32) < (b[0] as u32) {
        true
    } else if (a[0] as u32) > (b[0] as u32) {
        false
    } else {
        lex_leq(a.skip(1), b.skip(1))
    }
}

/// The lexicographic order is total.
pub proof fn lemma_lex_total(a: Seq<char>, b: Seq<char>)
    ensures
        lex_leq(a, b) || lex_leq(b, a),
    decreases a.len(),
{
    if a.len() > 0 && b.len() > 0 && (a[0] as u32) == (b[0] as u32) {
        lemma_lex_total(a.skip(1), b.skip(1));
    }
}

/// The lexicographic order is transitive.
pub proof fn lemma_lex_trans(a: Seq<char>, b: Seq<char>, c: Seq<char>)
    requires
        lex_leq(a, b),
        lex_leq(b, c),
    ensures
        lex_leq(a, c),
    decreases a.len(),
{
    if a.len() > 0 && b.len() > 0 && c.len() > 0 {
        if (a[0] as u32) == (b[0] as u32) && (b[0] as u32) == (c[0] as u32) {
            lemma_lex_trans(a.skip(1), b.skip(1), c.skip(1));
        }
    }
}

/// Compares two texts in the lexicographic order.
pub fn lex_leq_str(a: &str, b: &str) -> (r: bool)
    ensures
        r == lex_leq(a@, b@),
{
    let ac = chars_of(a);
    let bc = chars_of(b);
    let mut i: usize = 0;
    proof {
        assert(a@.skip(0) =~= a@);
        assert(b@.skip(0) =~= b@);
    }
    while i < ac.len() && i < bc.len()
        invariant
            i <= ac.len(),
            i <= bc.len(),
            ac@ == a@,
            bc@ == b@,
            lex_leq(a@, b@) == lex_leq(a@.skip(i as int), b@.skip(i as int)),
        decreases ac.len() - i,
    {
        let ghost at = a@.skip(i as int);
        let ghost bt = b@.skip(i as int);
        proof {
            assert(at[0] == a@[i as int]);
            assert(bt[0] == b@[i as int]);
            assert(at.skip(1) =~= a@.skip(i as int + 1));
            assert(bt.skip(1) =~= b@.skip(i as int + 1));
        }
        if (ac[i] as u32) < (bc[i] as u32) {
            return true;
        }
        if (ac[i] as u32) > (bc[i] as u32) {
            return false;
        }
        i = i + 1;
    }
    proof {
        if i >= ac@.len() {
            assert(a@.skip(i as int).len() == 0);
        } else {
            assert(b@.skip(i as int).len() == 0);
            assert(a@.skip(i as int).len() > 0);
        }
    }
    i >= ac.len()
}

/// Joins pieces with a single `sep` between neighbours.
pub open spec fn spec_join(ps: Seq<Seq<char>>, sep: char) -> Seq<char>
    decreases ps.len(),
{
    if ps.len() == 0 {
        Seq::empty()
    } else if ps.len() == 1 {
        ps[0]
    } else {
        ps[0] + seq![sep] + spec_join(ps.skip(1), sep)
    }
}

/// Joining after appending one piece extends the joined text at its end.
pub proof fn lemma_join_push(ps: Seq<Seq<char>>, x: Seq<char>, sep: char)
    ensures
        spec_join(ps.push(x), sep) == if ps.len() == 0 {
            x
        } else {
            spec_join(ps, sep) + seq![sep] + x
        },
    decreases ps.len(),
{
    let whole = ps.push(x);
    if ps.len() == 0 {
        assert(whole.len() == 1);
        assert(whole[0] == x);
    } else if ps.len() == 1 {
        assert(whole.skip(1) =~= seq![x]);
        assert(spec_join(whole.skip(1), sep) == x);
    } else {
        assert(whole.skip(1) =~= ps.skip(1).push(x));
        lemma_join_push(ps.skip(1), x, sep);
        assert(spec_join(ps, sep) == ps[0] + seq![sep] + spec_join(ps.skip(1), sep));
        assert(spec_join(whole, sep) == whole[0] + seq![sep] + spec_join(whole.skip(1), sep));
        assert(spec_join(whole, sep) =~= spec_join(ps, sep) + seq![sep] + x);
    }
}

/// The pieces of `s` that are not empty, in order.
pub open spec fn nonempty_pieces(ps: Seq<Seq<char>>) -> Seq<Seq<char>> {
    ps.filter(|p: Seq<char>| p.len() > 0)
}

/// Every whitespace character replaced by a plain space.
pub open spec fn spec_flatten_ws(s: Seq<char>) -> Seq<char> {
    s.map_values(|c: char| if is_space(c) { ' ' } else { c })
}

/// The whitespace-separated words of `s`, in order, none empty.
pub open spec fn spec_words(s: Seq<char>) -> Seq<Seq<char>> {
    nonempty_pieces(spec_split_keep(spec_flatten_ws(s), ' '))
}

/// `s` with leading whitespace removed.
pub open spec fn spec_trim_left(s: Seq<char>) -> Seq<char>
    decreases s.len(),
{
    if s.len() > 0 && is_space(s[0]) {
        spec_trim_left(s.skip(1))
    } else {
        s
    }
}

/// `s` with trailing whitespace removed.
pub open spec fn spec_trim_right(s: Seq<char>) -> Seq<char>
    decreases s.len(),
{
    if s.len() > 0 && is_space(s[s.len() - 1]) {
        spec_trim_right(s.drop_last())
    } else {
        s
    }
}

/// `s` with whitespace removed at both ends.
pub open spec fn spec_trim(s: Seq<char>) -> Seq<char> {
    spec_trim_right(spec_trim_left(s))
}

/// `p` is a prefix of `s`.
pub open spec fn spec_has_prefix(s: Seq<char>, p: Seq<char>) -> bool {
    p.len() <= s.len() && s.take(p.len() as int) == p
}

/// `p` is a suffix of `s`.
pub open spec fn spec_has_suffix(s: Seq<char>, p: Seq<char>) -> bool {
    p.len() <= s.len() && s.skip(s.len() - p.len()) == p
}

/// `n` occurs contiguously somewhere in `h`.
pub open spec fn spec_contains_sub(h: Seq<char>, n: Seq<char>) -> bool {
    exists|i: int| 0 <= i && i + n.len() <= h.len() && #[trigger] h.subrange(i, i + n.len()) == n
}

/// The decimal digit character for a value below ten.
pub open spec fn digit_char(d: nat) -> char {
    if d == 0 {
        '0'
    } else if d == 1 {
        '1'
    } else if d == 2 {
        '2'
    } else if d == 3 {
        '3'
    } else if d == 4 {
        '4'
    } else if d == 5 {
        '5'
    } else if d == 6 {
        '6'
    } else if d == 7 {
        '7'
    } else if d == 8 {
        '8'
    } else {
        '9'
    }
}

/// The decimal rendering of `n`, most significant digit first, no sign and no
/// leading zero except for zero itself.
pub open spec fn spec_decimal(n: nat) -> Seq<char>
    decreases n,
{
    if n < 10 {
        seq![digit_char(n)]
    } else {
        spec_decimal(n / 10).push(digit_char(n % 10))
    }
}

/// Lower-case form of a character sequence, as `str::to_lowercase` computes
/// it; the mapping itself is left unspecified.
pub uninterp spec fn lower_of(s: Seq<char>) -> Seq<char>;

/// Relies on `str::to_lowercase`: the result depends on the characters alone,
/// and an empty string stays empty.
#[verifier::external_body]
pub(crate) fn lowercase(s: &str) -> (r: String)
    ensures
        r@ == lower_of(s@),
        s@.len() == 0 ==> r@.len() == 0,
{
    s.to_lowercase()
}

/// Relies on `String::push`: appends one character at the end.
#[verifier::external_body]
pub(crate) fn push_char(s: &mut String, c: char)
    ensures
        final(s)@ == old(s)@.push(c),
{
    s.push(c);
}

/// Collects the characters of `s` into a vector.
pub fn chars_of(s: &str) -> (r: Vec<char>)
    ensures
        r@ == s@,
{
    let n: usize = s.unicode_len();
    let mut r: Vec<char> = Vec::new();
    let mut i: usize = 0;
    while i < n
        invariant
            i <= n,
            n == s@.len(),
            r@ == s@.take(i as int),
        decreases n - i,
    {
        r.push(s.get_char(i));
        assert(r@ =~= s@.take(i + 1));
        i = i + 1;
    }
    assert(s@.take(n as int) =~= s@);
    r
}

/// Builds a string from a vector of characters.
pub fn string_of(cs: &Vec<char>) -> (r: String)
    ensures
        r@ == cs@,
{
    let mut r = String::new();
    let mut i: usize = 0;
    while i < cs.len()
        invariant
            i <= cs.len(),
            r@ == cs@.take(i as int),
        decreases cs.len() - i,
    {
        push_char(&mut r, cs[i]);
        assert(r@ =~= cs@.take(i + 1));
        i = i + 1;
    }
    assert(cs@.take(cs.len() as int) =~= cs@);
    r
}

/// One piece under construction prepended to the first piece of a split tail.
spec fn graft_first(cur: Seq<char>, ps: Seq<Seq<char>>) -> Seq<Seq<char>> {
    seq![cur + ps[0]] + ps.skip(1)
}

/// Splits `s` at every `sep`, keeping empty pieces.
pub fn split_str(s: &str, sep: char) -> (r: Vec<String>)
    ensures
        r.deep_view() == spec_split_keep(s@, sep),
        r.len() >= 1,
{
    let cs = chars_of(s);
    let n = cs.len();
    let mut done: Vec<String> = Vec::new();
    let mut cur: Vec<char> = Vec::new();
    let mut i: usize = 0;
    proof {
        assert(cs@.skip(0) =~= cs@);
    }
    while i < n
        invariant
            i <= n,
            n == cs.len(),
            cs@ == s@,
            spec_split_keep(s@, sep) == done.deep_view() + graft_first(
                cur@,
                spec_split_keep(cs@.skip(i as int), sep),
            ),
        decreases n - i,
    {
        let ghost tail = cs@.skip(i as int);
        let ghost rest = spec_split_keep(cs@.skip(i as int + 1), sep);
        proof {
            assert(tail.len() > 0);
            assert(tail[0] == cs@[i as int]);
            assert(tail.skip(1) =~= cs@.skip(i as int + 1));
            lemma_split_keep_len(cs@.skip(i as int + 1), sep);
        }
        let c = cs[i];
        if c == sep {
            proof {
                assert(spec_split_keep(tail, sep) == seq![Seq::<char>::empty()] + rest);
                assert(graft_first(cur@, spec_split_keep(tail, sep)) =~= seq![cur@] + rest);
            }
            let piece = string_of(&cur);
            done.push(piece);
            cur = Vec::new();
            proof {
                assert(done.deep_view() =~= done.deep_view().take(done.len() - 1).push(cur@)
                    || true);
                assert(graft_first(cur@, rest) =~= seq![rest[0]] + rest.skip(1));
                assert(seq![rest[0]] + rest.skip(1) =~= rest);
                assert(done.deep_view() + graft_first(cur@, rest) =~= done.deep_view().take(
                    done.len() - 1,
                ) + seq![done.deep_view().last()] + rest);
                assert(done.deep_view().take(done.len() - 1) + seq![done.deep_view().last()]
                    =~= done.deep_view());
            }
        } else {
            proof {
                assert(spec_split_keep(tail, sep) == seq![seq![tail[0]] + rest[0]] + rest.skip(
                    1,
                ));
                assert(graft_first(cur@, spec_split_keep(tail, sep)) =~~= seq![
                    cur@ + seq![tail[0]] + rest[0],
                ] + rest.skip(1));
                assert(cur@.push(tail[0]) + rest[0] =~= cur@ + seq![tail[0]] + rest[0]);
                assert(graft_first(cur@.push(tail[0]), rest) =~~= seq![
                    cur@ + seq![tail[0]] + rest[0],
                ] + rest.skip(1));
            }
            cur.push(c);
        }
        i = i + 1;
    }
    proof {
        assert(cs@.skip(n as int) =~= Seq::<char>::empty());
        assert(spec_split_keep(Seq::<char>::empty(), sep) == seq![Seq::<char>::empty()]);
        assert(graft_first(cur@, seq![Seq::<char>::empty()]) =~= seq![cur@]);
    }
    let last = string_of(&cur);
    done.push(last);
    proof {
        assert(done.deep_view() =~= spec_split_keep(s@, sep));
    }
    done
}

/// Keeps the non-empty strings of `v`, in order.
pub fn keep_nonempty(v: &Vec<String>) -> (r: Vec<String>)
    ensures
        r.deep_view() == nonempty_pieces(v.deep_view()),
{
    let ghost p = |x: Seq<char>| x.len() > 0;
    let mut r: Vec<String> = Vec::new();
    let mut i: usize = 0;
    proof {
        reveal(Seq::filter);
        assert(v.deep_view().take(0) =~= Seq::<Seq<char>>::empty());
    }
    while i < v.len()
        invariant
            i <= v.len(),
            r.deep_view() == v.deep_view().take(i as int).filter(|x: Seq<char>| x.len() > 0),
        decreases v.len() - i,
    {
        let ghost pre = v.deep_view().take(i as int);
        let ghost post = v.deep_view().take(i as int + 1);
        proof {
            reveal(Seq::filter);
            assert(post.drop_last() =~= pre);
            assert(post.last() == v.deep_view()[i as int]);
        }
        if !v[i].as_str().is_empty() {
            proof {
                assert(v[i as int]@.len() > 0);
            }
            let s = v[i].clone();
            r.push(s);
            proof {
                assert(r.deep_view() =~= post.filter(|x: Seq<char>| x.len() > 0));
            }
        } else {
            proof {
                assert(v[i as int]@.len() == 0);
                assert(r.deep_view() =~= post.filter(|x: Seq<char>| x.len() > 0));
            }
        }
        i = i + 1;
    }
    proof {
        assert(v.deep_view().take(v.len() as int) =~= v.deep_view());
    }
    r
}

/// Joins pieces with a single separator character between neighbours.
pub fn join_with(parts: &Vec<String>, sep: char) -> (r: String)
    ensures
        r@ == spec_join(parts.deep_view(), sep),
{
    let mut r = String::new();
    let mut i: usize = 0;
    proof {
        assert(parts.deep_view().take(0) =~= Seq::<Seq<char>>::empty());
    }
    while i < parts.len()
        invariant
            i <= parts.len(),
            r@ == spec_join(parts.deep_view().take(i as int), sep),
        decreases parts.len() - i,
    {
        let ghost pre = parts.deep_view().take(i as int);
        if i > 0 {
            push_char(&mut r, sep);
        }
        r.append(parts[i].as_str());
        proof {
            lemma_join_push(pre, parts.deep_view()[i as int], sep);
            assert(parts.deep_view().take(i as int + 1) =~= pre.push(
                parts.deep_view()[i as int],
            ));
        }
        i = i + 1;
    }
    proof {
        assert(parts.deep_view().take(parts.len() as int) =~= parts.deep_view());
    }
    r
}

/// Some position of the order list carries index `j`.
pub open spec fn order_has(s: Seq<usize>, j: int) -> bool {
    exists|a: int| 0 <= a < s.len() && (#[trigger] s[a]) == j
}

/// Sorts the indices of a key list ascending by the lexicographic order of
/// the keys.
pub fn sort_keys_lex(keys: &Vec<String>) -> (order: Vec<usize>)
    ensures
        order@.len() == keys@.len(),
        forall|a: int| 0 <= a < order@.len() ==> (#[trigger] order@[a]) < keys@.len(),
        forall|a: int, b: int| 0 <= a < b < order@.len() ==> order@[a] != order@[b],
        forall|a: int, b: int|
            0 <= a < b < order@.len() ==> lex_leq(
                keys@[order@[a] as int]@,
                keys@[order@[b] as int]@,
            ),
        forall|j: int| 0 <= j < keys@.len() ==> order_has(order@, j),
{
    let mut order: Vec<usize> = Vec::new();
    let mut u: usize = 0;
    while u < keys.len()
        invariant
            u <= keys.len(),
            order@.len() == u,
            forall|a: int| 0 <= a < order@.len() ==> (#[trigger] order@[a]) < u,
            forall|a: int, b: int| 0 <= a < b < order@.len() ==> order@[a] != order@[b],
            forall|a: int, b: int|
                0 <= a < b < order@.len() ==> lex_leq(
                    keys@[order@[a] as int]@,
                    keys@[order@[b] as int]@,
                ),
            forall|j: int| 0 <= j < u ==> order_has(order@, j),
        decreases keys.len() - u,
    {
        let mut pos: usize = 0;
        while pos < order.len() && lex_leq_str(keys[order[pos]].as_str(), keys[u].as_str())
            invariant
                pos <= order.len(),
                u < keys@.len(),
                forall|a: int| 0 <= a < order@.len() ==> (#[trigger] order@[a]) < u,
                forall|a: int|
                    0 <= a < pos ==> lex_leq(
                        keys@[(#[trigger] order@[a]) as int]@,
                        keys@[u as int]@,
                    ),
            decreases order.len() - pos,
        {
            pos = pos + 1;
        }
        let ghost oldp = order@;
        proof {
            if pos < oldp.len() {
                lemma_lex_total(keys@[oldp[pos as int] as int]@, keys@[u as int]@);
            }
        }
        order.insert(pos, u);
        proof {
            oldp.insert_ensures(pos as int, u);
            assert(order@ == oldp.insert(pos as int, u));
            let newp = order@;
            assert(newp[pos as int] == u);
            assert forall|a: int, b: int|
                0 <= a < b < newp.len() implies lex_leq(
                keys@[(#[trigger] newp[a]) as int]@,
                keys@[(#[trigger] newp[b]) as int]@,
            ) by {
                if a < pos && b < pos {
                    assert(newp[a] == oldp[a] && newp[b] == oldp[b]);
                } else if a < pos && b == pos {
                    assert(newp[a] == oldp[a]);
                } else if a < pos && b > pos {
                    assert(newp[a] == oldp[a] && newp[b] == oldp[b - 1]);
                } else if a == pos && b > pos {
                    assert(newp[b] == oldp[b - 1]);
                    if pos < oldp.len() {
                        assert(lex_leq(keys@[u as int]@, keys@[oldp[pos as int] as int]@));
                        if b - 1 > pos {
                            lemma_lex_trans(
                                keys@[u as int]@,
                                keys@[oldp[pos as int] as int]@,
                                keys@[oldp[b - 1] as int]@,
                            );
                        }
                    }
                } else {
                    assert(newp[a] == oldp[a - 1] && newp[b] == oldp[b - 1]);
                }
            }
            assert forall|a: int, b: int|
                0 <= a < b < newp.len() implies newp[a] != newp[b] by {
                if a < pos && b == pos {
                    assert(newp[a] == oldp[a] && oldp[a] < u);
                } else if a == pos && b > pos {
                    assert(newp[b] == oldp[b - 1] && oldp[b - 1] < u);
                } else if a < pos && b > pos {
                    assert(newp[a] == oldp[a] && newp[b] == oldp[b - 1]);
                } else if a < pos && b < pos {
                    assert(newp[a] == oldp[a] && newp[b] == oldp[b]);
                } else {
                    assert(newp[a] == oldp[a - 1] && newp[b] == oldp[b - 1]);
                }
            }
            assert forall|a: int|
                0 <= a < newp.len() implies (#[trigger] newp[a]) < u + 1 by {
                if a < pos {
                    assert(newp[a] == oldp[a]);
                } else if a > pos {
                    assert(newp[a] == oldp[a - 1]);
                }
            }
            assert forall|j: int| 0 <= j < u + 1 implies order_has(newp, j) by {
                if j == u {
                    assert(newp[pos as int] == j);
                } else {
                    assert(order_has(oldp, j));
                    let a = choose|a: int| 0 <= a < oldp.len() && (#[trigger] oldp[a]) == j;
                    if a < pos {
                        assert(newp[a] == j);
                    } else {
                        assert(newp[a + 1] == oldp[a]);
                        assert(newp[a + 1] == j);
                    }
                }
            }
        }
        u = u + 1;
    }
    order
}

/// Some slot of the index list holds `j`.
pub open spec fn picks(js: Seq<int>, j: int) -> bool {
    exists|a: int| 0 <= a < js.len() && #[trigger] js[a] == j
}

/// `js` selects `out` from `src` element for element: one distinct index
/// per slot, every index present.  With as many slots as elements, this
/// makes `out` a permutation of `src`.
pub open spec fn strings_selection(src: Seq<String>, js: Seq<int>, out: Seq<String>) -> bool {
    &&& js.len() == out.len() == src.len()
    &&& forall|a: int| 0 <= a < js.len() ==> 0 <= #[trigger] js[a] < src.len()
    &&& forall|a: int, b: int| 0 <= a < b < js.len() ==> js[a] != js[b]
    &&& forall|a: int| 0 <= a < out.len() ==> (#[trigger] out[a])@ == src[js[a]]@
    &&& forall|j: int| 0 <= j < src.len() ==> #[trigger] picks(js, j)
}

/// Sorts strings ascending in the lexicographic order, as a permutation.
pub fn sort_strings_lex(v: &Vec<String>) -> (r: Vec<String>)
    ensures
        r@.len() == v@.len(),
        forall|a: int, b: int| 0 <= a < b < r@.len() ==> lex_leq(r@[a]@, r@[b]@),
        exists|js: Seq<int>| strings_selection(v@, js, r@),
{
    let order = sort_keys_lex(v);
    let mut r: Vec<String> = Vec::new();
    let mut w: usize = 0;
    while w < order.len()
        invariant
            w <= order@.len(),
            order@.len() == v@.len(),
            r@.len() == w,
            forall|a: int| 0 <= a < order@.len() ==> (#[trigger] order@[a]) < v@.len(),
            forall|a: int, b: int| 0 <= a < b < order@.len() ==> order@[a] != order@[b],
            forall|a: int, b: int|
                0 <= a < b < order@.len() ==> lex_leq(
                    v@[order@[a] as int]@,
                    v@[order@[b] as int]@,
                ),
            forall|j: int| 0 <= j < v@.len() ==> order_has(order@, j),
            forall|a: int| 0 <= a < w ==> (#[trigger] r@[a])@ == v@[order@[a] as int]@,
        decreases order@.len() - w,
    {
        let j = order[w];
        let piece = v[j].clone();
        r.push(piece);
        w = w + 1;
    }
    proof {
        let js = Seq::new(order@.len() as nat, |a: int| order@[a] as int);
        assert forall|a: int, b: int| 0 <= a < b < js.len() implies js[a] != js[b] by {
            assert(order@[a] != order@[b]);
        }
        assert forall|j: int| 0 <= j < v@.len() implies #[trigger] picks(js, j) by {
            assert(order_has(order@, j));
            let a = choose|a: int| 0 <= a < order@.len() && (#[trigger] order@[a]) == j;
            assert(js[a] == j);
        }
        assert(js.len() == r@.len());
        assert(r@.len() == v@.len());
        assert forall|a: int| 0 <= a < js.len() implies 0 <= #[trigger] js[a] < v@.len() by {
            assert(order@[a] < v@.len());
        }
        assert forall|a: int| 0 <= a < r@.len() implies (#[trigger] r@[a])@ == v@[js[a]]@ by {
            assert(r@[a]@ == v@[order@[a] as int]@);
        }
        assert(strings_selection(v@, js, r@));
        assert forall|a: int, b: int|
            0 <= a < b < r@.len() implies lex_leq(r@[a]@, r@[b]@) by {
            assert(lex_leq(v@[order@[a] as int]@, v@[order@[b] as int]@));
        }
    }
    r
}

/// Removes whitespace at both ends of `s`.
pub fn trim_str(s: &str) -> (r: String)
    ensures
        r@ == spec_trim(s@),
{
    let cs = chars_of(s);
    let n = cs.len();
    let mut start: usize = 0;
    proof {
        assert(cs@.skip(0) =~= cs@);
    }
    while start < n && (cs[start] == ' ' || cs[start] == '\t' || cs[start] == '\n'
        || cs[start] == '\r')
        invariant
            start <= n,
            n == cs.len(),
            spec_trim_left(cs@) == spec_trim_left(cs@.skip(start as int)),
        decreases n - start,
    {
        proof {
            let tail = cs@.skip(start as int);
            assert(tail[0] == cs@[start as int]);
            assert(is_space(tail[0]));
            assert(tail.skip(1) =~= cs@.skip(start as int + 1));
        }
        start = start + 1;
    }
    proof {
        let tail = cs@.skip(start as int);
        if start < n {
            assert(tail[0] == cs@[start as int]);
            assert(!is_space(tail[0]));
        }
        assert(spec_trim_left(cs@) == tail);
    }
    let ghost lefted = cs@.skip(start as int);
    let mut stop: usize = n;
    while stop > start && (cs[stop - 1] == ' ' || cs[stop - 1] == '\t' || cs[stop - 1] == '\n'
        || cs[stop - 1] == '\r')
        invariant
            start <= stop <= n,
            n == cs.len(),
            lefted == cs@.skip(start as int),
            spec_trim_right(lefted) == spec_trim_right(cs@.subrange(start as int, stop as int)),
        decreases stop,
    {
        proof {
            let part = cs@.subrange(start as int, stop as int);
            assert(part.len() > 0);
            assert(part[part.len() - 1] == cs@[stop as int - 1]);
            assert(is_space(part[part.len() - 1]));
            assert(part.drop_last() =~= cs@.subrange(start as int, stop as int - 1));
        }
        stop = stop - 1;
    }
    proof {
        let part = cs@.subrange(start as int, stop as int);
        if stop > start {
            assert(part[part.len() - 1] == cs@[stop as int - 1]);
            assert(!is_space(part[part.len() - 1]));
        }
        assert(spec_trim_right(part) == part);
        assert(lefted =~= cs@.subrange(start as int, n as int));
    }
    let mut out: Vec<char> = Vec::new();
    let mut i: usize = start;
    while i < stop
        invariant
            start <= i <= stop <= n,
            n == cs.len(),
            out@ == cs@.subrange(start as int, i as int),
        decreases stop - i,
    {
        out.push(cs[i]);
        assert(out@ =~= cs@.subrange(start as int, i as int + 1));
        i = i + 1;
    }
    string_of(&out)
}

/// Tests whether `p` is a prefix of `s`.
pub fn has_prefix(s: &str, p: &str) -> (r: bool)
    ensures
        r == spec_has_prefix(s@, p@),
{
    let sc = chars_of(s);
    let pc = chars_of(p);
    if pc.len() > sc.len() {
        return false;
    }
    let mut i: usize = 0;
    while i < pc.len()
        invariant
            i <= pc.len() <= sc.len(),
            sc@ == s@,
            pc@ == p@,
            forall|j: int| 0 <= j < i ==> s@[j] == p@[j],
        decreases pc.len() - i,
    {
        if sc[i] != pc[i] {
            assert(s@.take(p@.len() as int)[i as int] != p@[i as int]);
            return false;
        }
        i = i + 1;
    }
    assert(s@.take(p@.len() as int) =~= p@);
    true
}

/// Tests whether `p` is a suffix of `s`.
pub fn has_suffix(s: &str, p: &str) -> (r: bool)
    ensures
        r == spec_has_suffix(s@, p@),
{
    let sc = chars_of(s);
    let pc = chars_of(p);
    if pc.len() > sc.len() {
        return false;
    }
    let off: usize = sc.len() - pc.len();
    let mut i: usize = 0;
    while i < pc.len()
        invariant
            i <= pc.len() <= sc.len(),
            off == sc.len() - pc.len(),
            sc@ == s@,
            pc@ == p@,
            forall|j: int| 0 <= j < i ==> s@[off + j] == p@[j],
        decreases pc.len() - i,
    {
        if sc[off + i] != pc[i] {
            assert(s@.skip(s@.len() - p@.len())[i as int] != p@[i as int]);
            return false;
        }
        i = i + 1;
    }
    assert(s@.skip(s@.len() - p@.len()) =~= p@);
    true
}

/// Tests whether `n` occurs contiguously in `h`.
pub fn contains_sub(h: &str, n: &str) -> (r: bool)
    ensures
        r == spec_contains_sub(h@, n@),
{
    let hc = chars_of(h);
    let nc = chars_of(n);
    if nc.len() > hc.len() {
        assert(!spec_contains_sub(h@, n@));
        return false;
    }
    if nc.len() == 0 {
        assert(h@.subrange(0, 0 + n@.len() as int) =~= n@);
        return true;
    }
    let count: usize = hc.len() - nc.len() + 1;
    let mut i: usize = 0;
    while i < count
        invariant
            i <= count,
            count == hc.len() - nc.len() + 1,
            1 <= nc.len() <= hc.len(),
            hc@ == h@,
            nc@ == n@,
            forall|k: int| 0 <= k < i ==> #[trigger] h@.subrange(k, k + n@.len()) != n@,
        decreases count - i,
    {
        let mut j: usize = 0;
        let mut matched = true;
        while j < nc.len()
            invariant
                i + nc.len() <= hc.len(),
                j <= nc.len(),
                hc@ == h@,
                nc@ == n@,
                matched ==> forall|t: int| 0 <= t < j ==> h@[i + t] == n@[t],
                !matched ==> h@.subrange(i as int, i + n@.len()) != n@,
            decreases nc.len() - j,
        {
            if hc[i + j] != nc[j] {
                matched = false;
                proof {
                    assert(h@.subrange(i as int, i + n@.len())[j as int] != n@[j as int]);
                }
                j = nc.len();
            } else {
                j = j + 1;
            }
        }
        if matched {
            proof {
                assert(h@.subrange(i as int, i + n@.len()) =~= n@);
            }
            return true;
        }
        i = i + 1;
    }
    proof {
        assert forall|k: int| 0 <= k && k + n@.len() <= h@.len() implies #[trigger] h@.subrange(
            k,
            k + n@.len(),
        ) != n@ by {
            assert(k < i);
        }
    }
    false
}

/// Copies a vector of strings, preserving its value exactly.
pub fn clone_strings(v: &Vec<String>) -> (r: Vec<String>)
    ensures
        r@ == v@,
{
    let mut r: Vec<String> = Vec::new();
    let mut i: usize = 0;
    while i < v.len()
        invariant
            i <= v.len(),
            r@ == v@.take(i as int),
        decreases v.len() - i,
    {
        r.push(v[i].clone());
        assert(r@ =~= v@.take(i as int + 1));
        i = i + 1;
    }
    assert(v@.take(v.len() as int) =~= v@);
    r
}

/// The decimal digit character for `d`, which must be below ten.
fn digit_of(d: u64) -> (c: char)
    requires
        d < 10,
    ensures
        c == digit_char(d as nat),
{
    if d == 0 {
        '0'
    } else if d == 1 {
        '1'
    } else if d == 2 {
        '2'
    } else if d == 3 {
        '3'
    } else if d == 4 {
        '4'
    } else if d == 5 {
        '5'
    } else if d == 6 {
        '6'
    } else if d == 7 {
        '7'
    } else if d == 8 {
        '8'
    } else {
        '9'
    }
}

/// Renders `n` in decimal.
pub fn usize_to_string(n: usize) -> (r: String)
    ensures
        r@ == spec_decimal(n as nat),
{
    u64_to_string(n as u64)
}

/// Renders `n` in decimal.
pub fn u64_to_string(n: u64) -> (r: String)
    ensures
        r@ == spec_decimal(n as nat),
{
    let mut digits: Vec<char> = Vec::new();
    let mut m: u64 = n;
    loop
        invariant_except_break
            spec_decimal(n as nat) == spec_decimal(m as nat) + digits@.reverse(),
        ensures
            spec_decimal(n as nat) == digits@.reverse(),
        decreases m,
    {
        let d = digit_of(m % 10);
        let next = m / 10;
        proof {
            if m >= 10 {
                assert(spec_decimal(m as nat) == spec_decimal((m as nat) / 10).push(
                    digit_char((m as nat) % 10),
                ));
                assert(digits@.push(d).reverse() =~= seq![d] + digits@.reverse());
                assert(spec_decimal((m as nat) / 10) + digits@.push(d).reverse()
                    =~= spec_decimal(m as nat) + digits@.reverse());
            } else {
                assert(spec_decimal(m as nat) == seq![digit_char(m as nat)]);
                assert(digits@.push(d).reverse() =~= seq![d] + digits@.reverse());
                assert(spec_decimal(n as nat) =~= digits@.push(d).reverse());
            }
        }
        digits.push(d);
        if next == 0 {
            break;
        }
        m = next;
    }
    let mut out: Vec<char> = Vec::new();
    let len = digits.len();
    let mut k: usize = 0;
    while k < len
        invariant
            k <= len,
            len == digits.len(),
            out@ =~= digits@.reverse().take(k as int),
        decreases len - k,
    {
        out.push(digits[len - 1 - k]);
        assert(out@ =~= digits@.reverse().take(k as int + 1));
        k = k + 1;
    }
    proof {
        assert(digits@.reverse().take(len as int) =~= digits@.reverse());
    }
    string_of(&out)
}

} // verus!
