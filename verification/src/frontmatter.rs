//! Frontmatter: a leading metadata block delimited by `---` lines at the top
//! of a document, holding one `key: value` pair per line.

use vstd::prelude::*;
use crate::text::{spec_split_keep, spec_trim, split_str, trim_str, string_of, chars_of};

verus! {

/// The lines of a text, split at every newline.
pub open spec fn spec_lines(s: Seq<char>) -> Seq<Seq<char>> {
    spec_split_keep(s, '\n')
}

/// First position at or after `from` where `c` occurs in `s`.
pub open spec fn spec_find_from(s: Seq<char>, c: char, from: int) -> Option<int>
    decreases s.len() - from,
{
    if from < 0 || from >= s.len() {
        None
    } else if s[from] == c {
        Some(from)
    } else {
        spec_find_from(s, c, from + 1)
    }
}

/// First line index at or after `from` that is exactly `---`.
pub open spec fn spec_fence_from(lines: Seq<Seq<char>>, from: int) -> Option<int>
    decreases lines.len() - from,
{
    if from < 0 || from >= lines.len() {
        None
    } else if lines[from] == "---"@ {
        Some(from)
    } else {
        spec_fence_from(lines, from + 1)
    }
}

/// How one line inside a frontmatter block reads: `None` when it is not a
/// key/value line, `Some(None)` when it is blank, `Some(Some((k, v)))` when
/// it carries the pair `k: v` (split at the first colon, both sides trimmed,
/// the key not empty).
pub open spec fn spec_classify_line(line: Seq<char>) -> Option<Option<(Seq<char>, Seq<char>)>> {
    if spec_trim(line).len() == 0 {
        Some(None)
    } else {
        match spec_find_from(line, ':', 0) {
            None => None,
            Some(c) => {
                let key = spec_trim(line.take(c));
                let value = spec_trim(line.skip(c + 1));
                if key.len() == 0 {
                    None
                } else {
                    Some(Some((key, value)))
                }
            },
        }
    }
}

/// The pairs carried by the block lines `lines[from..to]`, in order, blank
/// lines skipped; `None` when some line is neither blank nor a pair.
pub open spec fn spec_parse_block(lines: Seq<Seq<char>>, from: int, to: int) -> Option<
    Seq<(Seq<char>, Seq<char>)>,
>
    decreases to - from,
{
    if to <= from {
        Some(Seq::empty())
    } else {
        match spec_parse_block(lines, from, to - 1) {
            None => None,
            Some(ps) => match spec_classify_line(lines[to - 1]) {
                None => None,
                Some(None) => Some(ps),
                Some(Some(kv)) => Some(ps.push(kv)),
            },
        }
    }
}

/// The frontmatter pairs of a document: present when the first line is
/// exactly `---`, a later line is exactly `---`, and everything between
/// consists of blank lines and `key: value` lines.
pub open spec fn spec_frontmatter(content: Seq<char>) -> Option<Seq<(Seq<char>, Seq<char>)>> {
    let lines = spec_lines(content);
    if lines[0] != "---"@ {
        None
    } else {
        match spec_fence_from(lines, 1) {
            None => None,
            Some(j) => spec_parse_block(lines, 1, j),
        }
    }
}

/// First value stored under `key`, scanning the pairs in order.
pub open spec fn spec_lookup(ps: Seq<(Seq<char>, Seq<char>)>, key: Seq<char>) -> Option<Seq<char>>
    decreases ps.len(),
{
    if ps.len() == 0 {
        None
    } else if ps[0].0 == key {
        Some(ps[0].1)
    } else {
        spec_lookup(ps.skip(1), key)
    }
}

/// View of a list of owned string pairs.
pub open spec fn kv_view(ps: Seq<(String, String)>) -> Seq<(Seq<char>, Seq<char>)> {
    ps.map_values(|p: (String, String)| (p.0@, p.1@))
}

/// Finds the first `c` at or after `from` in `cs`.
fn find_char_from(cs: &Vec<char>, c: char, from: usize) -> (r: Option<usize>)
    requires
        from <= cs.len(),
    ensures
        match spec_find_from(cs@, c, from as int) {
            Some(j) => r matches Some(i) && i == j && from <= i < cs.len(),
            None => r is None,
        },
{
    let mut i: usize = from;
    while i < cs.len()
        invariant
            from <= i <= cs.len(),
            spec_find_from(cs@, c, from as int) == spec_find_from(cs@, c, i as int),
        decreases cs.len() - i,
    {
        if cs[i] == c {
            return Some(i);
        }
        i = i + 1;
    }
    None
}

/// Reads one block line: blank, a `key: value` pair, or neither.
fn classify_line(line: &str) -> (r: Option<Option<(String, String)>>)
    ensures
        match spec_classify_line(line@) {
            None => r is None,
            Some(None) => r == Some(Option::<(String, String)>::None),
            Some(Some(kv)) => r matches Some(Some(p)) && p.0@ == kv.0 && p.1@ == kv.1,
        },
{
    let trimmed = trim_str(line);
    if trimmed.as_str().is_empty() {
        return Some(None);
    }
    let cs = chars_of(line);
    match find_char_from(&cs, ':', 0) {
        None => None,
        Some(c) => {
            let mut head: Vec<char> = Vec::new();
            let mut i: usize = 0;
            while i < c
                invariant
                    i <= c < cs.len(),
                    head@ == cs@.take(i as int),
                decreases c - i,
            {
                head.push(cs[i]);
                assert(head@ =~= cs@.take(i as int + 1));
                i = i + 1;
            }
            let mut tail: Vec<char> = Vec::new();
            let mut j: usize = c + 1;
            while j < cs.len()
                invariant
                    c + 1 <= j <= cs.len(),
                    tail@ == cs@.subrange(c as int + 1, j as int),
                decreases cs.len() - j,
            {
                tail.push(cs[j]);
                assert(tail@ =~= cs@.subrange(c as int + 1, j as int + 1));
                j = j + 1;
            }
            proof {
                assert(cs@.subrange(c as int + 1, cs@.len() as int) =~= cs@.skip(c as int + 1));
            }
            let head_s = string_of(&head);
            let tail_s = string_of(&tail);
            let key = trim_str(head_s.as_str());
            let value = trim_str(tail_s.as_str());
            if key.as_str().is_empty() {
                None
            } else {
                Some(Some((key, value)))
            }
        },
    }
}

/// Extracts the frontmatter pairs of a document, when a well-formed block is
/// present.
pub fn extract_frontmatter(content: &str) -> (r: Option<Vec<(String, String)>>)
    ensures
        match spec_frontmatter(content@) {
            Some(ps) => r matches Some(v) && kv_view(v@) == ps,
            None => r is None,
        },
{
    let lines = split_str(content, '\n');
    let dashes = String::from_str("---");
    assert(lines.deep_view()[0] == lines@[0]@);
    if !(lines[0] == dashes) {
        return None;
    }
    assert(lines.deep_view()[0] == "---"@);
    let mut j: usize = 1;
    let mut close: Option<usize> = None;
    while close.is_none() && j < lines.len()
        invariant
            1 <= j <= lines.len(),
            dashes@ == "---"@,
            close is None ==> spec_fence_from(lines.deep_view(), 1) == spec_fence_from(
                lines.deep_view(),
                j as int,
            ),
            close matches Some(cj) ==> spec_fence_from(lines.deep_view(), 1) == Some(cj as int)
                && 1 <= cj < lines.len(),
        decreases lines.len() - j,
    {
        assert(lines.deep_view()[j as int] == lines@[j as int]@);
        if lines[j] == dashes {
            close = Some(j);
        }
        j = j + 1;
    }
    let cj: usize = match close {
        Some(cj) => cj,
        None => {
            proof {
                assert(lines.deep_view().len() == lines@.len());
            }
            return None;
        },
    };
    let mut pairs: Vec<(String, String)> = Vec::new();
    let mut i: usize = 1;
    proof {
        assert(kv_view(pairs@) =~= Seq::<(Seq<char>, Seq<char>)>::empty());
    }
    while i < cj
        invariant
            1 <= i <= cj < lines.len(),
            lines.deep_view() == spec_lines(content@),
            lines.deep_view()[0] == "---"@,
            spec_fence_from(lines.deep_view(), 1) == Some(cj as int),
            spec_parse_block(lines.deep_view(), 1, i as int) matches Some(ps) && kv_view(pairs@)
                == ps,
        decreases cj - i,
    {
        assert(lines.deep_view()[i as int] == lines@[i as int]@);
        match classify_line(lines[i].as_str()) {
            None => {
                proof {
                    lemma_parse_block_bad(lines.deep_view(), 1, i as int, cj as int);
                }
                return None;
            },
            Some(None) => {},
            Some(Some(p)) => {
                pairs.push(p);
                proof {
                    assert(kv_view(pairs@) =~= kv_view(pairs@.drop_last()).push(
                        (pairs@.last().0@, pairs@.last().1@),
                    ));
                }
            },
        }
        i = i + 1;
    }
    Some(pairs)
}

/// A line that parses as neither blank nor a pair spoils the whole block.
proof fn lemma_parse_block_bad(lines: Seq<Seq<char>>, from: int, bad: int, to: int)
    requires
        from <= bad < to,
        spec_classify_line(lines[bad]) is None,
    ensures
        spec_parse_block(lines, from, to) is None,
    decreases to - bad,
{
    if bad == to - 1 {
    } else {
        lemma_parse_block_bad(lines, from, bad, to - 1);
    }
}

/// Looks up the first value stored under `key`.
pub fn lookup_value(pairs: &Vec<(String, String)>, key: &str) -> (r: Option<String>)
    ensures
        match spec_lookup(kv_view(pairs@), key@) {
            Some(v) => r matches Some(s) && s@ == v,
            None => r is None,
        },
{
    let key_s = key.to_owned();
    let mut i: usize = 0;
    proof {
        assert(kv_view(pairs@).skip(0) =~= kv_view(pairs@));
    }
    while i < pairs.len()
        invariant
            i <= pairs.len(),
            key_s@ == key@,
            spec_lookup(kv_view(pairs@), key@) == spec_lookup(
                kv_view(pairs@).skip(i as int),
                key@,
            ),
        decreases pairs.len() - i,
    {
        let ghost rest = kv_view(pairs@).skip(i as int);
        proof {
            assert(rest[0] == kv_view(pairs@)[i as int]);
            assert(rest.skip(1) =~= kv_view(pairs@).skip(i as int + 1));
        }
        if pairs[i].0 == key_s {
            return Some(pairs[i].1.clone());
        }
        i = i + 1;
    }
    None
}

/// The body of a document with any frontmatter block removed: everything
/// after the closing fence, or the whole text when no block is present.
pub open spec fn spec_without_frontmatter(content: Seq<char>) -> Seq<char> {
    let lines = spec_lines(content);
    if lines[0] != "---"@ {
        content
    } else {
        match spec_fence_from(lines, 1) {
            None => content,
            Some(j) => crate::text::spec_join(lines.skip(j + 1), '\n'),
        }
    }
}

/// Strips a leading frontmatter block, keeping the text after its closing
/// fence.
pub fn without_frontmatter(content: &str) -> (r: String)
    ensures
        r@ == spec_without_frontmatter(content@),
{
    let lines = split_str(content, '\n');
    let dashes = String::from_str("---");
    assert(lines.deep_view()[0] == lines@[0]@);
    if !(lines[0] == dashes) {
        return content.to_owned();
    }
    let mut j: usize = 1;
    let mut close: Option<usize> = None;
    while close.is_none() && j < lines.len()
        invariant
            1 <= j <= lines.len(),
            dashes@ == "---"@,
            close is None ==> spec_fence_from(lines.deep_view(), 1) == spec_fence_from(
                lines.deep_view(),
                j as int,
            ),
            close matches Some(cj) ==> spec_fence_from(lines.deep_view(), 1) == Some(cj as int)
                && 1 <= cj < lines.len(),
        decreases lines.len() - j,
    {
        assert(lines.deep_view()[j as int] == lines@[j as int]@);
        if lines[j] == dashes {
            close = Some(j);
        }
        j = j + 1;
    }
    let cj: usize = match close {
        Some(cj) => cj,
        None => {
            proof {
                assert(lines.deep_view().len() == lines@.len());
            }
            return content.to_owned();
        },
    };
    let mut tail: Vec<String> = Vec::new();
    let mut k: usize = cj + 1;
    proof {
        assert(lines.deep_view().skip(cj as int + 1).take(0) =~= Seq::<Seq<char>>::empty());
        assert(tail.deep_view() =~= Seq::<Seq<char>>::empty());
    }
    while k < lines.len()
        invariant
            cj + 1 <= k <= lines.len(),
            cj < lines.len(),
            tail.deep_view() == lines.deep_view().skip(cj as int + 1).take(k - cj - 1),
        decreases lines.len() - k,
    {
        let ghost tdv = tail.deep_view();
        let piece = lines[k].clone();
        proof {
            assert(piece@ == lines.deep_view()[k as int]);
        }
        tail.push(piece);
        proof {
            assert(tail.deep_view() =~= tdv.push(lines.deep_view()[k as int]));
            assert(tdv.push(lines.deep_view()[k as int]) =~= lines.deep_view().skip(
                cj as int + 1,
            ).take(k as int - cj));
        }
        k = k + 1;
    }
    proof {
        assert(lines.deep_view().skip(cj as int + 1).take(
            lines.len() as int - cj - 1,
        ) =~= lines.deep_view().skip(cj as int + 1));
    }
    crate::text::join_with(&tail, '\n')
}

} // verus!
