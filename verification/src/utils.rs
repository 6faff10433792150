//! Document text helpers shared by readers: keeping or stripping the
//! frontmatter block, and extracting its raw text.

use vstd::prelude::*;
use crate::frontmatter::{spec_lines, spec_fence_from, spec_without_frontmatter, without_frontmatter};
use crate::text::{spec_trim, spec_join, trim_str, split_str, join_with};

verus! {

/// The raw frontmatter text of a document: the lines between the two
/// fences, joined back and trimmed; absent without a well-delimited block.
pub open spec fn spec_metadata_text(content: Seq<char>) -> Option<Seq<char>> {
    let lines = spec_lines(content);
    if lines[0] != "---"@ {
        None
    } else {
        match spec_fence_from(lines, 1) {
            None => None,
            Some(j) => Some(spec_trim(spec_join(lines.subrange(1, j), '\n'))),
        }
    }
}

/// A document's text as a reader wants it: unchanged when metadata is
/// kept, with the frontmatter block stripped otherwise.
pub fn read_file_content(content: &str, metadata: bool) -> (r: String)
    ensures
        metadata ==> r@ == content@,
        !metadata ==> r@ == spec_without_frontmatter(content@),
{
    if metadata {
        content.to_owned()
    } else {
        without_frontmatter(content)
    }
}

/// Extracts the raw frontmatter text of a document, when a block is
/// present.
pub fn get_metadata(content: &str) -> (r: Option<String>)
    ensures
        match spec_metadata_text(content@) {
            Some(m) => r matches Some(s) && s@ == m,
            None => r is None,
        },
{
    let lines = split_str(content, '\n');
    let dashes = String::from_str("---");
    assert(lines.deep_view()[0] == lines@[0]@);
    if !(lines[0] == dashes) {
        return None;
    }
    let mut j: usize = 1;
    let mut close: Option<usize> = None;
    while close.is_none() && j < lines.len()
        invariant
            1 <= j <= lines.len(),
            dashes@ == "---"@,
            close is None ==> spec_fence_from(lines.deep_view(), 1) == spec_fence_from(
                lines.deep_view(),
                j as int,
            ),
            close matches Some(cj) ==> spec_fence_from(lines.deep_view(), 1) == Some(cj as int)
                && 1 <= cj < lines.len(),
        decreases lines.len() - j,
    {
        assert(lines.deep_view()[j as int] == lines@[j as int]@);
        if lines[j] == dashes {
            close = Some(j);
        }
        j = j + 1;
    }
    let cj: usize = match close {
        Some(cj) => cj,
        None => {
            proof {
                assert(lines.deep_view().len() == lines@.len());
            }
            return None;
        },
    };
    let mut block: Vec<String> = Vec::new();
    let mut k: usize = 1;
    proof {
        assert(block.deep_view() =~= lines.deep_view().subrange(1, 1));
    }
    while k < cj
        invariant
            1 <= k <= cj < lines.len(),
            block.deep_view() == lines.deep_view().subrange(1, k as int),
        decreases cj - k,
    {
        let ghost bv = block.deep_view();
        let piece = lines[k].clone();
        proof {
            assert(piece@ == lines.deep_view()[k as int]);
        }
        block.push(piece);
        proof {
            assert(block.deep_view() =~= bv.push(lines.deep_view()[k as int]));
            assert(block.deep_view() =~= lines.deep_view().subrange(1, k as int + 1));
        }
        k = k + 1;
    }
    let joined = join_with(&block, '\n');
    Some(trim_str(joined.as_str()))
}

} // verus!
