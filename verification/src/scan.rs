//! Vault scanning: virtual-path resolution, frontmatter override, and the
//! per-file record handed to the metadata store.  Directory walking and file
//! reading are outside work; each candidate file arrives here as plain
//! values.

use vstd::prelude::*;
use crate::text::{
    spec_split_keep, nonempty_pieces, spec_join, split_str, keep_nonempty, join_with,
    clone_strings, push_char,
};
use crate::frontmatter::{spec_frontmatter, spec_lookup, kv_view, extract_frontmatter, lookup_value};

verus! {

/// The non-empty `/`-separated components of a path.
pub open spec fn spec_path_components(s: Seq<char>) -> Seq<Seq<char>> {
    nonempty_pieces(spec_split_keep(s, '/'))
}

/// First position at or after `from` where the component equals `ind`.
pub open spec fn spec_indicator_pos(cs: Seq<Seq<char>>, ind: Seq<char>, from: int) -> Option<int>
    decreases cs.len() - from,
{
    if from < 0 || from >= cs.len() {
        None
    } else if cs[from] == ind {
        Some(from)
    } else {
        spec_indicator_pos(cs, ind, from + 1)
    }
}

/// How many components at or after `from` equal `ind`.
pub open spec fn spec_occurrences(cs: Seq<Seq<char>>, ind: Seq<char>, from: int) -> nat
    decreases cs.len() - from,
{
    if from < 0 || from >= cs.len() {
        0
    } else {
        (if cs[from] == ind {
            1nat
        } else {
            0nat
        }) + spec_occurrences(cs, ind, from + 1)
    }
}

/// The virtual path of a physical path: every component after the first
/// occurrence of the indicator, joined with `/`; absent when the indicator
/// does not occur.
pub open spec fn spec_virtual_path(path: Seq<char>, ind: Seq<char>) -> Option<Seq<char>> {
    let cs = spec_path_components(path);
    match spec_indicator_pos(cs, ind, 0) {
        None => None,
        Some(p) => Some(spec_join(cs.skip(p + 1), '/')),
    }
}

/// `s` with every trailing `/` removed.
pub open spec fn spec_strip_slashes(s: Seq<char>) -> Seq<char>
    decreases s.len(),
{
    if s.len() > 0 && s[s.len() - 1] == '/' {
        spec_strip_slashes(s.drop_last())
    } else {
        s
    }
}

/// The virtual path after any frontmatter `folder` override: the folder value
/// (trailing slashes stripped) is prepended with a `/`.
pub open spec fn spec_resolved_vpath(path: Seq<char>, content: Seq<char>, ind: Seq<char>) -> Seq<
    char,
>
    recommends
        spec_virtual_path(path, ind) is Some,
{
    let base = spec_virtual_path(path, ind)->Some_0;
    match spec_frontmatter(content) {
        Some(ps) => match spec_lookup(ps, "folder"@) {
            Some(f) => spec_strip_slashes(f) + seq!['/'] + base,
            None => base,
        },
        None => base,
    }
}

/// No component at or after `from` equals `ind` when no occurrence is
/// counted there.
proof fn lemma_no_occurrence(cs: Seq<Seq<char>>, ind: Seq<char>, from: int)
    requires
        0 <= from,
        spec_occurrences(cs, ind, from) == 0,
    ensures
        forall|k: int| from <= k < cs.len() ==> cs[k] != ind,
    decreases cs.len() - from,
{
    if 0 <= from && from < cs.len() {
        lemma_no_occurrence(cs, ind, from + 1);
    }
}

/// With exactly one occurrence at or after `from`, the indicator is found,
/// and nothing after the found position equals it.
proof fn lemma_single_occurrence(cs: Seq<Seq<char>>, ind: Seq<char>, from: int)
    requires
        0 <= from,
        spec_occurrences(cs, ind, from) == 1,
    ensures
        spec_indicator_pos(cs, ind, from) matches Some(p) && (from <= p < cs.len() && forall|
            k: int,
        |
            p < k < cs.len() ==> cs[k] != ind),
    decreases cs.len() - from,
{
    if from < cs.len() {
        if cs[from] == ind {
            lemma_no_occurrence(cs, ind, from + 1);
        } else {
            lemma_single_occurrence(cs, ind, from + 1);
        }
    }
}

/// Virtual path purity: when the indicator occurs exactly once among the
/// components of a physical path, no component of the derived virtual path
/// equals the indicator — in particular the virtual path never starts with
/// it.
pub proof fn lemma_virtual_path_purity(path: Seq<char>, ind: Seq<char>)
    requires
        spec_occurrences(spec_path_components(path), ind, 0) == 1,
    ensures
        spec_virtual_path(path, ind) is Some,
        ({
            let cs = spec_path_components(path);
            let p = spec_indicator_pos(cs, ind, 0)->Some_0;
            forall|k: int| 0 <= k < cs.skip(p + 1).len() ==> #[trigger] cs.skip(p + 1)[k] != ind
        }),
{
    let cs = spec_path_components(path);
    lemma_single_occurrence(cs, ind, 0);
    let p = spec_indicator_pos(cs, ind, 0)->Some_0;
    assert forall|k: int| 0 <= k < cs.skip(p + 1).len() implies #[trigger] cs.skip(p + 1)[k]
        != ind by {
        assert(cs.skip(p + 1)[k] == cs[p + 1 + k]);
    }
}

/// Virtual path purity at the text level: under the same hypothesis, the
/// virtual path splits back into exactly the components after the
/// indicator, so the indicator never appears as the first component — nor
/// any other — of the virtual path itself.
pub proof fn lemma_virtual_path_purity_text(path: Seq<char>, ind: Seq<char>)
    requires
        spec_occurrences(spec_path_components(path), ind, 0) == 1,
    ensures
        spec_virtual_path(path, ind) matches Some(vp) && ({
            let cs = spec_path_components(path);
            let rest = cs.skip(spec_indicator_pos(cs, ind, 0)->Some_0 + 1);
            &&& spec_path_components(vp) == rest
            &&& (spec_path_components(vp).len() > 0 ==> spec_path_components(vp)[0] != ind)
        }),
{
    let cs = spec_path_components(path);
    lemma_virtual_path_purity(path, ind);
    lemma_single_occurrence(cs, ind, 0);
    let p = spec_indicator_pos(cs, ind, 0)->Some_0;
    let rest = cs.skip(p + 1);
    crate::text::lemma_nonempty_pieces_elements(crate::text::spec_split_keep(path, '/'));
    crate::text::lemma_nonempty_pieces_nonempty(crate::text::spec_split_keep(path, '/'));
    crate::text::lemma_split_pieces_sep_free(path, '/');
    assert forall|k: int|
        0 <= k < rest.len() implies ((#[trigger] rest[k]).len() > 0 && crate::text::sep_free(
        rest[k],
        '/',
    )) by {
        assert(rest[k] == cs[p + 1 + k]);
        assert(cs[p + 1 + k].len() > 0);
        let piece = cs[p + 1 + k];
        assert(crate::text::spec_split_keep(path, '/').contains(piece));
        let w = choose|w: int|
            0 <= w < crate::text::spec_split_keep(path, '/').len()
                && crate::text::spec_split_keep(path, '/')[w] == piece;
        assert(crate::text::sep_free(piece, '/'));
    }
    crate::text::lemma_split_of_join(rest, '/');
    assert(rest.len() > 0 ==> rest[0] != ind);
}

/// The components of a `/`-joined concatenation are the components of its
/// halves, in order.
pub proof fn lemma_components_concat(x: Seq<char>, y: Seq<char>)
    ensures
        spec_path_components(x + seq!['/'] + y) == spec_path_components(x)
            + spec_path_components(y),
{
    crate::text::lemma_split_concat_general(x, y, '/');
    vstd::seq::Seq::filter_distributes_over_add(
        crate::text::spec_split_keep(x, '/'),
        crate::text::spec_split_keep(y, '/'),
        |piece: Seq<char>| piece.len() > 0,
    );
}

/// Virtual path purity under a frontmatter `folder` override: when the
/// indicator occurs exactly once among the physical path's components and
/// never among the folder value's own components, the overridden virtual
/// path — the stripped folder value, a slash, the base virtual path, as
/// `spec_resolved_vpath` builds it — still has no component equal to the
/// indicator.  A folder value carrying the indicator as a component
/// escapes this, and the item fails on such an input.
pub proof fn lemma_virtual_path_purity_override(path: Seq<char>, ind: Seq<char>, folder: Seq<char>)
    requires
        spec_occurrences(spec_path_components(path), ind, 0) == 1,
        forall|k: int|
            0 <= k < spec_path_components(spec_strip_slashes(folder)).len()
                ==> #[trigger] spec_path_components(spec_strip_slashes(folder))[k] != ind,
    ensures
        spec_virtual_path(path, ind) matches Some(base) && ({
            let vp = spec_strip_slashes(folder) + seq!['/'] + base;
            &&& spec_path_components(vp) == spec_path_components(spec_strip_slashes(folder))
                + spec_path_components(base)
            &&& forall|k: int|
                0 <= k < spec_path_components(vp).len() ==> #[trigger] spec_path_components(
                    vp,
                )[k] != ind
        }),
{
    lemma_virtual_path_purity_text(path, ind);
    lemma_virtual_path_purity(path, ind);
    let base = spec_virtual_path(path, ind)->Some_0;
    let fc = spec_path_components(spec_strip_slashes(folder));
    let bc = spec_path_components(base);
    let cs = spec_path_components(path);
    let p = spec_indicator_pos(cs, ind, 0)->Some_0;
    assert(bc == cs.skip(p + 1));
    lemma_components_concat(spec_strip_slashes(folder), base);
    let vp = spec_strip_slashes(folder) + seq!['/'] + base;
    assert forall|k: int|
        0 <= k < spec_path_components(vp).len() implies #[trigger] spec_path_components(
        vp,
    )[k] != ind by {
        if k < fc.len() {
            assert(spec_path_components(vp)[k] == fc[k]);
        } else {
            assert(spec_path_components(vp)[k] == bc[k - fc.len()]);
            assert(bc[k - fc.len()] == cs.skip(p + 1)[k - fc.len()]);
        }
    }
}

/// Splits a path into its non-empty components.
pub fn path_components(path: &str) -> (r: Vec<String>)
    ensures
        r.deep_view() == spec_path_components(path@),
{
    let pieces = split_str(path, '/');
    keep_nonempty(&pieces)
}

/// Resolves the virtual path of `path`: everything after the first component
/// equal to `indicator`, joined with `/`; `None` when the indicator never
/// occurs.
pub fn virtual_path_of(path: &str, indicator: &str) -> (r: Option<String>)
    ensures
        match spec_virtual_path(path@, indicator@) {
            Some(v) => r matches Some(s) && s@ == v,
            None => r is None,
        },
{
    let comps = path_components(path);
    let ghost cs = comps.deep_view();
    let ind = indicator.to_owned();
    let mut i: usize = 0;
    let mut found: Option<usize> = None;
    while found.is_none() && i < comps.len()
        invariant
            i <= comps.len(),
            cs == comps.deep_view(),
            ind@ == indicator@,
            found is None ==> spec_indicator_pos(cs, indicator@, 0) == spec_indicator_pos(
                cs,
                indicator@,
                i as int,
            ),
            found matches Some(p) ==> spec_indicator_pos(cs, indicator@, 0) == Some(p as int)
                && p < comps.len(),
        decreases comps.len() - i,
    {
        assert(cs[i as int] == comps@[i as int]@);
        if comps[i] == ind {
            found = Some(i);
        }
        i = i + 1;
    }
    let p: usize = match found {
        Some(p) => p,
        None => {
            proof {
                assert(cs.len() == comps@.len());
            }
            return None;
        },
    };
    let mut rest: Vec<String> = Vec::new();
    let mut k: usize = p + 1;
    proof {
        assert(rest.deep_view() =~= cs.skip(p as int + 1).take(0));
    }
    while k < comps.len()
        invariant
            p + 1 <= k <= comps.len(),
            p < comps.len(),
            cs == comps.deep_view(),
            rest.deep_view() == cs.skip(p as int + 1).take(k - p - 1),
        decreases comps.len() - k,
    {
        let ghost rdv = rest.deep_view();
        let piece = comps[k].clone();
        proof {
            assert(piece@ == cs[k as int]);
        }
        rest.push(piece);
        proof {
            assert(rest.deep_view() =~= rdv.push(cs[k as int]));
            assert(rdv.push(cs[k as int]) =~= cs.skip(p as int + 1).take(k as int - p));
        }
        k = k + 1;
    }
    proof {
        assert(cs.skip(p as int + 1).take(comps.len() - p as int - 1) =~= cs.skip(p as int + 1));
    }
    Some(join_with(&rest, '/'))
}

/// Removes every trailing `/` of `s`.
pub fn strip_trailing_slashes(s: &str) -> (r: String)
    ensures
        r@ == spec_strip_slashes(s@),
{
    let cs = crate::text::chars_of(s);
    let mut stop: usize = cs.len();
    proof {
        assert(cs@.take(cs.len() as int) =~= cs@);
    }
    while stop > 0 && cs[stop - 1] == '/'
        invariant
            stop <= cs.len(),
            cs@ == s@,
            spec_strip_slashes(s@) == spec_strip_slashes(cs@.take(stop as int)),
        decreases stop,
    {
        proof {
            let part = cs@.take(stop as int);
            assert(part[part.len() - 1] == cs@[stop as int - 1]);
            assert(part.drop_last() =~= cs@.take(stop as int - 1));
        }
        stop = stop - 1;
    }
    proof {
        let part = cs@.take(stop as int);
        if stop > 0 {
            assert(part[part.len() - 1] == cs@[stop as int - 1]);
        }
        assert(spec_strip_slashes(part) == part);
    }
    let mut out: Vec<char> = Vec::new();
    let mut i: usize = 0;
    while i < stop
        invariant
            i <= stop <= cs.len(),
            cs@ == s@,
            out@ == cs@.take(stop as int).take(i as int),
        decreases stop - i,
    {
        out.push(cs[i]);
        proof {
            assert(out@ =~= cs@.take(stop as int).take(i as int + 1));
        }
        i = i + 1;
    }
    proof {
        assert(cs@.take(stop as int).take(stop as int) =~= cs@.take(stop as int));
    }
    crate::text::string_of(&out)
}

/// A file discovered by a scan: its vault, physical and virtual identity,
/// optional frontmatter pairs, and filesystem timestamps.
pub struct ScannedFile {
    pub vault: String,
    pub local_path: String,
    pub virtual_path: String,
    pub metadata: Option<Vec<(String, String)>>,
    pub last_modified: String,
    pub created: String,
}

/// Why a single file could not be processed.
#[derive(Debug)]
pub enum ScanError {
    /// The indicator segment does not occur in the physical path.
    IndicatorNotFound { indicator: String, path: String },
}

impl ScanError {
    /// A human-readable description of the failure.
    pub fn message(&self) -> (r: String)
        ensures
            self matches ScanError::IndicatorNotFound { indicator, path } ==> r@ == "Indicator '"@
                + indicator@ + "' not found in path "@ + path@,
    {
        match self {
            ScanError::IndicatorNotFound { indicator, path } => {
                let mut r = String::from_str("Indicator '");
                r.append(indicator.as_str());
                r.append("' not found in path ");
                r.append(path.as_str());
                r
            },
        }
    }
}

/// Derives a `ScannedFile` from one candidate file: the virtual path is what
/// follows the indicator, a frontmatter `folder` value (trailing slashes
/// stripped) is prepended when present, and the frontmatter pairs become the
/// record metadata.
pub fn process_file(path: &str, indicator: &str, vault: &str, content: &str, last_modified: &str, created: &str) -> (r: Result<ScannedFile, ScanError>)
    ensures
        r is Ok == spec_virtual_path(path@, indicator@) is Some,
        r matches Ok(sf) ==> sf.vault@ == vault@ && sf.local_path@ == path@ && sf.last_modified@
            == last_modified@ && sf.created@ == created@ && sf.virtual_path@ == spec_resolved_vpath(
            path@,
            content@,
            indicator@,
        ) && (match spec_frontmatter(content@) {
            Some(ps) => sf.metadata matches Some(m) && kv_view(m@) == ps,
            None => sf.metadata is None,
        }),
        r matches Err(e) ==> e matches ScanError::IndicatorNotFound { indicator: i, path: p }
            && i@ == indicator@ && p@ == path@,
{
    let base = match virtual_path_of(path, indicator) {
        Some(v) => v,
        None => {
            return Err(
                ScanError::IndicatorNotFound {
                    indicator: indicator.to_owned(),
                    path: path.to_owned(),
                },
            );
        },
    };
    let metadata = extract_frontmatter(content);
    let virtual_path = match &metadata {
        Some(pairs) => match lookup_value(pairs, "folder") {
            Some(folder) => {
                let mut v = strip_trailing_slashes(folder.as_str());
                push_char(&mut v, '/');
                v.append(base.as_str());
                v
            },
            None => base,
        },
        None => base,
    };
    Ok(
        ScannedFile {
            vault: vault.to_owned(),
            local_path: path.to_owned(),
            virtual_path,
            metadata,
            last_modified: last_modified.to_owned(),
            created: created.to_owned(),
        },
    )
}

/// The serialized text form of a metadata pair list, as `serde_json` renders
/// it; the rendering itself is left unspecified.
pub uninterp spec fn json_of(ps: Seq<(Seq<char>, Seq<char>)>) -> Seq<char>;

/// Relies on `serde_json::Value::to_string`: renders the pairs as one JSON
/// object, a function of the pairs alone.
#[verifier::external_body]
pub(crate) fn metadata_json(pairs: &Vec<(String, String)>) -> (r: String)
    ensures
        r@ == json_of(kv_view(pairs@)),
{
    let entries = pairs.iter().map(|p| (p.0.clone(), serde_json::Value::String(p.1.clone())));
    let object: serde_json::Map<String, serde_json::Value> = entries.collect();
    serde_json::Value::Object(object).to_string()
}

/// The metadata text stored with a scanned file: its frontmatter pairs as
/// JSON, or the empty string when there is no frontmatter.
pub fn metadata_string(sf: &ScannedFile) -> (r: String)
    ensures
        sf.metadata matches Some(m) ==> r@ == json_of(kv_view(m@)),
        sf.metadata is None ==> r@ == Seq::<char>::empty(),
{
    match &sf.metadata {
        Some(pairs) => metadata_json(pairs),
        None => String::new(),
    }
}

/// A scanning interface: vault names with their root paths, and the
/// indicator segment delimiting virtual paths.
pub struct Scanner {
    pub vaults: Vec<(String, Vec<String>)>,
    pub indicator: String,
}

/// View of a vault list as name/roots pairs of character sequences.
pub open spec fn roots_view(vs: Seq<(String, Vec<String>)>) -> Seq<(Seq<char>, Seq<Seq<char>>)> {
    vs.map_values(|v: (String, Vec<String>)| (v.0@, v.1.deep_view()))
}

/// View of the configured vaults that a scan selects, with their roots.
pub open spec fn spec_selected_roots(vs: Seq<(String, crate::config::VaultProperties)>) -> Seq<
    (Seq<char>, Seq<Seq<char>>),
> {
    crate::config::spec_selected_vaults(vs).map_values(
        |v: (String, crate::config::VaultProperties)|
            (
                v.0@,
                match v.1.paths {
                    Some(p) => p.deep_view(),
                    None => Seq::empty(),
                },
            ),
    )
}

impl Scanner {
    /// Constructs a `Scanner` from the given vaults and indicator.
    pub fn new(vaults: Vec<(String, Vec<String>)>, indicator: String) -> (r: Scanner)
        ensures
            r.vaults == vaults,
            r.indicator == indicator,
    {
        Scanner { vaults, indicator }
    }

    /// Builds a `Scanner` from configuration values: the configured indicator
    /// (falling back to `notesy`), and the vaults flagged default — or every
    /// vault when none is flagged — restricted to vaults that have roots.
    pub fn from_settings(config: &crate::config::Config) -> (r: Scanner)
        ensures
            match config.general {
                Some(g) => match g.indicator {
                    Some(ind) => r.indicator@ == ind@,
                    None => r.indicator@ == "notesy"@,
                },
                None => r.indicator@ == "notesy"@,
            },
            match config.vaults {
                Some(vs) => roots_view(r.vaults@) == spec_selected_roots(vs@),
                None => r.vaults@.len() == 0,
            },
    {
        let indicator: String = match &config.general {
            Some(g) => match &g.indicator {
                Some(ind) => ind.clone(),
                None => String::from_str("notesy"),
            },
            None => String::from_str("notesy"),
        };
        let mut vaults: Vec<(String, Vec<String>)> = Vec::new();
        let vs: &Vec<(String, crate::config::VaultProperties)> = match &config.vaults {
            Some(vs) => vs,
            None => {
                return Scanner { vaults, indicator };
            },
        };
        let ghost dpred = |v: (String, crate::config::VaultProperties)|
            crate::config::is_default(v) && crate::config::has_paths(v);
        let ghost apred = |v: (String, crate::config::VaultProperties)|
            crate::config::has_paths(v);
        let ghost toroots = |v: (String, crate::config::VaultProperties)|
            (
                v.0@,
                match v.1.paths {
                    Some(p) => p.deep_view(),
                    None => Seq::<Seq<char>>::empty(),
                },
            );
        let mut i: usize = 0;
        proof {
            reveal(Seq::filter);
            assert(vs@.take(0) =~= Seq::<(String, crate::config::VaultProperties)>::empty());
            assert(roots_view(vaults@) =~= vs@.take(0).filter(dpred).map_values(toroots));
        }
        while i < vs.len()
            invariant
                i <= vs.len(),
                roots_view(vaults@) == vs@.take(i as int).filter(dpred).map_values(toroots),
                dpred == (|v: (String, crate::config::VaultProperties)|
                    crate::config::is_default(v) && crate::config::has_paths(v)),
                toroots == (|v: (String, crate::config::VaultProperties)|
                    (
                        v.0@,
                        match v.1.paths {
                            Some(p) => p.deep_view(),
                            None => Seq::<Seq<char>>::empty(),
                        },
                    )),
            decreases vs.len() - i,
        {
            let ghost pre = vs@.take(i as int);
            let ghost post = vs@.take(i as int + 1);
            proof {
                reveal(Seq::filter);
                assert(post.drop_last() =~= pre);
                assert(post.last() == vs@[i as int]);
            }
            let is_def = match &vs[i].1.default {
                Some(b) => *b,
                None => false,
            };
            if is_def {
                match &vs[i].1.paths {
                    Some(paths) => {
                        let name = vs[i].0.clone();
                        let roots = clone_strings(paths);
                        let ghost rv = roots_view(vaults@);
                        vaults.push((name, roots));
                        proof {
                            assert(roots_view(vaults@) =~= rv.push(toroots(vs@[i as int])));
                            assert(roots_view(vaults@) =~= post.filter(dpred).map_values(
                                toroots,
                            ));
                        }
                    },
                    None => {
                        proof {
                            assert(roots_view(vaults@) =~= post.filter(dpred).map_values(
                                toroots,
                            ));
                        }
                    },
                }
            } else {
                proof {
                    assert(roots_view(vaults@) =~= post.filter(dpred).map_values(toroots));
                }
            }
            i = i + 1;
        }
        proof {
            assert(vs@.take(vs.len() as int) =~= vs@);
        }
        if vaults.len() > 0 {
            proof {
                assert(vs@.filter(dpred).map_values(toroots).len() == vs@.filter(dpred).len());
            }
            return Scanner { vaults, indicator };
        }
        proof {
            assert(vs@.filter(dpred).map_values(toroots).len() == vs@.filter(dpred).len());
            assert(vs@.filter(dpred).len() == 0);
        }
        let mut j: usize = 0;
        proof {
            reveal(Seq::filter);
            assert(vs@.take(0) =~= Seq::<(String, crate::config::VaultProperties)>::empty());
            assert(roots_view(vaults@) =~= vs@.take(0).filter(apred).map_values(toroots));
        }
        while j < vs.len()
            invariant
                j <= vs.len(),
                roots_view(vaults@) == vs@.take(j as int).filter(apred).map_values(toroots),
                apred == (|v: (String, crate::config::VaultProperties)|
                    crate::config::has_paths(v)),
                toroots == (|v: (String, crate::config::VaultProperties)|
                    (
                        v.0@,
                        match v.1.paths {
                            Some(p) => p.deep_view(),
                            None => Seq::<Seq<char>>::empty(),
                        },
                    )),
            decreases vs.len() - j,
        {
            let ghost pre = vs@.take(j as int);
            let ghost post = vs@.take(j as int + 1);
            proof {
                reveal(Seq::filter);
                assert(post.drop_last() =~= pre);
                assert(post.last() == vs@[j as int]);
            }
            match &vs[j].1.paths {
                Some(paths) => {
                    let name = vs[j].0.clone();
                    let roots = clone_strings(paths);
                    let ghost rv = roots_view(vaults@);
                    vaults.push((name, roots));
                    proof {
                        assert(roots_view(vaults@) =~= rv.push(toroots(vs@[j as int])));
                        assert(roots_view(vaults@) =~= post.filter(apred).map_values(toroots));
                    }
                },
                None => {
                    proof {
                        assert(roots_view(vaults@) =~= post.filter(apred).map_values(toroots));
                    }
                },
            }
            j = j + 1;
        }
        proof {
            assert(vs@.take(vs.len() as int) =~= vs@);
        }
        Scanner { vaults, indicator }
    }
}

/// How many scanned files belong to vault `v`.
pub open spec fn spec_vault_count(files: Seq<ScannedFile>, v: Seq<char>) -> nat {
    files.filter(|f: ScannedFile| f.vault@ == v).len()
}

/// Counts the files of one vault.
fn count_vault(files: &Vec<ScannedFile>, v: &String) -> (c: usize)
    ensures
        c == spec_vault_count(files@, v@),
{
    let ghost p = |f: ScannedFile| f.vault@ == v@;
    let mut c: usize = 0;
    let mut k: usize = 0;
    proof {
        reveal(Seq::filter);
        assert(files@.take(0) =~= Seq::<ScannedFile>::empty());
    }
    while k < files.len()
        invariant
            k <= files.len(),
            c == files@.take(k as int).filter(|f: ScannedFile| f.vault@ == v@).len(),
            c <= k,
        decreases files.len() - k,
    {
        let ghost pre = files@.take(k as int);
        let ghost post = files@.take(k as int + 1);
        proof {
            reveal(Seq::filter);
            assert(post.drop_last() =~= pre);
            assert(post.last() == files@[k as int]);
        }
        if files[k].vault == *v {
            c = c + 1;
        }
        k = k + 1;
    }
    proof {
        assert(files@.take(files.len() as int) =~= files@);
    }
    c
}

/// Some entry of the count list is for vault `v`.
pub open spec fn has_vault_entry(cs: Seq<(String, usize)>, v: Seq<char>) -> bool {
    exists|i: int| 0 <= i < cs.len() && #[trigger] cs[i].0@ == v
}

/// An entry stays present when the list grows.
proof fn lemma_entry_grows(cs: Seq<(String, usize)>, x: (String, usize), v: Seq<char>)
    requires
        has_vault_entry(cs, v),
    ensures
        has_vault_entry(cs.push(x), v),
{
    let i = choose|i: int| 0 <= i < cs.len() && #[trigger] cs[i].0@ == v;
    assert(cs.push(x)[i].0@ == v);
}

/// Per-vault file counts, one entry per vault, in order of first appearance.
pub fn count_by_vault(files: &Vec<ScannedFile>) -> (counts: Vec<(String, usize)>)
    ensures
        forall|i: int|
            0 <= i < counts@.len() ==> #[trigger] counts@[i].1 == spec_vault_count(
                files@,
                counts@[i].0@,
            ),
        forall|i: int, j: int|
            0 <= i < j < counts@.len() ==> counts@[i].0@ != counts@[j].0@,
        forall|k: int|
            0 <= k < files@.len() ==> has_vault_entry(counts@, #[trigger] files@[k].vault@),
{
    let mut counts: Vec<(String, usize)> = Vec::new();
    let mut t: usize = 0;
    while t < files.len()
        invariant
            t <= files.len(),
            forall|i: int|
                0 <= i < counts@.len() ==> #[trigger] counts@[i].1 == spec_vault_count(
                    files@,
                    counts@[i].0@,
                ),
            forall|i: int, j: int|
                0 <= i < j < counts@.len() ==> counts@[i].0@ != counts@[j].0@,
            forall|k: int|
                0 <= k < t ==> has_vault_entry(counts@, #[trigger] files@[k].vault@),
        decreases files.len() - t,
    {
        let mut seen = false;
        let mut i: usize = 0;
        while i < counts.len()
            invariant
                i <= counts.len(),
                t < files.len(),
                seen ==> exists|x: int|
                    0 <= x < counts@.len() && #[trigger] counts@[x].0@ == files@[t as int].vault@,
                !seen ==> forall|x: int|
                    0 <= x < i ==> #[trigger] counts@[x].0@ != files@[t as int].vault@,
            decreases counts.len() - i,
    {
            if counts[i].0 == files[t].vault {
                seen = true;
                proof {
                    assert(counts@[i as int].0@ == files@[t as int].vault@);
                }
                i = counts.len();
            } else {
                i = i + 1;
            }
        }
        let ghost cold = counts@;
        if !seen {
            let name = files[t].vault.clone();
            let c = count_vault(files, &name);
            proof {
                assert(name@ == files@[t as int].vault@);
            }
            counts.push((name, c));
            proof {
                let pair = counts@.last();
                assert(counts@ =~= cold.push(pair));
                assert(counts@[counts@.len() - 1].0@ == files@[t as int].vault@);
                assert(forall|x: int| 0 <= x < cold.len() ==> counts@[x] == cold[x]);
                assert forall|x: int, y: int|
                    0 <= x < y < counts@.len() implies counts@[x].0@ != counts@[y].0@ by {
                    if y == counts@.len() - 1 {
                        assert(cold[x].0@ != files@[t as int].vault@);
                    }
                }
                assert(has_vault_entry(counts@, files@[t as int].vault@));
                assert forall|k: int|
                    0 <= k < t implies has_vault_entry(
                        counts@,
                        #[trigger] files@[k].vault@,
                    ) by {
                    lemma_entry_grows(cold, pair, files@[k].vault@);
                }
            }
        } else {
            proof {
                assert(has_vault_entry(counts@, files@[t as int].vault@));
            }
        }
        t = t + 1;
    }
    counts
}

/// One line of the failure listing.
pub open spec fn spec_failure_line(p: Seq<char>, m: Seq<char>) -> Seq<char> {
    "File "@ + p + ": "@ + m + "\n"@
}

/// The failure listing, one line per failed file.
pub open spec fn spec_failure_lines(fs: Seq<(Seq<char>, Seq<char>)>) -> Seq<char>
    decreases fs.len(),
{
    if fs.len() == 0 {
        Seq::empty()
    } else {
        spec_failure_lines(fs.drop_last()) + spec_failure_line(fs.last().0, fs.last().1)
    }
}

/// One line of the per-vault summary.
pub open spec fn spec_vault_line(v: Seq<char>, n: nat) -> Seq<char> {
    "Vault "@ + v + ": "@ + crate::text::spec_decimal(n) + " markdown files scanned.\n"@
}

/// The per-vault summary listing.
pub open spec fn spec_vault_lines(cs: Seq<(Seq<char>, nat)>) -> Seq<char>
    decreases cs.len(),
{
    if cs.len() == 0 {
        Seq::empty()
    } else {
        spec_vault_lines(cs.drop_last()) + spec_vault_line(cs.last().0, cs.last().1)
    }
}

/// View of owned count pairs.
pub open spec fn counts_view(cs: Seq<(String, usize)>) -> Seq<(Seq<char>, nat)> {
    cs.map_values(|c: (String, usize)| (c.0@, c.1 as nat))
}

/// The whole textual summary of a markdown scan.
pub open spec fn spec_scan_summary(fs: Seq<(Seq<char>, Seq<char>)>, cs: Seq<(Seq<char>, nat)>) -> Seq<
    char,
> {
    (if fs.len() == 0 {
        "No errors during markdown scanning.\n"@
    } else {
        "The following errors occurred during markdown scanning:\n"@ + spec_failure_lines(fs)
    }) + "\nMarkdown scanning summary:\n"@ + spec_vault_lines(cs)
}

/// The outcome of a markdown scan: per-vault counts of scanned files, and
/// the failures as path/message pairs.
pub struct ScanReport {
    pub per_vault: Vec<(String, usize)>,
    pub failures: Vec<(String, String)>,
}

impl ScanReport {
    /// Renders the report as the textual scan summary.
    pub fn render(&self) -> (r: String)
        ensures
            r@ == spec_scan_summary(
                kv_view(self.failures@),
                counts_view(self.per_vault@),
            ),
    {
        let mut r: String;
        if self.failures.len() == 0 {
            r = String::from_str("No errors during markdown scanning.\n");
            proof {
                assert(kv_view(self.failures@) =~= Seq::<(Seq<char>, Seq<char>)>::empty());
            }
        } else {
            r = String::from_str("The following errors occurred during markdown scanning:\n");
            let mut i: usize = 0;
            let ghost header = "The following errors occurred during markdown scanning:\n"@;
            proof {
                assert(kv_view(self.failures@).take(0)
                    =~= Seq::<(Seq<char>, Seq<char>)>::empty());
            }
            while i < self.failures.len()
                invariant
                    i <= self.failures.len(),
                    r@ == header + spec_failure_lines(kv_view(self.failures@).take(i as int)),
                decreases self.failures.len() - i,
            {
                let ghost pre = kv_view(self.failures@).take(i as int);
                let ghost post = kv_view(self.failures@).take(i as int + 1);
                proof {
                    assert(post.drop_last() =~= pre);
                    assert(post.last() == kv_view(self.failures@)[i as int]);
                }
                r.append("File ");
                r.append(self.failures[i].0.as_str());
                r.append(": ");
                r.append(self.failures[i].1.as_str());
                r.append("\n");
                i = i + 1;
            }
            proof {
                assert(kv_view(self.failures@).take(self.failures@.len() as int) =~= kv_view(
                    self.failures@,
                ));
                assert(kv_view(self.failures@).len() == self.failures@.len());
            }
        }
        r.append("\nMarkdown scanning summary:\n");
        let ghost head = r@;
        let mut j: usize = 0;
        proof {
            assert(counts_view(self.per_vault@).take(0) =~= Seq::<(Seq<char>, nat)>::empty());
        }
        while j < self.per_vault.len()
            invariant
                j <= self.per_vault.len(),
                r@ == head + spec_vault_lines(counts_view(self.per_vault@).take(j as int)),
            decreases self.per_vault.len() - j,
        {
            let ghost pre = counts_view(self.per_vault@).take(j as int);
            let ghost post = counts_view(self.per_vault@).take(j as int + 1);
            proof {
                assert(post.drop_last() =~= pre);
                assert(post.last() == counts_view(self.per_vault@)[j as int]);
            }
            r.append("Vault ");
            r.append(self.per_vault[j].0.as_str());
            r.append(": ");
            let num = crate::text::usize_to_string(self.per_vault[j].1);
            r.append(num.as_str());
            r.append(" markdown files scanned.\n");
            j = j + 1;
        }
        proof {
            assert(counts_view(self.per_vault@).take(self.per_vault@.len() as int)
                =~= counts_view(self.per_vault@));
            assert(counts_view(self.per_vault@).len() == self.per_vault@.len());
        }
        r
    }
}

/// Builds the report of a markdown scan from its successes and failures.
pub fn build_report(scanned: &Vec<ScannedFile>, failures: Vec<(String, String)>) -> (r: ScanReport)
    ensures
        r.failures == failures,
        forall|i: int|
            0 <= i < r.per_vault@.len() ==> #[trigger] r.per_vault@[i].1 == spec_vault_count(
                scanned@,
                r.per_vault@[i].0@,
            ),
        forall|i: int, j: int|
            0 <= i < j < r.per_vault@.len() ==> r.per_vault@[i].0@ != r.per_vault@[j].0@,
        forall|k: int|
            0 <= k < scanned@.len() ==> has_vault_entry(
                r.per_vault@,
                #[trigger] scanned@[k].vault@,
            ),
{
    let per_vault = count_by_vault(scanned);
    ScanReport { per_vault, failures }
}

} // verus!
