//! Configuration data as the library sees it: vault names, their scan roots,
//! the indicator segment, and model parameters.  Reading and validating the
//! configuration file is outside work; the library receives plain values.

use vstd::prelude::*;

verus! {

/// General options: the indicator path segment marking vault boundaries.
pub struct GeneralConfig {
    pub indicator: Option<String>,
}

/// Per-vault options: whether the vault is the default one, and its scan
/// roots.
pub struct VaultProperties {
    pub default: Option<bool>,
    pub paths: Option<Vec<String>>,
}

/// Auto-tagging options.
pub struct AutoTaggingConfig {
    pub mode: Option<String>,
}

/// Embedding model options.
pub struct AIConfig {
    pub model_name: Option<String>,
    pub initial_capacity: Option<usize>,
    pub ef_construction: usize,
    pub max_connections: usize,
}

/// The whole configuration: general options, named vaults, model options.
pub struct Config {
    pub general: Option<GeneralConfig>,
    pub vaults: Option<Vec<(String, VaultProperties)>>,
    pub ai: Option<AIConfig>,
}

/// Default graph construction breadth for the vector index.
pub fn default_ef_construction() -> (r: usize)
    ensures
        r == 800,
{
    800
}

/// Default connection count per node for the vector index.
pub fn default_max_connections() -> (r: usize)
    ensures
        r == 24,
{
    24
}

impl Default for Config {
    /// One vault named `main`, flagged default and without roots; indicator
    /// `notesy`; the stock model options.
    fn default() -> (r: Config)
        ensures
            r.general matches Some(g) && (g.indicator matches Some(ind) && ind@ == "notesy"@),
            r.vaults matches Some(vs) && (vs@.len() == 1 && vs@[0].0@ == "main"@
                && vs@[0].1.default == Some(true) && vs@[0].1.paths is None),
            r.ai matches Some(ai) && (ai.ef_construction == 800 && ai.max_connections == 24
                && ai.initial_capacity == Some(10000usize) && (ai.model_name matches Some(m) && m@
                == "all-MiniLM-L6-v2"@)),
    {
        let mut vaults: Vec<(String, VaultProperties)> = Vec::new();
        vaults.push(
            (String::from_str("main"), VaultProperties { default: Some(true), paths: None }),
        );
        Config {
            general: Some(GeneralConfig { indicator: Some(String::from_str("notesy")) }),
            vaults: Some(vaults),
            ai: Some(
                AIConfig {
                    model_name: Some(String::from_str("all-MiniLM-L6-v2")),
                    initial_capacity: Some(10000),
                    ef_construction: default_ef_construction(),
                    max_connections: default_max_connections(),
                },
            ),
        }
    }
}

/// A vault counts as selectable when it has scan roots.
pub open spec fn has_paths(v: (String, VaultProperties)) -> bool {
    v.1.paths is Some
}

/// A vault is flagged default when its flag is present and set.
pub open spec fn is_default(v: (String, VaultProperties)) -> bool {
    v.1.default == Some(true)
}

/// The vaults a scan works on: those flagged default, or every vault when
/// none is flagged, always restricted to vaults that have scan roots.
pub open spec fn spec_selected_vaults(vs: Seq<(String, VaultProperties)>) -> Seq<
    (String, VaultProperties),
> {
    let defaults = vs.filter(|v: (String, VaultProperties)| is_default(v) && has_paths(v));
    if defaults.len() > 0 {
        defaults
    } else {
        vs.filter(|v: (String, VaultProperties)| has_paths(v))
    }
}

} // verus!
