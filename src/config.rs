//! Batch configuration and the per-region import decision.
use vstd::prelude::*;

verus! {

/// Settings shared by all regions.
#[derive(Debug, Clone)]
pub struct GlobalConfig {
    pub es_url: String,
    pub tmp_dir: String,
}

/// One region to import: its name and download URL.
#[derive(Debug, Clone)]
pub struct RegionConfig {
    pub name: String,
    pub url: String,
}

/// A batch import: the shared settings and the regions, in order.
#[derive(Debug, Clone)]
pub struct Config {
    pub global: GlobalConfig,
    pub regions: Vec<RegionConfig>,
}

/// Whether a region's file must be imported: always when forced (an index
/// rebuild forces every region), else when its hash differs from the one
/// recorded by the last import.
pub fn should_import(recorded_hash: Option<&str>, new_hash: &str, force: bool) -> (r: bool)
    ensures
        r == (force || match recorded_hash {
            Some(h) => h@ != new_hash@,
            None => true,
        }),
{
    if force {
        return true;
    }
    match recorded_hash {
        Some(h) => !crate::models::names::str_eq(h, new_hash),
        None => true,
    }
}

} // verus!
