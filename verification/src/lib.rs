//! Inference of complex genomic structural variants from split-read
//! alignments: clustering clipped-read coordinates into consensus
//! breakpoints, connecting breakpoints by shared read evidence, merging
//! connections into event graphs, annotating the graphs with a traversal
//! order and directionality, and filtering graphs by local read depth.

use vstd::prelude::*;

pub mod block_filter;
pub mod cluster_connector;
pub mod cluster_finder;
pub mod containers;
pub mod event_graph_builder;
pub mod graph_annotator;

verus! {

/// Elapsed wall-clock seconds broken into hours, minutes and seconds for
/// run-time reporting.
pub fn log_time(elapsed_secs: u64) -> (r: (u64, u64, u64))
    ensures
        r.0 == elapsed_secs / 3600,
        r.1 == (elapsed_secs % 3600) / 60,
        r.2 == elapsed_secs % 60,
{
    let hours: u64 = elapsed_secs / 3600;
    let minutes: u64 = (elapsed_secs % 3600) / 60;
    let seconds: u64 = elapsed_secs % 60;
    (hours, minutes, seconds)
}

/// Why a run configuration is rejected before any processing starts.
#[derive(Clone, Copy, Debug, PartialEq, Eq, Structural)]
pub enum ConfigError {
    ReadnamesWithoutVcf,
    VcfWithoutReadnames,
    ExcludeRegionsMissing,
    OutdirMissing,
    PrefixHasUnderscore,
}

/// The output prefix contains an underscore byte.
pub open spec fn has_underscore(s: Seq<u8>) -> bool {
    exists|i: int| 0 <= i < s.len() && s[i] == 95u8
}

/// Validates the run configuration exactly as the program's start-up
/// does: prior-call and readname inputs must come together; a run scoped
/// to a target region skips the file checks; otherwise the
/// exclude-regions file and the output directory must exist and the
/// output prefix may not contain an underscore.
#[verifier::loop_isolation(false)]
pub fn check_config(
    has_vcf: bool,
    has_json: bool,
    has_target_region: bool,
    exclude_file_exists: bool,
    outdir_exists: bool,
    prefix: &Vec<u8>,
) -> (r: Result<(), ConfigError>)
    ensures
        has_json && !has_vcf ==> r == Result::<(), ConfigError>::Err(
            ConfigError::ReadnamesWithoutVcf,
        ),
        !has_json && has_vcf ==> r == Result::<(), ConfigError>::Err(
            ConfigError::VcfWithoutReadnames,
        ),
        (has_json == has_vcf) && has_target_region ==> r == Result::<(), ConfigError>::Ok(()),
        (has_json == has_vcf) && !has_target_region && !exclude_file_exists ==> r == Result::<
            (),
            ConfigError,
        >::Err(ConfigError::ExcludeRegionsMissing),
        (has_json == has_vcf) && !has_target_region && exclude_file_exists && !outdir_exists ==> r
            == Result::<(), ConfigError>::Err(ConfigError::OutdirMissing),
        (has_json == has_vcf) && !has_target_region && exclude_file_exists && outdir_exists ==> r
            == (if has_underscore(prefix@) {
            Result::<(), ConfigError>::Err(ConfigError::PrefixHasUnderscore)
        } else {
            Result::<(), ConfigError>::Ok(())
        }),
{
    if has_json && !has_vcf {
        return Err(ConfigError::ReadnamesWithoutVcf);
    }
    if !has_json && has_vcf {
        return Err(ConfigError::VcfWithoutReadnames);
    }
    if has_target_region {
        return Ok(());
    }
    if !exclude_file_exists {
        return Err(ConfigError::ExcludeRegionsMissing);
    }
    if !outdir_exists {
        return Err(ConfigError::OutdirMissing);
    }
    let mut i: usize = 0;
    while i < prefix.len()
        invariant
            i <= prefix@.len(),
            forall|j: int| 0 <= j < i ==> prefix@[j] != 95u8,
        decreases prefix@.len() - i,
    {
        if prefix[i] == 95u8 {
            return Err(ConfigError::PrefixHasUnderscore);
        }
        i = i + 1;
    }
    Ok(())
}

} // verus!
