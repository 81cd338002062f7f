//! The configuration data: one exclusion list plus an ordered collection of
//! backup jobs, and a separate source/destination pair for the
//! directory-skeleton operation. Loading and parsing the configuration
//! document is the unverified shell's business; these types only carry the
//! loaded values into the library.

use vstd::prelude::*;

verus! {

/// The whole application configuration.
#[derive(Debug, PartialEq, Eq)]
pub struct AppConfig {
    /// Backup configuration.
    pub bts: BtsConfigWrapper,
    /// Folder-creation configuration.
    pub cdf: CdfConfig,
}

/// The backup configurations and the exclusion list they all share.
#[derive(Debug, PartialEq, Eq)]
pub struct BtsConfigWrapper {
    /// One entry per backup job, in order.
    pub configs: Vec<BtsConfig>,
    /// Excluded path-suffix patterns, shared by every job.
    pub exclude: Vec<String>,
}

/// Configuration of a single backup job.
#[derive(Debug, Clone, PartialEq, Eq)]
pub struct BtsConfig {
    /// Source root path.
    pub source: String,
    /// Destination root path.
    pub destination: String,
    /// Whether existing destination files may be rewritten.
    pub overwrite: bool,
}

/// Configuration of the directory-skeleton operation.
#[derive(Debug, PartialEq, Eq)]
pub struct CdfConfig {
    /// Source root path.
    pub source: String,
    /// Destination root path.
    pub destination: String,
}

} // verus!
