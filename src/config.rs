//! Settings groups of the database configuration.
use vstd::prelude::*;

verus! {

/// Where the disk backend keeps its data.
#[derive(Debug)]
pub struct StorageConfig {
    pub data_dir: String,
    pub enable_cache: bool,
    pub cache_size_mb: usize,
}

/// Write-ahead log settings as configured.
#[derive(Debug)]
pub struct WALConfigOptions {
    pub enabled: bool,
    pub wal_dir: String,
    pub segment_size_mb: usize,
    pub sync_on_write: bool,
    pub checkpoint_threshold: usize,
}

/// Index settings as configured.
#[derive(Debug)]
pub struct IndexConfig {
    pub index_dir: String,
    pub auto_index: bool,
    pub default_index_type: String,
}

/// Logging settings as configured.
#[derive(Debug)]
pub struct LoggingConfig {
    pub level: String,
    pub log_to_file: bool,
    pub log_file: Option<String>,
    pub log_to_console: bool,
}

} // verus!
