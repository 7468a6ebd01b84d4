//! Groups the crashes that a fuzzer found in an HTTP service by a coarse
//! identity, and keeps one representative of each group.

pub mod cluster_laws;
pub mod crash_clusters;
pub mod crash_files;
pub mod crash_identity;
pub mod crash_replay;
pub mod dedup_report;
pub mod dedup_run;
pub mod file_path;
pub mod identity_laws;
pub mod order;
pub mod output_directory;
pub mod text;
