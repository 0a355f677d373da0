//! Sorting files into directories by their extension.
//!
//! The library holds the decisions: which files share an extension, where each
//! configured group of extensions goes, and which moves a run makes. Reading
//! directories and moving files is left to the caller.

pub mod classify;
pub mod config;
pub mod destination;
pub mod organize;
pub mod source;

pub use classify::{extension, file_name, find_bucket, map_files_by_extension, Bucket};
pub use config::{config_path, parse_config, Config};
pub use destination::{move_target, resolve_destination, split_extensions};
pub use organize::{plan_moves, Transfer};
pub use source::{check_source_dir, PathKind, SourceError};
