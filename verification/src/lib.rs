//! Core of a disk usage analyzer: the arena tree of a scan, its JSON form,
//! exclude patterns, pruning, and the logic behind the browser.

pub mod any_order;
pub mod arena;
pub mod browser;
pub mod browser_laws;
pub mod delete;
pub mod delete_laws;
pub mod display;
pub mod display_laws;
pub mod exclude;
pub mod exclude_laws;
pub mod export_laws;
pub mod import_laws;
pub mod json;
pub mod json_export;
pub mod json_import;
pub mod json_value;
pub mod model;
pub mod num;
pub mod order;
pub mod pattern_laws;
pub mod prune;
pub mod quota_laws;
pub mod rescan;
pub mod rings;
pub mod round_trip;
pub mod scan;
pub mod scan_laws;
pub mod scan_parallel;
pub mod shape;
pub mod sink;
pub mod text;
pub mod totals;
pub mod xfs_quota;
