//! Line-ownership statistics aggregated from version-control blame output.

pub mod author_stats;
pub mod collect;
pub mod decimal;
pub mod event;
pub mod github;
pub mod identity;
pub mod laws;
pub mod parser;
pub mod reltime;
pub mod report;
pub mod stats;
pub mod stats_map;
pub mod text;
