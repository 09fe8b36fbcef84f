//! Finding empty folders and duplicate files, and writing the scripts that
//! delete them: the verified core of the `find-empty-folders` tool.

pub mod smachine;
pub mod text;
pub mod digest;
pub mod groups;
pub mod counts;
pub mod filetype;
pub mod jsontypes;
pub mod reclaim;
pub mod bucket;
pub mod script;
pub mod order;
pub mod report;
pub mod cli;
