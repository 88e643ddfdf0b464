//! Groups file names into clusters of similar names.

pub mod cli;
pub mod closure_laws;
pub mod cluster;
pub mod cluster_laws;
pub mod digest;
pub mod distance;
pub mod file_info;
pub mod file_info_laws;
pub mod grouper;
pub mod grouper_laws;
pub mod input;
pub mod metric_laws;
pub mod order;
pub mod score;
pub mod similarity;
pub mod text;
pub mod token_laws;
