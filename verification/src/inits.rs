//! Strategies that choose the centroids a run starts from.

pub mod kmeanplusplus;
pub mod randompartition;
pub mod randomsample;
