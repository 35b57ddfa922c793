pub mod cluster;
pub mod kmeans;
