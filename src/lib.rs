//! Small machine-learning toolkit over integer feature matrices: K-Means
//! clustering, k-nearest-neighbour classification, and the shared distance
//! and dataset definitions they are specified against.
pub mod clustering;
pub mod distance;
pub mod supervised;
