pub mod knn;
pub mod supervised;
