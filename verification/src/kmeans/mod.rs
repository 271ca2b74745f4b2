pub mod center;
pub mod histogram_k_means;
pub mod laws;
pub mod model;
pub mod wide;
