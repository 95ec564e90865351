pub mod random;
pub mod sampler;
pub mod sampler_par;
pub mod tree;
pub mod dataset;
