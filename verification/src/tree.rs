pub mod split;
pub mod node;
pub mod tree;
