pub mod prune_proposer;
pub mod tree_mutation_proposer;
