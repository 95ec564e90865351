pub mod change_proposer;
pub mod grow_proposer;
