pub mod node;
pub mod proofs;
pub mod tree;
