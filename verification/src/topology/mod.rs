pub mod network;
pub mod node;
