pub mod bounds;
pub mod delete;
pub mod insert;
pub mod laws;
pub mod layout;
pub mod node;
pub mod open;
pub mod order;
pub mod remove;
pub mod reshape;
pub mod root;
pub mod shape;
pub mod tree;
pub mod window;
