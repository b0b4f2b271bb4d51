pub mod attr;
pub mod tree;
pub mod search;
pub mod resolve;
pub mod laws;
pub mod fs_ops;
pub mod render;
