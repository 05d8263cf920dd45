pub mod error;
pub mod frame;
