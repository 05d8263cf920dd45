pub mod handler;
pub mod number;
pub mod parser;
pub mod text;
pub mod tokens;
