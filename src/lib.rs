pub mod lexer;
pub mod parser;
pub mod search;
pub mod execute;
pub mod utils;
pub mod complete;
pub mod display;
pub mod reader;
