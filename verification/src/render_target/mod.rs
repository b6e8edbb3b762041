pub mod ast;
pub mod grammar;
pub mod parser;
pub mod display;
pub mod from_text;
