pub mod datastructs;
pub mod environment;
pub mod errors;
pub mod evaluator;
pub mod lox;
pub mod parser;
