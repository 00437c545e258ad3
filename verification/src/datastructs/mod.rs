pub mod class;
pub mod exceptions;
pub mod expr;
pub mod instance;
pub mod literal;
pub mod stmt;
pub mod token;
pub mod values;
