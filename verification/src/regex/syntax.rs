pub mod ext;
pub mod desugar;
pub mod grammar;
pub mod parser;
pub mod laws;
pub mod literal;
