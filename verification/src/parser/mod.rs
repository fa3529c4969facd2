pub mod parser;
pub mod parser_laws;
