pub mod text;
pub mod lexer;
pub mod ast;
pub mod grammar;
pub mod parser;
pub mod memory;
pub mod algebra;
pub mod vm;
pub mod scan;
pub mod graph;
pub mod ingest;
pub mod session;
pub mod imports;
