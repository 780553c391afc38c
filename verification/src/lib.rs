pub mod ast;
pub mod chains;
pub mod compile;
pub mod cost;
pub mod decimals;
pub mod diag;
pub mod dump;
pub mod grammar;
pub mod ir;
pub mod irbuild;
pub mod ircopy;
pub mod irsize;
pub mod lex;
pub mod lines;
pub mod meaning;
pub mod num;
pub mod parse;
pub mod spelled;
pub mod text;
pub mod treesize;
pub mod types;
pub mod typed;
pub mod typing;
pub mod words;
pub mod writing;
