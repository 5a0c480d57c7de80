//! Normalization and comparison of VCL programs.

pub mod ast;
pub mod canon;
pub mod compare;
pub mod decimal;
pub mod grammar;
pub mod inclusion;
pub mod json;
pub mod layout;
pub mod lexer;
pub mod normalize;
pub mod order;
pub mod parser;
pub mod pipeline;
pub mod printer;
pub mod readback;
pub mod statements;
pub mod symbols;
pub mod table;
pub mod text;
pub mod uses;
pub mod vclshow;
pub mod vmod;
