//! A compiler and interpreter for an eight-command tape language: a lexer,
//! a parser, two rewriting passes with the optimizer that runs them, an
//! interpreter, and a code generator.

pub mod agreement;
pub mod codegen;
pub mod interpreter;
pub mod ir;
pub mod laws;
pub mod lexer;
pub mod machine;
pub mod optimize;
pub mod parser;
pub mod pipeline;
pub mod soundness;
pub mod speculation;
pub mod v1;

pub use crate::codegen::PythonCodeGen;
pub use crate::interpreter::{Handler, Interpreter};
pub use crate::lexer::{Lexer, Token, TokenData};
pub use crate::optimize::{OptimizePass, Optimizer, SpecExecOptimizer, ZeroLoopOptimizer};
pub use crate::parser::{Expr, Parser};
