//! The Lichen language toolchain's verified core: the lexer, diagnostic
//! rendering, the highlevel expression IR, the parsed AST, source-position
//! conversions, and the compute plugin's kernel assembly.

pub mod diag;
pub mod ir;
pub mod lex;
pub mod render;
pub mod attr;
pub mod program;
pub mod ast;
pub mod analysis;
pub mod print;
pub mod lsp;
pub mod plugin;
pub mod encode;
pub mod compute;
pub mod assemble;
pub mod vm;
pub mod launch;
pub mod names;
pub mod checker;
pub mod diagnostic;
pub mod home;
