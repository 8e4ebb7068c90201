//! Control-flow graphs and backward may-live dataflow analysis for a small
//! imperative language.
//!
//! A [`Program`](ast::Program) (assignments, `return`, `if`, `while`,
//! `do`-`while`) is flattened into a control-flow graph: an indexed sequence
//! of nodes with explicit successor/predecessor edges and per-node def/use
//! sets.  The liveness engine then computes live-in/live-out sets by iterating
//! the standard backward dataflow equations to their least fixed point, and
//! answers live-range queries.  Around that core, a lexer and a
//! recursive-descent parser produce the AST from source text, and a pretty
//! printer renders programs (and a `dot` description of graphs) back into
//! text.

pub mod ast;
pub mod lexer;
pub mod liveness;
pub mod parser;
pub mod pretty_print;
pub mod sets;
