//! A small statement executor for a toy language with block-scoped,
//! mutable integer variables.
//!
//! The heart of the library is the lexical environment chain: a stack of
//! scopes, each mapping variable names to values, where lookup and
//! assignment walk outward through enclosing scopes while definition
//! always targets the innermost scope.  Scopes are pushed and popped in
//! lock-step with block entry and exit.
//!
//! The mathematical model of a running program is a `Chain`: a sequence
//! of `Map<Seq<char>, int>`, outermost scope first, innermost scope last.
//! Every operation of the library is specified against that model.

pub mod chain;
pub mod env;
pub mod interp;
pub mod laws;
