//! Name resolution for a parsed module: every identifier use is bound to the
//! declaration it refers to, under lexical scoping with shadowing.

pub mod ast;
pub mod laws;
pub mod model;
pub mod name_resolve;
pub mod nodes;
pub mod symbol;
