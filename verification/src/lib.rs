//! Verified core of an interpreter for the Zia programming language.
//!
//! Commands are binary trees of symbols, written with parentheses and single
//! spaces.  A `Context` stores concepts, their definitions as pairs of other
//! concepts, their reduction rules and their labels, and executes commands
//! that read or write them.  Every operation keeps the invariant of the
//! context (`Model::wf`): no chain of reductions loops, no concept is part of
//! its own definition, the back references are exact, and every concept that
//! commands can name has a label or a definition.

mod text;

pub mod ast;
pub mod commands;
pub mod concepts;
pub mod context;
pub mod errors;
pub mod labelling;
pub mod laws;
pub mod model;
pub mod reading;
pub mod reducing;
pub mod syntax;
pub mod token;
pub mod translating;
pub mod upkeep;
pub mod writing;
