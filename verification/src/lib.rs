//! A template engine for JSON values. An object that holds the evaluation
//! keyword (`$$formula` by default) is replaced by the value of the expression
//! it holds; expressions read other values of the same document, compute, and
//! call filters and functions.
//!
//! Filters, functions and arithmetic on floats are carried out by a
//! [`Host`](context::Host) that the caller supplies. A [`Context`](context::Context)
//! records every call made of the host with its answer, and the contracts of
//! the engine, written with the functions of [`semantics`], say what an
//! evaluation gives for every such answer.
use vstd::prelude::*;

pub mod ast;
pub mod context;
pub mod engine;
pub mod error;
pub mod json;
pub mod laws;
pub mod lookup;
pub mod parser;
pub mod semantics;
pub mod text;

verus! {

} // verus!
