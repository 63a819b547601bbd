//! A regular-expression recognizer built as an automaton pipeline:
//! expression tree, nondeterministic graph, epsilon-free graph,
//! deterministic automaton, matching engine. Matching is anchored: a string
//! is accepted as a whole or not at all.
//!
//! The data and what runs:
//! - `expr`, `parser`: expression trees, their languages, the pattern syntax;
//! - `node`, `graph`: nodes, their allocator, edges, graphs;
//! - `nfa`: from a tree to a graph;
//! - `epsilon`: an equivalent graph without epsilon edges;
//! - `dfa`, `subset`: deterministic automata and subset construction;
//! - `engine`: the transition table that runs over a string;
//! - `pipeline`: the whole way from a tree to a matcher;
//! - `diagram`: read-only views of graphs and automata for drawing them.
//!
//! What is proved about it beyond the contracts of the functions:
//! - `walk`: what a graph accepts;
//! - `compose`, `decompose`, `nfa_language`: the graph of a tree accepts the
//!   language of the tree;
//! - `subset_language`: subset construction is deterministic, has one state
//!   for each set of nodes, and keeps the language;
//! - `sets`, `text`: sequences as sets, strings as sequences.

pub mod compose;
pub mod decompose;
pub mod dfa;
pub mod diagram;
pub mod engine;
pub mod epsilon;
pub mod expr;
pub mod graph;
pub mod nfa;
pub mod nfa_language;
pub mod node;
pub mod parser;
pub mod pipeline;
pub mod sets;
pub mod subset;
pub mod subset_language;
pub mod text;
pub mod walk;
