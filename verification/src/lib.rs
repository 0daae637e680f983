//! A generalized LL (GLL) parser: a worklist-driven recognizer for arbitrary
//! context-free grammars, left-recursive and ambiguous ones included, that
//! shares return contexts in a graph-structured stack and records every
//! derivation in a shared packed parse forest.
//!
//! * [`grammar`] describes grammars; [`sample`] holds the sample grammar.
//! * [`language`] says which texts a grammar derives.
//! * [`sppf`] is the parse forest, [`gss`] the stack graph.
//! * [`state`] holds the parser state and its primitives `add`, `create`
//!   and `pop`; [`graph`] holds the dispatcher and `parse`.
//! * [`model`] specifies all of these as functions on mathematical states.
//! * [`soundness`] states the invariant of the dispatcher, [`meaning`] what
//!   its data stand for, [`bound`] and [`progress`] why it comes to rest,
//!   [`history`] and [`complete`] why it misses no derivation.
//!
//! `graph::parse_with` accepts exactly the sentences of a grammar whose
//! lookahead sets prune nothing that the input needs, and the forest it
//! returns holds exactly the derivations of the spans of its nodes.

pub mod grammar;
pub mod sample;
pub mod language;
pub mod gss;
pub mod sppf;
pub mod model;
pub mod soundness;
pub mod bound;
pub mod progress;
pub mod meaning;
pub mod history;
pub mod complete;
pub mod state;
pub mod graph;
