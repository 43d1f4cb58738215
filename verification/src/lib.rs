//! Verified core of a small character-level GPT trainer: a xorshift
//! pseudo-random generator, a directed graph with Kahn's topological sort,
//! the planner that orders an autograd graph for back-propagation, and a
//! character tokenizer.

pub mod rng;
pub mod graph;
pub mod backward;
pub mod corpus;
pub mod tokenizer;
