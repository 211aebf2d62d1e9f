//! Verified core of a program-dependence analysis: a small algebra of
//! place terms used to resolve one place in terms of another, graph
//! traversals over dependence graphs, and the decisions made while
//! building them.
pub mod algebra;
pub mod resolver;
pub mod traverse;
pub mod construct;
