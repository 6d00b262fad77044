//! An LL(1) grammar-analysis engine.
//!
//! A context-free grammar is constructed once from its terminal and
//! non-terminal catalogs, its productions, and a start symbol; construction
//! validates the structure and eagerly computes the nullable, FIRST and
//! FOLLOW tables as least fixed points. Read-only queries then report
//! nullability, FIRST sets, FOLLOW sets, per-alternative director sets, and
//! the LL(1) verdict (pairwise disjointness of same-lhs director sets).

pub mod bitrows;
pub mod first;
pub mod follow;
pub mod grammar;
pub mod laws;
pub mod nullable;
pub mod queries;
pub mod symbols;
