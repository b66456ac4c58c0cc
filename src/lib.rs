//! Search for quinian crosswords: pairs of filled grids of one shape whose
//! corresponding entries share a clue surface.
pub mod grid;
pub mod data;
pub mod product;
pub mod qc;
pub mod searchers;
pub mod search;
pub mod find;
pub mod soundness;
pub mod selection;
pub mod sources;
pub mod munge;
pub mod symmetry;
