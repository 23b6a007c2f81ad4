//! A hypergraph store whose one primitive is the motif: an entity with a source and a
//! target endpoint, both of them entities.
pub mod sorted;
pub mod lists;
pub mod store;
pub mod traverse;
pub mod shape;
pub mod payload;
pub mod search;
pub mod prolog;
pub mod io;
pub mod replace;
