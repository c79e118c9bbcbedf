//! Catalogue of blockchain addresses and transactions, with the analysis of
//! first-degree relations between addresses.

pub mod hexcode;
pub mod numbers;
pub mod relation;
pub mod frequency;
pub mod model;
pub mod describe;
pub mod store;
pub mod ingest;
pub mod feed;
pub mod supervisor;
pub mod cardano;
