//! Verified core of the Forall authoring and hosted-verification toolkit.
//!
//! The library holds the decisions: the mapping schema and its evidence
//! ladder, contract scaffolding on source text, mutation planning, snapshot
//! selection and the hosted wire contract. Reading and writing files, HTTP
//! and serialization live around it.
pub mod text;
pub mod schema;
pub mod scan;
pub mod bytes;
pub mod errors;
pub mod contract;
pub mod sort;
pub mod digest;
pub mod symbols;
pub mod paths;
pub mod mutation;
pub mod order;
pub mod discovery;
pub mod scaffold;
pub mod rescan;
pub mod reinsertion;
pub mod requirements;
pub mod root;
pub mod wire;
pub mod snapshot;
pub mod client;
