use vstd::prelude::*;

pub mod beliefs;
pub mod cascade;
pub mod clock;
pub mod edit;
pub mod explain;
pub mod export;
pub mod format;
pub mod import;
pub mod json;
pub mod jsontext;
pub mod listing;
pub mod mdtrip;
pub mod laws;
pub mod model;
pub mod query;
pub mod revise;
pub mod roundtrip;
pub mod search;
pub mod network;
pub mod nogood;
pub mod text;
pub mod tags;
pub mod tree;
pub mod types;

verus! {

} // verus!
