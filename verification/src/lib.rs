use vstd::prelude::*;

pub mod accum;
pub mod answers;
pub mod api;
pub mod books;
pub mod bridge;
pub mod bridging;
pub mod calls;
pub mod census;
pub mod clock;
pub mod dist;
pub mod emit;
pub mod handover;
pub mod hashing;
pub mod history;
pub mod ingest;
pub mod measure;
pub mod ordered;
pub mod pairing;
pub mod paths;
pub mod proto;
pub mod quantity;
pub mod recordings;
pub mod registry;
pub mod ring;
pub mod sending;
pub mod server;
pub mod session;
pub mod shown;
pub mod socket;
pub mod sorting;
pub mod source;
pub mod store;
pub mod symbols;
pub mod testing;
pub mod text;
pub mod totals;

verus! {

} // verus!
