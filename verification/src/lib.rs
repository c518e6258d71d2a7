use vstd::prelude::*;

pub mod consistency;
pub mod decimal;
pub mod laws;
pub mod logger;
pub mod matching;
pub mod order;
pub mod orderbook;
pub mod quantity;
pub mod trade;

verus! {

} // verus!
