//! Building blocks of a client-side cache of a paginated, rate-limited game
//! catalog: the request-rate governor, the paginated fetch, the bulk loader's
//! statement plan and transaction steps, and the bootstrap decision.
use vstd::prelude::*;

pub mod bootstrap;
pub mod catalog;
pub mod fetch;
pub mod load;
pub mod rate;

verus! {

} // verus!
