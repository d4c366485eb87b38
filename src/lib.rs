//! Primality by trial division, and the decision logic of a reusable
//! divisor-search engine that splits the search over a pool of workers.

mod determinist;
mod pool;
mod search;

pub use determinist::{is_prime, sqrt_u128};
pub use pool::{Begin, PoolState, Report, CACHE_LIMIT};
pub use search::{assignments, divisor_is_proper, search_bound, Assignment, Scan, ScanStep};
