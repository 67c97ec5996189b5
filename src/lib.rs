//! Finds every prime in `[3, max]` by trial division against a set of seed
//! primes, splits the candidate space into disjoint blocks for parallel
//! workers, and encodes the sorted result as a stream of big-endian words.

pub mod pipeline;
pub mod primality;
pub mod collect;
pub mod partition;
pub mod sieve;
pub mod worker;
