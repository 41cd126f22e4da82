//! Maglev consistent hashing: a lookup table that maps a prime-sized index
//! space onto an ordered list of named backends, so that every caller holding
//! the same backend list routes each index to the same backend, and a change
//! of the list moves few indices.

mod laws;
mod maglev;
mod model;
mod permutation;
mod population;

pub use laws::{lemma_construction_deterministic, lemma_removal_keeps_preferences, lemma_total_coverage};
pub use maglev::{names_of, Maglev, MAX_TABLE_SIZE};
pub use model::{claimed, digest_of, fill, first_free, is_prime, maglev_table, offset_of, preference, skip_of};
pub use permutation::{lemma_preference_covers, lemma_preference_injective, lemma_prime_no_zero_divisor};
pub use population::lemma_table_total;
