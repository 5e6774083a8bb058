//! A packed four-slot Cuckoo Filter whose buckets carry relocation ranks in
//! the orientation of their fingerprint slot pairs.
//!
//! Every bucket packs four nonzero `u16` fingerprints into one `u64`. Ranked
//! policies reorder a full bucket's fingerprints to encode a residual rank,
//! so lookups still compare the requested fingerprint with the eight slots of
//! its two candidate buckets. The verified contracts describe a filter by the
//! multiset of `(fingerprint, home bucket)` items it stores.

use vstd::prelude::*;

pub mod bfs;
pub mod bucket;
pub mod capacity;
pub mod choice;
pub mod config;
pub mod experiment;
pub mod filter;
pub mod hash;
pub mod laws;
pub mod model;
pub mod names;
pub mod oracle;
pub mod path;

pub use config::{
    Config, ConfigError, DensePreparationStats, InsertStats, PathActivation, PathConfig, PathReset,
    Policy,
};
pub use filter::CuckooFilter;
