//! An ordered, deduplicating sequence: entries stay sorted by a derived key,
//! and an entry whose key is already present is combined into the existing one.
//!
//! A presorted sequence is modelled as the finite map from each key to the
//! entry that holds it (`entry_map`); since its keys strictly increase, that
//! map determines the sequence.

use vstd::prelude::*;

pub mod capability;
pub mod model;
pub mod laws;
pub mod presorted;

pub use capability::{Keyed, Semigroup};
pub use presorted::Presorted;
