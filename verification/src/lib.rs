//! Maps from thread identity tokens to lazily initialized per-thread values.
//!
//! A [`ThreadMap`] associates an opaque thread identity token (a `u64` handed
//! out by the surrounding runtime, one per live thread) with one value of
//! type `V`. A token's value is created on its first access by an initializer
//! supplied at construction, is afterwards read and updated in place by the
//! per-thread operations, and leaves the map only through a whole-map
//! [`ThreadMap::drain`]. The whole-map operations ([`ThreadMap::fold`],
//! [`ThreadMap::fold_values`], [`ThreadMap::probe`], [`ThreadMap::drain`])
//! visit every association exactly once and surface a [`ThreadMapLockError`]
//! when the synchronization guarding the map has been poisoned by a panic.
//!
//! Two variants expose the same operation set with different poisoning
//! granularity: [`ThreadMap`] models a map guarded by one object-level lock,
//! while [`ThreadMapX`] additionally gives every association a lock of its
//! own, so that a panic while one association is held poisons only that
//! association.

mod common;
mod laws;
pub mod thread_map;
mod thread_map_u;
mod thread_map_x;

pub use common::ThreadMapLockError;
pub use common::{
    fold_steps, fold_values_steps, folds, folds_values, probe_relates, tally, touch_tally,
};
pub use laws::{
    lemma_fold_chain_sum, lemma_fold_values_sum, lemma_fold_values_sum_bounded, lemma_lazy_init_once, lemma_probe_after_drain,
    lemma_probe_repeatable, lemma_update_preserves_others, lemma_updates_commute, sum_int,
};
pub use thread_map_u::ThreadMap;
pub use thread_map_x::ThreadMapX;
