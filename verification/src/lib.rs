//! Signature scanning and cross-reference discovery over a snapshot of a
//! process's memory regions.
//!
//! A snapshot of memory regions is captured into a [`cached_maps::CachedMaps`]
//! index, pointers into it are wrapped in [`safe_pointer::SafePointer`]
//! handles that only ever perform bounds-checked reads, and walks over the
//! snapshot are composed into [`session::Session`] pipelines seeded by a
//! [`factory::BcrlFactory`].

pub mod byteseq;
pub mod cached_map;
pub mod cached_maps;
pub mod endian;
pub mod factory;
pub mod instr;
pub mod safe_pointer;
pub mod scan;
pub mod search_constraints;
pub mod session;
pub mod sigscan;
pub mod xref;

pub use factory::BcrlFactory;
pub use search_constraints::SearchConstraints;
