//! Canonical forms, compact codes and lookup tables for Texas hold'em hands.
//!
//! Every hand is mapped to one representative of its class under suit
//! relabelling, so that strength, equity and abstraction tables need one entry
//! per class.

pub mod abstraction;
pub mod buckets;
pub mod canonical;
pub mod card;
pub mod cluster;
pub mod combos;
pub mod compact;
pub mod dataset;
pub mod deal;
pub mod distribution;
pub mod equity;
pub mod error;
pub mod laws;
pub mod order;
pub mod ranks;
pub mod strength;
pub mod suit_lemmas;
pub mod symmetry;
