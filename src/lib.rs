//! An in-memory store of per-topic guest scores, and a ranking of the nearest
//! candidate guests for each queried guest.
//!
//! Scores are fixed-point integers (`distance::SCORE_UNIT` units to a point).
//! The distance of two guests is the sum of their score differences over the
//! topics where both are scored, divided by the number of known topics. It is
//! kept as an exact fraction. Pairs more than two points apart are never
//! matched. Each queried guest gets at most twenty matches, nearest first.
//!
//! The store is a plain value mutated through `&mut`. A host that shares it
//! between threads puts it behind a lock of its own.

pub mod distance;
pub mod ranking;
pub mod calculator;
pub mod laws;
