//! A bitfield abstraction for tracking occupancy of fixed-size slot
//! neighbourhoods, as used by hash-map buckets: any fixed-width unsigned
//! integer serves as a compact set of slot indices, with set-bit queries,
//! single-bit construction, and ordered iteration over occupied positions.

pub mod bitfield;
pub mod bitseq;
