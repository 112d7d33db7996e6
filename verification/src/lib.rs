//! A persisted registry of voting proposals.
//!
//! A proposal is a votable record owned by the identity that created it.
//! Records live in a durable byte store keyed by `u64`; each record is
//! serialized through the codec in [`codec`] and must stay under a fixed
//! byte cap. The service operations in [`service`] enforce the
//! authorization and state rules: only the owner may edit or close a
//! proposal, and each identity votes at most once while it is active.

pub mod codec;
pub mod principal;
pub mod proposal;
pub mod service;
pub mod store;
