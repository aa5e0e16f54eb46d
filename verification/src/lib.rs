//! Veyra: deterministic availability, party, pricing and change-capture primitives.

pub mod availability;
pub mod cdc;
pub mod occupancy;
pub mod ordered;
pub mod party;
pub mod pricing;
pub mod text;
