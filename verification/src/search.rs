//! Search routines over slices.

pub mod binary;
pub mod sequential;
