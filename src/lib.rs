//! A city simulation on a fixed grid of land parcels: zoning, road-connected
//! districts found by flood fill, and a daily economic tick that moves
//! residents and workers, manufactures and trades goods and collects taxes.
//!
//! All quantities are exact integers: populations are counted in thousandths
//! of a resident, money in millionths of a dollar, probabilities in parts per
//! million and time in milliseconds.

pub mod random;
pub mod tile;
pub mod grid;
pub mod regions;
pub mod codec;
pub mod city;
