//! A collateralized stablecoin engine: users lock collateral to mint a
//! stable token, positions are tracked in a per-collateral index sorted by
//! collateral ratio, under-collateralized positions move through a
//! mark / save / liquidate state machine, and a proportional-integral
//! controller drifts the token's internal target price through a
//! compounding interest rate.

pub mod fixed;
pub mod index;
pub mod types;
pub mod engine;
pub mod controller;
