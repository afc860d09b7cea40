pub mod accuracy;
mod algebra;
pub mod amounts;
pub mod charges;
pub mod double;
pub mod evm;
pub mod exact;
pub mod fidelity;
pub mod math;
pub mod nearness;
pub mod optimality;
pub mod order;
pub mod outside;
pub mod pricing;
pub mod report;
pub mod rounding;
pub mod scaling;
pub mod search;
pub mod session;
pub mod simulator;
pub mod state_sync;
pub mod steepness;
pub mod strategy;
pub mod text;
pub mod types;
pub mod valuation;
pub mod wide;
