//! A spatial market: cities joined by costly transport links, each with
//! aggregate demand and supply curves, and a resolver that finds the
//! per-city clearing prices and volumes.

pub mod types;
pub mod base_function;
pub mod function;
pub mod geography;
pub mod curve;
pub mod entity;
pub mod market;
pub mod simulation;
