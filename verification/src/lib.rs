//! A verified core for walk-forward backtesting of daily trading strategies.
//!
//! Prices and rate fractions are fixed-point integers (multiples of
//! `1 / fixed::SCALE`), so every simulation rule and every statistic has an
//! exact, machine-checked definition.

pub mod bar;
pub mod engine;
pub mod fixed;
pub mod metrics;
pub mod result;
pub mod scorecard;
pub mod signals;
pub mod strategies;
pub mod targets;
