//! Signals over daily closing prices, and the stages of the pipeline that
//! downloads a price history, analyses it and reports one line per symbol.
//!
//! Prices are IEEE-754 doubles, carried as their bit patterns. Their
//! arithmetic is done on whole numbers and proved to round as IEEE-754 asks,
//! so that every figure of a report is stated exactly by the contract of the
//! function that computes it.

pub mod actors;
pub mod arithmetic;
pub mod driver;
pub mod formula;
pub mod instant;
pub mod lifecycle;
pub mod messages;
pub mod price;
pub mod quotes;
pub mod render;
pub mod rounding;
pub mod signals;
