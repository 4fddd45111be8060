//! The messages that pass between the stages.

use vstd::prelude::*;
use crate::instant::Instant;
use crate::price::CloseSeries;

verus! {

/// Asks for the closes of one symbol over the window `[from, to)`.
#[derive(Clone, Debug)]
pub struct DownloadSymbolMessage {
    pub symbol: String,
    pub from: Instant,
    pub to: Instant,
}

/// The closes of one symbol over the window `[from, to)`.
#[derive(Clone, Debug)]
pub struct ProcessSymbolSignalsMessage {
    pub symbol: String,
    pub from: Instant,
    pub to: Instant,
    pub closes: CloseSeries,
}

/// The line to print for one symbol.
#[derive(Clone, Debug, Default)]
pub struct PrintSymbolSignalsMessage {
    pub symbol: String,
    pub message: String,
}

} // verus!
