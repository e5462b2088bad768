//! Selector configurations.
//!
//! Selection heuristics score instruments on floating-point indicator
//! values and live outside this crate; the library holds their
//! configuration and receives their ranked candidate lists, one per offset,
//! as plain data.

use vstd::prelude::*;

verus! {

/// The MACD selector's configuration: how many top-ranked candidates it
/// hands over.
#[derive(Clone, Copy, Debug, PartialEq, Eq, Structural)]
pub struct MacdSelector {
    pub top_n: usize,
}

impl MacdSelector {
    /// Creates a MACD selector configuration.
    pub fn new(top_n: usize) -> (s: MacdSelector)
        ensures
            s.top_n == top_n,
    {
        MacdSelector { top_n }
    }

    /// The configured candidate bound.
    pub fn top_n(&self) -> (n: usize)
        ensures
            n == self.top_n,
    {
        self.top_n
    }
}

} // verus!
