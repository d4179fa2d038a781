//! Renders the IPv4 address space as a square heat map.
//!
//! Addresses are laid out along a space-filling curve so that numerically
//! close addresses land in nearby pixels.  Input records (an address or a
//! CIDR range, with an optional weight) accumulate into a grid of cells;
//! a domain scaler then normalizes the accumulated values for colouring.

use vstd::prelude::*;

pub mod curve;
pub mod grid;
pub mod heatmap;
pub mod parse;
pub mod scale;

verus! {

/// A configuration the renderer refuses before any input is processed.
#[derive(Clone, Copy, Debug, PartialEq, Eq, Structural)]
pub enum ConfigError {
    /// The granularity is odd or outside the accepted range.
    InvalidGranularity,
    /// The domain bounds collapse: the maximum is not above the minimum.
    InvalidDomainBounds,
}

} // verus!
