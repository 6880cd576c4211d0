//! The snapshot that a feed delivers, and the configuration of a feed variant.

use crate::decimal::Decimal;
use vstd::prelude::*;

verus! {

/// What happened to an order; carried along, never read by the checksum.
#[derive(Clone, Copy, Debug, PartialEq, Eq, Structural)]
pub enum OrderEvent {
    Add,
    Modify,
    Delete,
}

/// One resting order on one side of the book.
#[derive(Clone, Debug)]
pub struct Order {
    pub event: Option<OrderEvent>,
    pub order_id: String,
    pub limit_price: Decimal,
    pub order_qty: Decimal,
    /// Nanoseconds since the Unix epoch.
    pub timestamp: Option<i128>,
}

/// A book snapshot: asks best (lowest) first, bids best (highest) first, and
/// the checksum that the feed published for it.
#[derive(Clone, Debug)]
pub struct Level3Data {
    pub symbol: String,
    pub bids: Vec<Order>,
    pub asks: Vec<Order>,
    pub checksum: u32,
}

/// How one feed variant builds its checksum string.
///
/// The excluded level lists describe what a feed has been seen to do (one
/// variant leaves some mid-book ask levels out), not a documented rule.
#[derive(Clone, Debug)]
pub struct FeedConfig {
    /// Decimal digits by which prices are shifted into integers.
    pub price_shift: u32,
    /// Decimal digits by which quantities are shifted into integers.
    pub qty_shift: u32,
    /// Rounding during the shift must move a value by less than `10^-tolerance_digits`.
    pub tolerance_digits: u32,
    /// Number of leading price levels of each side that take part.
    pub levels_per_side: u32,
    /// Level indices (1-based) of the asks left out of the checksum string.
    pub ask_excluded_levels: Vec<u32>,
    /// Level indices (1-based) of the bids left out of the checksum string.
    pub bid_excluded_levels: Vec<u32>,
}

#[derive(Clone, Copy, Debug, PartialEq, Eq, Structural)]
pub enum BookSide {
    Ask,
    Bid,
}

#[derive(Clone, Copy, Debug, PartialEq, Eq, Structural)]
pub enum Field {
    Price,
    Quantity,
}

/// Why a snapshot could not be checked.
#[derive(Clone, Copy, Debug, PartialEq, Eq, Structural)]
pub enum ValidationError {
    /// The entry at `index` carries a decimal out of range, or its price is
    /// out of order with the entry before it.
    MalformedInput { side: BookSide, index: usize },
    /// The entry's `field` has no integer at the configured shift within tolerance.
    PrecisionError { side: BookSide, index: usize, field: Field },
}

/// The outcome of checking one snapshot.
#[derive(Clone, Debug)]
pub enum ValidationResult {
    Valid { computed: u32, checksum_string: String },
    Mismatch { computed: u32, expected: u32, checksum_string: String },
    Failed(ValidationError),
}

} // verus!
