//! Orders: a buy/sell intent with a mutable remaining quantity.

use vstd::prelude::*;

verus! {

/// The side of an order: a bid buys, an ask sells.
#[derive(Clone, Copy, Debug, PartialEq, Eq, Structural)]
pub enum BidOrAsk {
    Bid,
    Ask,
}

/// An exact non-negative quantity, counted in hundredths of a unit.
///
/// Fill bookkeeping subtracts quantities repeatedly and tests the result
/// against zero, so the representation must keep zero exactly; a fixed-point
/// count does, where a binary floating-point value would drift.
#[derive(Clone, Copy, Debug, PartialEq, Eq, Structural)]
pub struct Quantity {
    /// The whole quantity, as a count of hundredths of a unit.
    pub hundredths: u64,
}

impl View for Quantity {
    type V = nat;

    open spec fn view(&self) -> nat {
        self.hundredths as nat
    }
}

impl Quantity {
    /// Builds the quantity `whole.fraction`, e.g. `new(1, 50)` for one and a half.
    pub fn new(whole: u64, fraction: u64) -> (q: Quantity)
        requires
            fraction < 100,
            whole * 100 + fraction <= u64::MAX,
        ensures
            q@ == whole * 100 + fraction,
    {
        Quantity { hundredths: whole * 100 + fraction }
    }

    /// True exactly on the zero quantity.
    pub fn is_zero(&self) -> (r: bool)
        ensures
            r == (self@ == 0),
    {
        self.hundredths == 0
    }
}

/// A single buy or sell intent. The remaining size is mutated in place by
/// fill operations; the side never changes after creation.
#[derive(Clone, Copy, Debug, PartialEq, Eq, Structural)]
pub struct Order {
    pub bid_or_ask: BidOrAsk,
    pub size: Quantity,
}

impl Order {
    /// Creates an order with the given side and remaining size.
    pub fn new(bid_or_ask: BidOrAsk, size: Quantity) -> (o: Order)
        ensures
            o.bid_or_ask == bid_or_ask,
            o.size == size,
    {
        Order { bid_or_ask, size }
    }

    /// An order is filled exactly when nothing of it remains.
    pub fn is_filled(&self) -> (r: bool)
        ensures
            r == (self.size@ == 0),
    {
        self.size.is_zero()
    }
}

} // verus!
