//! Plain data shared by the book, the matcher and the event consumers.

use vstd::prelude::*;

verus! {

/// Side of the book an order belongs to.
#[derive(Debug, Clone, Copy, PartialEq, Eq, Structural)]
pub enum Side {
    Bid,
    Ask,
}

impl Side {
    /// The opposite side, as a specification.
    pub open spec fn opposite(self) -> Side {
        match self {
            Side::Bid => Side::Ask,
            Side::Ask => Side::Bid,
        }
    }

    /// The side a taker on `self` trades against.
    pub fn inverse(self) -> (r: Side)
        ensures
            r == self.opposite(),
            r != self,
    {
        match self {
            Side::Bid => Side::Ask,
            Side::Ask => Side::Bid,
        }
    }
}

/// Why an order was rejected; `NoError` on every event that is no rejection.
#[derive(Debug, Clone, Copy, PartialEq, Eq, Structural)]
pub enum RejectReason {
    NoError,
    NoLiquidity,
}

/// What happened to an order.
#[derive(Debug, Clone, Copy, PartialEq, Eq, Structural)]
pub enum OrderStatus {
    Created,
    Cancelled,
    Rejected,
    Filled,
    PartiallyFilled,
    PartiallyFilledCancelled,
}

impl OrderStatus {
    /// A terminal status ends the life of an order: no later event names it.
    pub open spec fn is_terminal(self) -> bool {
        self == OrderStatus::Cancelled || self == OrderStatus::Rejected || self
            == OrderStatus::Filled || self == OrderStatus::PartiallyFilledCancelled
    }
}

/// Failure of a request that names an order.
#[derive(Debug, Clone, Copy, PartialEq, Eq, Structural)]
pub enum OrderbookError {
    /// No resting order has the given id.
    OrderNotFound,
    /// The new size is zero or does not exceed what was already filled.
    InvalidOrderSize,
}

impl OrderbookError {
    /// The message that goes with the error.
    pub fn message(&self) -> (s: &'static str)
        ensures
            s@.len() > 0,
    {
        match self {
            OrderbookError::OrderNotFound => {
                proof {
                    reveal_strlit("Order is not found");
                }
                "Order is not found"
            },
            OrderbookError::InvalidOrderSize => {
                proof {
                    reveal_strlit("Order size <= 0");
                }
                "Order size <= 0"
            },
        }
    }
}

/// A change in the status of one order.
#[derive(Debug, Clone, Copy, PartialEq, Eq, Structural)]
pub struct OrderEvent {
    pub status: OrderStatus,
    pub order_id: u64,
    /// Lots filled by the step that this event reports.
    pub filled_size: u64,
    /// Lots filled over the order's life so far.
    pub cum_filled_size: u64,
    pub remaining_size: u64,
    pub price: u64,
    pub side: Side,
    pub reject_reason: RejectReason,
}

/// One fill between a resting order (the maker) and an incoming one (the taker).
#[derive(Debug, Clone, Copy, PartialEq, Eq, Structural)]
pub struct TradeEvent {
    pub size: u64,
    /// The maker's price.
    pub price: u64,
    /// The taker's side.
    pub side: Side,
    pub buyer_order_id: u64,
    pub seller_order_id: u64,
}

/// An event together with the id of the book that produced it.
#[derive(Debug, Clone, Copy, PartialEq, Eq, Structural)]
#[allow(inconsistent_fields)]
pub enum Event {
    Order { id: u64, event: OrderEvent },
    Trade { id: u64, event: TradeEvent },
}

/// An order as it rests in the book: `size` is what remains to be filled.
#[derive(Debug, Clone, Copy, PartialEq, Eq, Structural)]
pub struct LimitOrder {
    pub order_id: u64,
    pub price: u64,
    pub size: u64,
    pub cum_filled_size: u64,
    pub side: Side,
}

/// Where a resting order is found: its side and the price of its level.
#[derive(Debug, Clone, Copy, PartialEq, Eq, Structural)]
pub struct Locator {
    pub side: Side,
    pub price: u64,
}

/// Snapshot of one price level.
#[derive(Debug, Clone, Copy, PartialEq, Eq, Structural)]
pub struct Level {
    pub price: u64,
    /// Sum of the remaining sizes of the orders at this price.
    pub volume: u64,
    /// Number of orders at this price.
    pub orders: u64,
}

} // verus!
