//! A limit order book matching engine with price-time priority.
//!
//! Each symbol has one [`Orderbook`]: two ladders of price levels, bids and
//! asks, each level a first-in-first-out queue of resting orders. The
//! [`Matcher`] owns one book per symbol, hands out order ids and routes
//! requests. Every mutation records the events it causes, in order.

pub mod types;
pub mod ladder;
pub mod matching;
pub mod sidebook;
pub mod orderbook;
pub mod symbol_table;
pub mod matcher;
pub mod ende;
pub mod handler;

pub use crate::types::{
    Event, Level, LimitOrder, Locator, OrderEvent, OrderStatus, OrderbookError, RejectReason,
    Side, TradeEvent,
};
pub use crate::ende::{
    Decode, Decoder, Encode, Encoder, Error, Message, SbeErr, Trade, TryDecode, TryDecodeWithCtx,
    TryEncode, TryEncodeWithCtx,
};
pub use crate::handler::{deliver, Handler, StdOutHandler, TCPPublisher};
pub use crate::matcher::{IdGenerator, Matcher, MatcherError, Order, SymbolMetadata};
pub use crate::orderbook::Orderbook;
pub use crate::sidebook::{PriceLevel, SideBook};
pub use crate::symbol_table::{Symbol, SymbolTable};
