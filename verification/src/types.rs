use vstd::prelude::*;

verus! {

/// Which side of the market an order stands on: a Buy consumes liquidity
/// from the asks, a Sell from the bids.
#[derive(Clone, Copy, Debug, PartialEq, Eq, Structural)]
pub enum OrderSide {
    Buy,
    Sell,
}

/// Limit orders carry a price and may rest on the book; Market orders
/// take whatever liquidity is available and never rest.
#[derive(Clone, Copy, Debug, PartialEq, Eq, Structural)]
pub enum OrderType {
    LimitOrder,
    MarketOrder,
}

/// A submitted intent to trade.
///
/// Prices are fixed-point keys on a 5-decimal grid (see `price_key`):
/// a key of 10_100_000 stands for the decimal price 101. Quantities are
/// plain integers in the caller's smallest unit of size.
#[derive(Debug)]
pub struct Order {
    pub id: String,
    pub user_id: String,
    pub side: OrderSide,
    pub order_type: OrderType,
    /// Price key; required for Limit orders, ignored for Market orders.
    pub price: Option<u64>,
    /// Original submitted size.
    pub quantity: u64,
    /// Unfilled size; starts equal to `quantity` and only decreases.
    pub remaining_quantity: u64,
    /// Seconds since epoch at order creation.
    pub timestamp: u64,
}

/// Immutable record of a match. `price` is the maker's price key.
#[derive(Debug)]
pub struct Trade {
    pub id: String,
    pub buy_order_id: String,
    pub sell_order_id: String,
    pub price: u64,
    pub quantity: u64,
    pub timestamp: u64,
}

/// Point-in-time aggregation of resting quantity per price level.
/// Bids come best (highest) price first, asks best (lowest) price first.
#[derive(Debug)]
pub struct OrderbookSnapshot {
    pub bids: Vec<(u64, u128)>,
    pub asks: Vec<(u64, u128)>,
}

/// Outcome of submitting one order to the engine.
#[derive(Debug)]
pub enum OrderResponse {
    Placed { order_id: String },
    PartiallyFilled {
        order_id: String,
        filled_quantity: u64,
        remaining_quantity: u64,
        trades: Vec<Trade>,
    },
    Filled { order_id: String, filled_quantity: u64, trades: Vec<Trade> },
    /// Reserved for a future cancel command; no path produces it yet.
    Cancelled { order_id: String },
    Error { message: String },
}

} // verus!
