//! Plain data carried by the book: sides, resting orders, trades and price levels.
use std::collections::VecDeque;
use vstd::prelude::*;

verus! {

/// Which side of the book an order belongs to.
#[derive(Clone, Copy, Debug, PartialEq, Eq, Structural)]
pub enum Side {
    Buy,
    Sell,
}

/// One match between a resting (maker) order and an incoming (taker) order.
/// It always executes at the maker's price.
#[derive(Clone, Copy, Debug, PartialEq, Eq, Structural)]
pub struct Trade {
    pub price: u64,
    pub quantity: u64,
    pub maker_id: u64,
    pub taker_id: u64,
}

/// A resting order: what is left unfilled of an incoming order.
#[derive(Clone, Copy, Debug, PartialEq, Eq, Structural)]
pub struct Order {
    pub id: u64,
    pub price: u64,
    pub quantity: u64,
    pub timestamp: u64,
}

/// The resting orders at one exact price of one side, in arrival order.
#[derive(Debug)]
pub struct PriceLevel {
    pub price: u64,
    pub orders: VecDeque<Order>,
}

} // verus!
