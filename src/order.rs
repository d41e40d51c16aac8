use vstd::prelude::*;

verus! {

/// Ticks per unit of price, and lots per unit of quantity.
pub const TICKS_PER_UNIT: u64 = 10000;

#[derive(Debug, Clone, Copy, PartialEq, Eq, Structural)]
pub enum OrderSide {
    Buy,
    Sell,
}

#[derive(Debug, Clone, Copy, PartialEq, Eq, Structural)]
pub enum OrderType {
    Market,
    Limit,
}

/// An order. `price` is a tick key and is meaningful only for limit orders;
/// `quantity` is in lots and is the remaining quantity while the order rests.
#[derive(Debug)]
pub struct Order {
    pub id: u64,
    pub symbol: String,
    pub side: OrderSide,
    pub order_type: OrderType,
    pub quantity: u64,
    pub price: u64,
    pub timestamp: u64,
    pub user_id: u32,
}

/// An execution between a buy order and a sell order, at a tick key `price`
/// and for `quantity` lots.
#[derive(Debug)]
pub struct Trade {
    pub id: u64,
    pub symbol: String,
    pub buy_order_id: u64,
    pub sell_order_id: u64,
    pub price: u64,
    pub quantity: u64,
    pub timestamp: u64,
}

impl Order {
    pub fn new(
        id: u64,
        symbol: String,
        side: OrderSide,
        order_type: OrderType,
        quantity: u64,
        price: u64,
        timestamp: u64,
        user_id: u32,
    ) -> (r: Order)
        ensures
            r == (Order { id, symbol, side, order_type, quantity, price, timestamp, user_id }),
    {
        Order { id, symbol, side, order_type, quantity, price, timestamp, user_id }
    }

    /// A copy of this order with another remaining quantity.
    pub open spec fn with_quantity(self, quantity: u64) -> Order {
        Order { quantity, ..self }
    }

    pub fn duplicate(&self) -> (r: Order)
        ensures
            r == *self,
    {
        Order {
            id: self.id,
            symbol: self.symbol.clone(),
            side: self.side,
            order_type: self.order_type,
            quantity: self.quantity,
            price: self.price,
            timestamp: self.timestamp,
            user_id: self.user_id,
        }
    }
}

} // verus!
