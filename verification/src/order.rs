//! Order and trade value types, and the small mutable lifecycle of an
//! order: its filled and remaining quantities and its status.

use vstd::prelude::*;

verus! {

/// Which side of the book an order belongs to.
#[derive(Clone, Copy, Debug, PartialEq, Eq, Structural)]
pub enum OrderSide {
    Buy,
    Sell,
}

/// How an order is to be executed.
#[derive(Clone, Copy, Debug, PartialEq, Eq, Structural)]
pub enum OrderType {
    Limit,
    Market,
    Stop,
    StopLimit,
}

/// The lifecycle state of an order. `Filled`, `Cancelled` and `Expired`
/// are terminal.
#[derive(Clone, Copy, Debug, PartialEq, Eq, Structural)]
pub enum OrderStatus {
    Pending,
    Partial,
    Filled,
    Cancelled,
    Expired,
}

/// How long an order remains eligible to match. The engine accepts all
/// four tags but enforces nothing beyond the optional expiry timestamp.
#[derive(Clone, Copy, Debug, PartialEq, Eq, Structural)]
pub enum TimeInForce {
    GTC,
    IOC,
    FOK,
    GTD,
}

/// A buy or sell intent. Quantities are integers in the smallest unit of
/// the symbol's base asset; prices are integers in the smallest unit of
/// the quote asset per unit of base asset. Timestamps are nanoseconds
/// since the Unix epoch.
#[derive(Debug)]
pub struct Order {
    pub id: u128,
    pub trader: String,
    pub symbol: String,
    pub side: OrderSide,
    pub order_type: OrderType,
    pub quantity: u64,
    pub price: Option<u64>,
    pub stop_price: Option<u64>,
    pub filled_quantity: u64,
    pub remaining_quantity: u64,
    pub status: OrderStatus,
    pub time_in_force: TimeInForce,
    pub created_at: i64,
    pub updated_at: i64,
    pub expire_at: Option<i64>,
}

impl Order {
    /// Conservation of quantity: however much of the order has been
    /// matched, the filled and remaining parts always make up the
    /// original quantity.
    pub open spec fn wf(self) -> bool {
        self.filled_quantity + self.remaining_quantity == self.quantity
    }

    pub fn new(
        id: u128,
        trader: String,
        symbol: String,
        side: OrderSide,
        order_type: OrderType,
        quantity: u64,
        price: Option<u64>,
        stop_price: Option<u64>,
        time_in_force: TimeInForce,
        expire_at: Option<i64>,
    ) -> (r: Order)
        ensures
            r.id == id,
            r.trader@ == trader@,
            r.symbol@ == symbol@,
            r.side == side,
            r.order_type == order_type,
            r.quantity == quantity,
            r.price == price,
            r.stop_price == stop_price,
            r.filled_quantity == 0,
            r.remaining_quantity == quantity,
            r.status == OrderStatus::Pending,
            r.time_in_force == time_in_force,
            r.expire_at == expire_at,
            r.created_at == r.updated_at,
            r.wf(),
    {
        let now = crate::clock::now_nanos();
        Order {
            id,
            trader,
            symbol,
            side,
            order_type,
            quantity,
            price,
            stop_price,
            filled_quantity: 0,
            remaining_quantity: quantity,
            status: OrderStatus::Pending,
            time_in_force,
            created_at: now,
            updated_at: now,
            expire_at,
        }
    }

    /// Whether the order would count as expired at the instant `now`.
    pub fn is_expired_at(&self, now: i64) -> (r: bool)
        ensures
            r == match self.expire_at {
                Some(e) => now > e,
                None => false,
            },
    {
        match self.expire_at {
            Some(expire_at) => now > expire_at,
            None => false,
        }
    }

    /// Whether the order is expired as of the current wall clock. With no
    /// expiry set, an order never expires.
    pub fn is_expired(&self) -> (r: bool)
        ensures
            self.expire_at is None ==> !r,
    {
        let now = crate::clock::now_nanos();
        self.is_expired_at(now)
    }

    /// Records a fill of `fill` units: the filled quantity grows, the
    /// remaining quantity shrinks by the same amount, the status becomes
    /// `Filled` once nothing remains and `Partial` otherwise, and the
    /// update timestamp is refreshed.
    pub fn update_filled(&mut self, fill: u64)
        requires
            old(self).wf(),
            fill <= old(self).remaining_quantity,
        ensures
            final(self).filled_quantity == old(self).filled_quantity + fill,
            final(self).remaining_quantity == old(self).remaining_quantity - fill,
            final(self).status == (if final(self).remaining_quantity == 0 {
                OrderStatus::Filled
            } else {
                OrderStatus::Partial
            }),
            final(self).wf(),
            final(self).id == old(self).id,
            final(self).trader == old(self).trader,
            final(self).symbol == old(self).symbol,
            final(self).side == old(self).side,
            final(self).order_type == old(self).order_type,
            final(self).quantity == old(self).quantity,
            final(self).price == old(self).price,
            final(self).stop_price == old(self).stop_price,
            final(self).time_in_force == old(self).time_in_force,
            final(self).created_at == old(self).created_at,
            final(self).expire_at == old(self).expire_at,
    {
        self.filled_quantity = self.filled_quantity + fill;
        self.remaining_quantity = self.remaining_quantity - fill;
        self.updated_at = crate::clock::now_nanos();
        if self.remaining_quantity == 0 {
            self.status = OrderStatus::Filled;
        } else {
            self.status = OrderStatus::Partial;
        }
    }
}

impl Clone for Order {
    fn clone(&self) -> (r: Self)
        ensures
            r == *self,
    {
        Order {
            id: self.id,
            trader: self.trader.clone(),
            symbol: self.symbol.clone(),
            side: self.side,
            order_type: self.order_type,
            quantity: self.quantity,
            price: self.price,
            stop_price: self.stop_price,
            filled_quantity: self.filled_quantity,
            remaining_quantity: self.remaining_quantity,
            status: self.status,
            time_in_force: self.time_in_force,
            created_at: self.created_at,
            updated_at: self.updated_at,
            expire_at: self.expire_at,
        }
    }
}

/// An immutable record of one match between a buy and a sell order.
/// Created only as the side effect of a match, never mutated.
#[derive(Debug)]
pub struct Trade {
    pub id: u128,
    pub symbol: String,
    pub price: u64,
    pub quantity: u64,
    pub buy_order_id: u128,
    pub sell_order_id: u128,
    pub buyer: String,
    pub seller: String,
    pub timestamp: i64,
    pub trade_type: String,
}

impl Clone for Trade {
    fn clone(&self) -> (r: Self)
        ensures
            r == *self,
    {
        Trade {
            id: self.id,
            symbol: self.symbol.clone(),
            price: self.price,
            quantity: self.quantity,
            buy_order_id: self.buy_order_id,
            sell_order_id: self.sell_order_id,
            buyer: self.buyer.clone(),
            seller: self.seller.clone(),
            timestamp: self.timestamp,
            trade_type: self.trade_type.clone(),
        }
    }
}

} // verus!
