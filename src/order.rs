//! Request values (new order, cancel order) and the resting order stored in a book.
use vstd::prelude::*;

verus! {

/// A request to place a new limit order into the book of `symbol`.
///
/// `time_received` is the arrival tag: it is zero on a fresh request and is stamped by
/// the book from its arrival counter when the order is accepted.
#[derive(Clone, Debug)]
pub struct NewOrder {
    pub user: u64,
    pub symbol: String,
    pub price: u64,
    pub qty: u64,
    pub side: char,
    pub user_order_id: u64,
    pub time_received: u64,
}

impl NewOrder {
    pub fn new(user: u64, symbol: String, price: u64, qty: u64, side: char, user_order_id: u64) -> (r: NewOrder)
        ensures
            r.user == user,
            r.symbol@ == symbol@,
            r.price == price,
            r.qty == qty,
            r.side == side,
            r.user_order_id == user_order_id,
            r.time_received == 0,
    {
        NewOrder { user, symbol, price, qty, side, user_order_id, time_received: 0 }
    }
}

/// An order resting in one price level of a book.
#[derive(Clone, Copy, Debug, PartialEq, Eq, Structural)]
pub struct ExistingOrder {
    pub user: u64,
    pub price: u64,
    pub qty: u64,
    pub user_order_id: u64,
    pub time_received: u64,
}

/// The resting order that an accepted request becomes.
pub open spec fn resting_of(o: NewOrder) -> ExistingOrder {
    ExistingOrder {
        user: o.user,
        price: o.price,
        qty: o.qty,
        user_order_id: o.user_order_id,
        time_received: o.time_received,
    }
}

impl ExistingOrder {
    pub fn new(new_order: NewOrder) -> (r: ExistingOrder)
        ensures
            r == resting_of(new_order),
    {
        ExistingOrder {
            user: new_order.user,
            price: new_order.price,
            qty: new_order.qty,
            user_order_id: new_order.user_order_id,
            time_received: new_order.time_received,
        }
    }
}

/// A request to cancel every resting order that carries `(user, user_order_id)`.
#[derive(Clone, Copy, Debug, PartialEq, Eq, Structural)]
pub struct CancelOrder {
    pub user: u64,
    pub user_order_id: u64,
}

impl CancelOrder {
    pub fn new(user: u64, user_order_id: u64) -> (r: CancelOrder)
        ensures
            r.user == user,
            r.user_order_id == user_order_id,
    {
        CancelOrder { user, user_order_id }
    }
}

} // verus!
