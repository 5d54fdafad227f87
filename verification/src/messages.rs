//! What sessions, the router and the engines say to one another.

use crate::order::trade_types::{
    ErrorCode, Execution, L1Md, L2Md, MdExecution, Order, OrderId, OrderSide, Price, Quantity,
    Symbol, UserId,
};
use vstd::prelude::*;

verus! {

/// The number of orders that one answer to an open-orders query carries at
/// most.
pub const OPEN_ORDER_MSG_MAX_LENGTH: usize = 10;

/// The key of an open-orders query: the user who asks and the user's count
/// of queries.
#[derive(Clone, Copy, Debug, PartialEq, Eq, Hash, Structural)]
pub struct OpenOrdersSequence {
    pub user: UserId,
    pub seq: u32,
}

/// One answer of an engine to an open-orders query: the first `n_order` of
/// `orders`, and whether this is the engine's last answer to the query.
#[derive(Clone, Copy, Debug)]
pub struct OpenOrders {
    pub seq: OpenOrdersSequence,
    pub n_order: u32,
    pub orders: [Order; OPEN_ORDER_MSG_MAX_LENGTH],
    pub last_response: bool,
}

impl OpenOrders {
    /// The orders that the answer carries.
    pub open spec fn listed(&self) -> Seq<Order> {
        self.orders@.take(self.n_order as int)
    }

    /// An answer that carries no order yet and is not the last.
    pub fn new(seq: OpenOrdersSequence) -> (r: Self)
        ensures
            r.seq == seq,
            r.n_order == 0,
            !r.last_response,
            r.listed() =~= Seq::<Order>::empty(),
    {
        let d: Order = Order::default();
        OpenOrders {
            seq,
            n_order: 0u32,
            orders: [d, d, d, d, d, d, d, d, d, d],
            last_response: false,
        }
    }

    /// Adds `order` to an answer that has room for it.
    pub fn push(&mut self, order: Order)
        requires
            old(self).n_order < OPEN_ORDER_MSG_MAX_LENGTH,
        ensures
            final(self).seq == old(self).seq,
            final(self).last_response == old(self).last_response,
            final(self).n_order == old(self).n_order + 1,
            final(self).listed() =~= old(self).listed().push(order),
    {
        self.orders[self.n_order as usize] = order;
        self.n_order = self.n_order + 1;
    }
}

/// What an engine tells the sessions.
#[derive(Clone, Copy, Debug)]
pub enum SessionMessage {
    NewOrderAck { order_id: OrderId, status: ErrorCode },
    Execution(Execution),
    SerializationResponse(u32),
    OpenOrdersResponse(OpenOrders),
}

#[derive(Clone, Copy, Debug)]
pub struct NewOrderMessage {
    pub user: UserId,
    pub order_id: OrderId,
    pub symbol: Symbol,
    pub side: OrderSide,
    pub price: Price,
    pub quantity: Quantity,
}

#[derive(Clone, Copy, Debug)]
pub struct ChangeOrderMessage {
    pub user: UserId,
    pub order_id: OrderId,
    pub price: Price,
    pub quantity: Quantity,
}

#[derive(Clone, Copy, Debug, PartialEq, Eq, Structural)]
pub struct CancelOrderMessage {
    pub user: UserId,
    pub order_id: OrderId,
}

/// A command to an engine. `NullMessage` is what an unwritten stretch of a
/// log reads as; nobody sends it.
#[derive(Clone, Copy, Debug)]
pub enum EngineMessage {
    NullMessage,
    NewOrder(NewOrderMessage),
    CancelOrder(CancelOrderMessage),
    /// To be answered when every command before it has been dealt with.
    SerializationMessage(u32),
    GetOpenOrdersMessaage(OpenOrdersSequence),
}

/// What an engine publishes as market data.
#[derive(Clone, Copy, Debug)]
pub enum MdMessage {
    L1Message(L1Md),
    L2Message(L2Md),
    Execution(MdExecution),
}

} // verus!
