//! The order engine: the books of a set of symbols, and what each command
//! does to them and makes the engine say.

use crate::book::{arranged, BasicMatcher, BuyComparer, MarketData, Matched, OrderBook, SellComparer};
use crate::messages::{
    CancelOrderMessage, EngineMessage, MdMessage, NewOrderMessage, OpenOrders,
    OpenOrdersSequence, SessionMessage, OPEN_ORDER_MSG_MAX_LENGTH,
};
use crate::order::trade_types::{
    current_time, ErrorCode, Execution, MdExecution, Order, OrderId, OrderTime, Symbol, UserId,
    SYMBOL_MAX,
};
use vstd::prelude::*;
use vstd::std_specs::convert::FromSpec;

verus! {

/// Something that an engine says: to the sessions, or as market data.
#[derive(Clone, Copy, Debug)]
pub enum EngineEvent {
    Session(SessionMessage),
    MarketData(MdMessage),
}

/// Why an engine turns a command down.
#[derive(Clone, Copy, Debug, PartialEq, Eq, Structural)]
pub enum EngineError {
    /// The symbols given to a new engine hold one symbol twice.
    DuplicateSymbol,
    /// The symbols given to a new engine are more than identifiers can
    /// number.
    TooManySymbols,
    /// The command is the one that nobody sends.
    NullMessage,
    /// The engine has no book for the symbol of the order.
    UnknownSymbol,
    /// The identifier of the order does not name the order's symbol and
    /// side.
    InvalidOrder,
    /// The book has no room for the order.
    BookFull,
    /// The identifier names a symbol that the engine does not have.
    InvalidOrderId,
    /// The order belongs to another user.
    NotAuthorized,
}

/// The executions `execs` as an engine reports them: each to the sessions
/// and then as market data.
pub open spec fn execution_events(execs: Seq<Execution>) -> Seq<EngineEvent>
    decreases execs.len(),
{
    if execs.len() == 0 {
        Seq::empty()
    } else {
        execution_events(execs.drop_last()).push(
            EngineEvent::Session(SessionMessage::Execution(execs.last())),
        ).push(EngineEvent::MarketData(MdMessage::Execution(MdExecution::from_spec(execs.last()))))
    }
}

/// What an engine says of a new order with the identifier `id`: the
/// executions, and then the acknowledgement.
pub open spec fn new_order_events(id: OrderId, r: Matched) -> Seq<EngineEvent> {
    execution_events(r.executions@).push(
        EngineEvent::Session(SessionMessage::NewOrderAck { order_id: id, status: r.status }),
    )
}

/// The order that the command `msg` stands for, updated at `now`.
pub open spec fn order_of(msg: NewOrderMessage, now: OrderTime) -> Order {
    Order {
        id: msg.order_id,
        user: msg.user,
        symbol: msg.symbol,
        side: msg.side,
        price: msg.price,
        quantity: msg.quantity,
        update: now,
    }
}

/// Whether `list` holds the resting orders of `book`: the buy orders and
/// then the sell orders, each side in the order in which it trades.
pub open spec fn book_lists(book: OrderBook, list: Seq<Order>) -> bool {
    &&& list.len() == book.bids().dom().len() + book.asks().dom().len()
    &&& arranged::<BuyComparer>(book.bids(), list.take(book.bids().dom().len() as int))
    &&& arranged::<SellComparer>(book.asks(), list.skip(book.bids().dom().len() as int))
}

/// The lists `lists`, one after the other.
pub open spec fn concat_all(lists: Seq<Seq<Order>>) -> Seq<Order>
    decreases lists.len(),
{
    if lists.len() == 0 {
        Seq::empty()
    } else {
        concat_all(lists.drop_last()) + lists.last()
    }
}

/// Those of `orders` that belong to `user`, in their order.
pub open spec fn of_user(orders: Seq<Order>, user: UserId) -> Seq<Order>
    decreases orders.len(),
{
    if orders.len() == 0 {
        Seq::empty()
    } else if orders.last().user == user {
        of_user(orders.drop_last(), user).push(orders.last())
    } else {
        of_user(orders.drop_last(), user)
    }
}

/// Picking a user's orders from two lists, one after the other, is picking
/// them from each.
pub proof fn lemma_of_user_concat(a: Seq<Order>, b: Seq<Order>, user: UserId)
    ensures
        of_user(a + b, user) == of_user(a, user) + of_user(b, user),
    decreases b.len(),
{
    if b.len() == 0 {
        assert(a + b =~= a);
        assert(of_user(a, user) + of_user(b, user) =~= of_user(a, user));
    } else {
        assert((a + b).drop_last() =~= a + b.drop_last());
        assert((a + b).last() == b.last());
        lemma_of_user_concat(a, b.drop_last(), user);
        if b.last().user == user {
            assert(of_user(a, user) + of_user(b, user) =~= (of_user(a, user) + of_user(
                b.drop_last(),
                user,
            )).push(b.last()));
        }
    }
}

/// Whether `events` are the answers to the open-orders query `seq` that
/// carry `orders`: one answer for every 10 orders and one more, each but the
/// last with 10 orders, in their order, and the last marked as such.
pub open spec fn open_orders_events(
    seq: OpenOrdersSequence,
    orders: Seq<Order>,
    events: Seq<EngineEvent>,
) -> bool {
    &&& events.len() == orders.len() / 10 + 1
    &&& forall|i: int|
        0 <= i < events.len() ==> {
            &&& #[trigger] events[i] matches EngineEvent::Session(
                SessionMessage::OpenOrdersResponse(answer),
            )
            &&& answer.seq == seq
            &&& answer.last_response == (i == events.len() - 1)
            &&& answer.n_order == (if i == events.len() - 1 {
                orders.len() - 10 * i
            } else {
                10
            })
            &&& answer.listed() == orders.subrange(10 * i, 10 * i + answer.n_order)
        }
}

/// An engine: one book for each of its symbols, and the record of which
/// books have changed since market data was last published.
pub struct OrderEngine {
    symbols: Vec<Symbol>,
    dirty_symbols: Vec<bool>,
    books: Vec<OrderBook>,
}

impl OrderEngine {
    /// The number of symbols.
    pub closed spec fn spec_len(&self) -> nat {
        self.symbols@.len()
    }

    /// The symbol with the id `i`.
    pub closed spec fn spec_symbol(&self, i: int) -> Symbol {
        self.symbols@[i]
    }

    /// The book of the symbol with the id `i`.
    pub closed spec fn book(&self, i: int) -> OrderBook {
        self.books@[i]
    }

    /// Whether the book of the symbol with the id `i` has changed since
    /// market data was last published.
    pub closed spec fn dirty(&self, i: int) -> bool {
        self.dirty_symbols@[i]
    }

    /// The invariant of an engine: every symbol has its book, which numbers
    /// its executions under the symbol's id, and no symbol occurs twice.
    pub closed spec fn wf(&self) -> bool {
        &&& self.symbols@.len() <= SYMBOL_MAX + 1
        &&& self.books@.len() == self.symbols@.len()
        &&& self.dirty_symbols@.len() == self.symbols@.len()
        &&& forall|i: int|
            0 <= i < self.symbols@.len() ==> {
                &&& (#[trigger] self.books@[i]).wf()
                &&& self.books@[i].spec_symbol() == self.symbols@[i]
                &&& self.books@[i].spec_symbol_id() == i
            }
        &&& forall|i: int, j: int|
            0 <= i < j < self.symbols@.len() ==> (#[trigger] self.symbols@[i])@
                != (#[trigger] self.symbols@[j])@
    }

    /// Whether `self` has the symbols of `other`.
    pub open spec fn same_symbols(&self, other: &OrderEngine) -> bool {
        &&& self.spec_len() == other.spec_len()
        &&& forall|i: int|
            0 <= i < self.spec_len() ==> #[trigger] self.spec_symbol(i) == other.spec_symbol(i)
    }

    /// Whether `self` differs from `other` at most in the book of the symbol
    /// with the id `i` and in whether that book has changed.
    pub open spec fn same_but(&self, other: &OrderEngine, i: int) -> bool {
        &&& self.same_symbols(other)
        &&& forall|j: int|
            0 <= j < self.spec_len() && j != i ==> #[trigger] self.book(j) == other.book(j)
        &&& forall|j: int|
            0 <= j < self.spec_len() && j != i ==> #[trigger] self.dirty(j) == other.dirty(j)
    }

    /// Whether `self` is as `other` is.
    pub open spec fn same_as(&self, other: &OrderEngine) -> bool {
        self.same_but(other, -1)
    }

    /// What the invariant says of the books.
    pub proof fn lemma_invariant(&self)
        requires
            self.wf(),
        ensures
            self.spec_len() <= SYMBOL_MAX + 1,
            forall|i: int|
                0 <= i < self.spec_len() ==> {
                    &&& (#[trigger] self.book(i)).wf()
                    &&& self.book(i).spec_symbol() == self.spec_symbol(i)
                    &&& self.book(i).spec_symbol_id() == i
                },
            forall|i: int, j: int|
                0 <= i < j < self.spec_len() ==> (#[trigger] self.spec_symbol(i))@
                    != (#[trigger] self.spec_symbol(j))@,
    {
    }

    /// An engine with an empty book for each of `symbols`, numbered in
    /// their order; fails where a symbol occurs twice or where there are
    /// more symbols than identifiers can number.
    pub fn new(symbols: Vec<Symbol>) -> (r: Result<OrderEngine, EngineError>)
        ensures
            r is Ok <==> symbols@.len() <= SYMBOL_MAX + 1 && forall|i: int, j: int|
                0 <= i < j < symbols@.len() ==> (#[trigger] symbols@[i])@
                    != (#[trigger] symbols@[j])@,
            r matches Ok(engine) ==> {
                &&& engine.wf()
                &&& engine.spec_len() == symbols@.len()
                &&& forall|i: int|
                    0 <= i < symbols@.len() ==> {
                        &&& #[trigger] engine.spec_symbol(i) == symbols@[i]
                        &&& engine.book(i).bids() =~= Map::<u64, Order>::empty()
                        &&& engine.book(i).asks() =~= Map::<u64, Order>::empty()
                        &&& engine.book(i).spec_exec_seq() == 0
                        &&& engine.book(i).spec_last() == None::<MdExecution>
                        &&& !engine.dirty(i)
                    }
            },
            r matches Err(e) ==> e == (if symbols@.len() > SYMBOL_MAX + 1 {
                EngineError::TooManySymbols
            } else {
                EngineError::DuplicateSymbol
            }),
    {
        if symbols.len() > SYMBOL_MAX as usize + 1 {
            return Err(EngineError::TooManySymbols);
        }
        let mut books: Vec<OrderBook> = Vec::new();
        let mut dirty_symbols: Vec<bool> = Vec::new();
        let mut i: usize = 0;
        while i < symbols.len()
            invariant
                i <= symbols@.len() <= SYMBOL_MAX + 1,
                books@.len() == i,
                dirty_symbols@.len() == i,
                forall|a: int, b: int|
                    0 <= a < b < i ==> (#[trigger] symbols@[a])@ != (#[trigger] symbols@[b])@,
                forall|k: int|
                    0 <= k < i ==> {
                        &&& (#[trigger] books@[k]).wf()
                        &&& books@[k].spec_symbol() == symbols@[k]
                        &&& books@[k].spec_symbol_id() == k
                        &&& books@[k].bids() =~= Map::<u64, Order>::empty()
                        &&& books@[k].asks() =~= Map::<u64, Order>::empty()
                        &&& books@[k].spec_exec_seq() == 0
                        &&& books@[k].spec_last() == None::<MdExecution>
                        &&& !dirty_symbols@[k]
                    },
            decreases symbols@.len() - i,
        {
            let mut j: usize = 0;
            while j < i
                invariant
                    j <= i < symbols@.len() <= SYMBOL_MAX + 1,
                    forall|a: int| 0 <= a < j ==> (#[trigger] symbols@[a])@ != symbols@[i as int]@,
                decreases i - j,
            {
                if symbols[j] == symbols[i] {
                    return Err(EngineError::DuplicateSymbol);
                }
                j += 1;
            }
            books.push(OrderBook::new(symbols[i], i as u32));
            dirty_symbols.push(false);
            i += 1;
        }
        Ok(OrderEngine { symbols, dirty_symbols, books })
    }

    /// The id of `symbol`, where the engine has the symbol.
    pub fn find_symbol(&self, symbol: &Symbol) -> (r: Option<usize>)
        requires
            self.wf(),
        ensures
            match r {
                Some(i) => i < self.spec_len() && self.spec_symbol(i as int)@ == symbol@,
                None => forall|i: int|
                    0 <= i < self.spec_len() ==> (#[trigger] self.spec_symbol(i))@ != symbol@,
            },
    {
        let mut i: usize = 0;
        while i < self.symbols.len()
            invariant
                i <= self.symbols@.len(),
                forall|a: int| 0 <= a < i ==> (#[trigger] self.symbols@[a])@ != symbol@,
            decreases self.symbols@.len() - i,
        {
            if self.symbols[i] == *symbol {
                return Some(i);
            }
            i += 1;
        }
        None
    }
}

/// The answers to the open-orders query `seq` that carry `orders`.
pub fn chunk_open_orders(seq: OpenOrdersSequence, orders: &Vec<Order>) -> (events: Vec<
    EngineEvent,
>)
    ensures
        open_orders_events(seq, orders@, events@),
{
    let mut events: Vec<EngineEvent> = Vec::new();
    let mut next: usize = 0;
    loop
        invariant_except_break
            next == 10 * events@.len(),
            next <= orders@.len(),
            forall|i: int|
                0 <= i < events@.len() ==> {
                    &&& #[trigger] events@[i] matches EngineEvent::Session(
                        SessionMessage::OpenOrdersResponse(answer),
                    )
                    &&& answer.seq == seq
                    &&& !answer.last_response
                    &&& answer.n_order == 10
                    &&& answer.listed() == orders@.subrange(10 * i, 10 * i + 10)
                },
        ensures
            open_orders_events(seq, orders@, events@),
        decreases orders@.len() - next,
    {
        let mut response: OpenOrders = OpenOrders::new(seq);
        let start: usize = next;
        while response.n_order < 10 && next < orders.len()
            invariant
                start <= next <= orders@.len(),
                response.n_order <= 10,
                next == start + response.n_order,
                response.seq == seq,
                !response.last_response,
                response.listed() == orders@.subrange(start as int, next as int),
            decreases orders@.len() - next,
        {
            response.push(orders[next]);
            next = next + 1;
            assert(orders@.subrange(start as int, next as int) =~= orders@.subrange(
                start as int,
                next - 1,
            ).push(orders@[next - 1]));
        }
        if response.n_order < 10 {
            response.last_response = true;
        }
        let last_response: bool = response.last_response;
        events.push(EngineEvent::Session(SessionMessage::OpenOrdersResponse(response)));
        if last_response {
            break ;
        }
    }
    events
}

impl OrderEngine {
    /// What a new-order command comes to at the time `now`.
    ///
    /// The command is turned down where the engine has no book for the
    /// symbol, where the identifier does not name the symbol and the side,
    /// and where the book has no room. Otherwise the order goes to the
    /// matcher, the engine says what the matcher reports, and the book
    /// counts as changed.
    pub open spec fn new_order_outcome(
        before: OrderEngine,
        msg: NewOrderMessage,
        now: OrderTime,
        r: Result<Vec<EngineEvent>, EngineError>,
        after: OrderEngine,
    ) -> bool {
        let order = order_of(msg, now);
        if forall|i: int|
            0 <= i < before.spec_len() ==> (#[trigger] before.spec_symbol(i))@ != msg.symbol@ {
            r == Err::<Vec<EngineEvent>, EngineError>(EngineError::UnknownSymbol) && after.same_as(
                &before,
            )
        } else {
            let i = choose|i: int|
                0 <= i < before.spec_len() && (#[trigger] before.spec_symbol(i))@ == msg.symbol@;
            if msg.order_id.spec_symbol_id() != i || !order.consistent() {
                r == Err::<Vec<EngineEvent>, EngineError>(EngineError::InvalidOrder)
                    && after.same_as(&before)
            } else if !before.book(i).accepts(order) {
                r == Err::<Vec<EngineEvent>, EngineError>(EngineError::BookFull) && after.same_as(
                    &before,
                )
            } else {
                &&& r matches Ok(events)
                &&& exists|m: Matched| #[trigger]
                    BasicMatcher::added(before.book(i), order, now, m, after.book(i)) && events@
                        == new_order_events(msg.order_id, m)
                &&& after.same_but(&before, i)
                &&& after.dirty(i)
            }
        }
    }

    /// What a cancel command comes to.
    ///
    /// The command is turned down where the identifier names a symbol that
    /// the engine does not have, and where the order belongs to another
    /// user. Where the order does not rest on its book, nothing happens.
    /// Otherwise the order leaves the book, and the book counts as changed.
    pub open spec fn cancel_outcome(
        before: OrderEngine,
        msg: CancelOrderMessage,
        r: Result<Vec<EngineEvent>, EngineError>,
        after: OrderEngine,
    ) -> bool {
        let i = msg.order_id.spec_symbol_id() as int;
        if i >= before.spec_len() {
            r == Err::<Vec<EngineEvent>, EngineError>(EngineError::InvalidOrderId)
                && after.same_as(&before)
        } else {
            match before.book(i).spec_get(msg.order_id) {
                None => {
                    &&& r matches Ok(events)
                    &&& events@.len() == 0
                    &&& after.same_as(&before)
                },
                Some(o) => if o.user != msg.user {
                    r == Err::<Vec<EngineEvent>, EngineError>(EngineError::NotAuthorized)
                        && after.same_as(&before)
                } else {
                    &&& r matches Ok(events)
                    &&& events@.len() == 0
                    &&& BasicMatcher::cancelled(before.book(i), msg.order_id, after.book(i))
                    &&& after.same_but(&before, i)
                    &&& after.dirty(i)
                },
            }
        }
    }

    /// Whether `lists` holds, for every book in the order of the symbols,
    /// the resting orders of the book.
    pub open spec fn listed_by(&self, lists: Seq<Seq<Order>>) -> bool {
        &&& lists.len() == self.spec_len()
        &&& forall|i: int| 0 <= i < lists.len() ==> book_lists(self.book(i), #[trigger] lists[i])
    }

    /// What a command comes to at the time `now`.
    pub open spec fn outcome(
        before: OrderEngine,
        message: EngineMessage,
        now: OrderTime,
        r: Result<Vec<EngineEvent>, EngineError>,
        after: OrderEngine,
    ) -> bool {
        match message {
            EngineMessage::NullMessage => r == Err::<Vec<EngineEvent>, EngineError>(
                EngineError::NullMessage,
            ) && after.same_as(&before),
            EngineMessage::NewOrder(msg) => Self::new_order_outcome(before, msg, now, r, after),
            EngineMessage::CancelOrder(msg) => Self::cancel_outcome(before, msg, r, after),
            EngineMessage::SerializationMessage(seq) => {
                &&& r matches Ok(events)
                &&& events@ == seq![
                    EngineEvent::Session(SessionMessage::SerializationResponse(seq)),
                ]
                &&& after.same_as(&before)
            },
            EngineMessage::GetOpenOrdersMessaage(seq) => {
                &&& r matches Ok(events)
                &&& exists|lists: Seq<Seq<Order>>| #[trigger]
                    before.listed_by(lists) && open_orders_events(
                        seq,
                        of_user(concat_all(lists), seq.user),
                        events@,
                    )
                &&& after.same_as(&before)
            },
        }
    }

    /// Takes a new order to its book at the time `now`.
    pub fn new_order(&mut self, msg: NewOrderMessage, now: OrderTime) -> (r: Result<
        Vec<EngineEvent>,
        EngineError,
    >)
        requires
            old(self).wf(),
        ensures
            final(self).wf(),
            Self::new_order_outcome(*old(self), msg, now, r, *final(self)),
    {
        let order = Order {
            id: msg.order_id,
            user: msg.user,
            symbol: msg.symbol,
            side: msg.side,
            price: msg.price,
            quantity: msg.quantity,
            update: now,
        };
        let index: usize = match self.find_symbol(&msg.symbol) {
            Some(i) => i,
            None => {
                return Err(EngineError::UnknownSymbol);
            },
        };
        proof {
            let i = choose|i: int|
                0 <= i < self.spec_len() && (#[trigger] self.spec_symbol(i))@ == msg.symbol@;
            assert(i == index) by {
                if i < index {
                    assert(self.symbols@[i]@ != self.symbols@[index as int]@);
                } else if index < i {
                    assert(self.symbols@[index as int]@ != self.symbols@[i]@);
                }
            }
        }
        if msg.order_id.symbol_id() as usize != index || msg.order_id.side() != msg.side {
            return Err(EngineError::InvalidOrder);
        }
        if !self.books[index].can_accept(&order) {
            return Err(EngineError::BookFull);
        }
        let m: Matched = BasicMatcher::add_order_at(&mut self.books[index], order, now);
        let mut events: Vec<EngineEvent> = Vec::new();
        let mut k: usize = 0;
        while k < m.executions.len()
            invariant
                k <= m.executions@.len(),
                events@ == execution_events(m.executions@.take(k as int)),
            decreases m.executions@.len() - k,
        {
            let e: Execution = m.executions[k];
            events.push(EngineEvent::Session(SessionMessage::Execution(e)));
            events.push(EngineEvent::MarketData(MdMessage::Execution(MdExecution::from(e))));
            k += 1;
            assert(m.executions@.take(k as int).drop_last() =~= m.executions@.take(k - 1));
        }
        assert(m.executions@.take(k as int) =~= m.executions@);
        events.push(
            EngineEvent::Session(
                SessionMessage::NewOrderAck { order_id: msg.order_id, status: m.status },
            ),
        );
        self.dirty_symbols[index] = true;
        proof {
            assert(BasicMatcher::added(
                old(self).book(index as int),
                order,
                now,
                m,
                self.book(index as int),
            ));
            assert(events@ == new_order_events(msg.order_id, m));
        }
        Ok(events)
    }

    /// Takes the order that `msg` names off its book, for the user who
    /// placed it.
    pub fn cancel_order(&mut self, msg: CancelOrderMessage) -> (r: Result<
        Vec<EngineEvent>,
        EngineError,
    >)
        requires
            old(self).wf(),
        ensures
            final(self).wf(),
            Self::cancel_outcome(*old(self), msg, r, *final(self)),
    {
        let sym_id: u32 = msg.order_id.symbol_id();
        if sym_id as usize >= self.symbols.len() {
            return Err(EngineError::InvalidOrderId);
        }
        let index: usize = sym_id as usize;
        let target_user: UserId = match self.books[index].get_order(msg.order_id) {
            Some(order) => order.user,
            None => {
                return Ok(Vec::new());
            },
        };
        if target_user != msg.user {
            return Err(EngineError::NotAuthorized);
        }
        BasicMatcher::cancel_order_in(&mut self.books[index], msg.order_id);
        self.dirty_symbols[index] = true;
        Ok(Vec::new())
    }

    /// The answer to a serialization barrier: every command before it has
    /// been dealt with, so the engine answers at once.
    pub fn serialization_point(&self, seq: u32) -> (events: Vec<EngineEvent>)
        ensures
            events@ == seq![EngineEvent::Session(SessionMessage::SerializationResponse(seq))],
    {
        let mut events: Vec<EngineEvent> = Vec::new();
        events.push(EngineEvent::Session(SessionMessage::SerializationResponse(seq)));
        events
    }

    /// The answers to an open-orders query: the resting orders of the user,
    /// book by book, in answers of up to 10 orders.
    pub fn get_open_orders(&self, seq: OpenOrdersSequence) -> (events: Vec<EngineEvent>)
        requires
            self.wf(),
        ensures
            exists|lists: Seq<Seq<Order>>| #[trigger]
                self.listed_by(lists) && open_orders_events(
                    seq,
                    of_user(concat_all(lists), seq.user),
                    events@,
                ),
    {
        let mut user_orders: Vec<Order> = Vec::new();
        let ghost mut lists: Seq<Seq<Order>> = Seq::empty();
        let mut i: usize = 0;
        while i < self.books.len()
            invariant
                self.wf(),
                i <= self.books@.len(),
                lists.len() == i,
                forall|k: int| 0 <= k < i ==> book_lists(self.books@[k], #[trigger] lists[k]),
                user_orders@ == of_user(concat_all(lists), seq.user),
            decreases self.books@.len() - i,
        {
            let all: Vec<Order> = self.books[i].orders();
            let ghost before = user_orders@;
            let mut k: usize = 0;
            while k < all.len()
                invariant
                    k <= all@.len(),
                    user_orders@ == before + of_user(all@.take(k as int), seq.user),
                decreases all@.len() - k,
            {
                let o: Order = all[k];
                if o.user == seq.user {
                    user_orders.push(o);
                }
                k += 1;
                assert(all@.take(k as int).drop_last() =~= all@.take(k - 1));
            }
            proof {
                assert(all@.take(k as int) =~= all@);
                lemma_of_user_concat(concat_all(lists), all@, seq.user);
                let more = lists.push(all@);
                assert(more.drop_last() =~= lists);
                lists = more;
            }
            i += 1;
        }
        let events: Vec<EngineEvent> = chunk_open_orders(seq, &user_orders);
        proof {
            assert(self.listed_by(lists));
        }
        events
    }

    /// Deals with one command at the time `now`, and says what follows from
    /// it.
    pub fn process_message_at(&mut self, message: EngineMessage, now: OrderTime) -> (r: Result<
        Vec<EngineEvent>,
        EngineError,
    >)
        requires
            old(self).wf(),
        ensures
            final(self).wf(),
            Self::outcome(*old(self), message, now, r, *final(self)),
    {
        match message {
            EngineMessage::NewOrder(msg) => self.new_order(msg, now),
            EngineMessage::CancelOrder(msg) => self.cancel_order(msg),
            EngineMessage::SerializationMessage(seq) => Ok(self.serialization_point(seq)),
            EngineMessage::GetOpenOrdersMessaage(seq) => Ok(self.get_open_orders(seq)),
            EngineMessage::NullMessage => Err(EngineError::NullMessage),
        }
    }

    /// Deals with one command now, and says what follows from it.
    pub fn process_message(&mut self, message: EngineMessage) -> (r: Result<
        Vec<EngineEvent>,
        EngineError,
    >)
        requires
            old(self).wf(),
        ensures
            final(self).wf(),
            exists|now: OrderTime| #[trigger] Self::outcome(*old(self), message, now, r, *final(self)),
    {
        let now: OrderTime = current_time();
        self.process_message_at(message, now)
    }

    /// The ids of the symbols below `n` whose books have changed since
    /// market data was last published, in their order.
    pub open spec fn dirty_ids(&self, n: nat) -> Seq<int>
        decreases n,
    {
        if n == 0 {
            Seq::empty()
        } else if self.dirty(n - 1) {
            self.dirty_ids((n - 1) as nat).push(n - 1)
        } else {
            self.dirty_ids((n - 1) as nat)
        }
    }

    /// Whether `events` show, at the places `2 * j` and `2 * j + 1`, the top
    /// and the depth of the book of the symbol `ids[j]`.
    pub open spec fn shows_at(&self, ids: Seq<int>, events: Seq<EngineEvent>, j: int) -> bool {
        &&& events[2 * j] matches EngineEvent::MarketData(MdMessage::L1Message(l1))
        &&& BasicMatcher::shown_l1(self.book(ids[j]), l1)
        &&& events[2 * j + 1] matches EngineEvent::MarketData(MdMessage::L2Message(l2))
        &&& BasicMatcher::shown_l2(self.book(ids[j]), l2)
    }

    /// Whether `events` show the top and then the depth of the book of each
    /// of the symbols `ids`, in their order.
    pub open spec fn md_events(&self, ids: Seq<int>, events: Seq<EngineEvent>) -> bool {
        &&& events.len() == 2 * ids.len()
        &&& forall|j: int| 0 <= j < ids.len() ==> #[trigger] self.shows_at(ids, events, j)
    }

    /// Publishes market data: the top and the depth of every book that has
    /// changed since the last time, in the order of the symbols. After that
    /// no book counts as changed.
    pub fn publish_md(&mut self) -> (events: Vec<EngineEvent>)
        requires
            old(self).wf(),
        ensures
            final(self).wf(),
            final(self).same_symbols(old(self)),
            forall|i: int|
                0 <= i < old(self).spec_len() ==> #[trigger] final(self).book(i) == old(self).book(
                    i,
                ) && !final(self).dirty(i),
            old(self).md_events(old(self).dirty_ids(old(self).spec_len()), events@),
    {
        let mut events: Vec<EngineEvent> = Vec::new();
        let mut i: usize = 0;
        while i < self.books.len()
            invariant
                self.wf(),
                i <= self.books@.len(),
                self.symbols == old(self).symbols,
                self.books == old(self).books,
                self.dirty_symbols@.len() == old(self).dirty_symbols@.len(),
                forall|k: int| 0 <= k < i ==> !(#[trigger] self.dirty_symbols@[k]),
                forall|k: int|
                    i <= k < self.books@.len() ==> #[trigger] self.dirty_symbols@[k] == old(
                        self,
                    ).dirty_symbols@[k],
                old(self).md_events(old(self).dirty_ids(i as nat), events@),
            decreases self.books@.len() - i,
        {
            let ghost ids = old(self).dirty_ids(i as nat);
            let ghost more = old(self).dirty_ids((i + 1) as nat);
            let ghost shown = events@;
            if self.dirty_symbols[i] {
                let md: MarketData = BasicMatcher::market_data(&self.books[i]);
                events.push(EngineEvent::MarketData(MdMessage::L1Message(md.l1)));
                events.push(EngineEvent::MarketData(MdMessage::L2Message(md.l2)));
                self.dirty_symbols[i] = false;
                proof {
                    assert(more == ids.push(i as int));
                    assert forall|j: int| 0 <= j < more.len() implies #[trigger] old(
                        self,
                    ).shows_at(more, events@, j) by {
                        if j < ids.len() {
                            assert(old(self).shows_at(ids, shown, j));
                            assert(more[j] == ids[j]);
                            assert(events@[2 * j] == shown[2 * j]);
                            assert(events@[2 * j + 1] == shown[2 * j + 1]);
                        }
                    }
                    assert(events@.len() == 2 * more.len());
                    assert(old(self).md_events(more, events@));
                }
            } else {
                assert(more == ids);
                assert(old(self).md_events(more, events@));
            }
            i += 1;
        }
        events
    }
}

} // verus!
