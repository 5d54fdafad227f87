//! The sessions and what they share: who may trade, which answers are
//! still awaited, and what an answer of an engine sets off.

use crate::messages::{
    CancelOrderMessage, EngineMessage, NewOrderMessage, OpenOrders, OpenOrdersSequence,
    SessionMessage, OPEN_ORDER_MSG_MAX_LENGTH,
};
use crate::order::trade_types::{
    ErrorCode, Execution, Order, OrderId, OrderSide, Price, Quantity, Symbol, UserId,
};
use crate::router::{OrderRouter, RouterError, SingleRouter};
use crate::wal::{Wal, WalError, WalWrite};
use std::collections::HashMap;
use std::collections::HashSet;
use vstd::prelude::*;

verus! {

/// Whether the server still plays back its log or takes connections.
#[derive(Clone, Copy, Debug, PartialEq, Eq, Structural)]
pub enum ServerState {
    Loading,
    Running,
}

/// The code of an answer to a client.
#[derive(Clone, Copy, Debug, PartialEq, Eq, Structural)]
pub enum ReplyCode {
    Success,
    NotAuthenticated,
    InvalidArgs,
    AlreadySubscribed,
    DuplicateId,
    Other,
}

/// The code that answers a new order whose acknowledgement says `status`.
pub open spec fn spec_reply_of(status: ErrorCode) -> ReplyCode {
    match status {
        ErrorCode::Success => ReplyCode::Success,
        ErrorCode::DuplicateId => ReplyCode::DuplicateId,
        ErrorCode::Other => ReplyCode::Other,
    }
}

/// The code that answers a new order whose acknowledgement says `status`.
#[verifier::when_used_as_spec(spec_reply_of)]
pub fn reply_of(status: ErrorCode) -> (r: ReplyCode)
    ensures
        r == spec_reply_of(status),
{
    match status {
        ErrorCode::Success => ReplyCode::Success,
        ErrorCode::DuplicateId => ReplyCode::DuplicateId,
        ErrorCode::Other => ReplyCode::Other,
    }
}

/// An answer that is awaited: nothing yet, or what has come.
pub struct WaitEvent<T> {
    pub status: Option<T>,
}

impl<T> WaitEvent<T> {
    pub fn new() -> (r: Self)
        ensures
            r.status is None,
    {
        WaitEvent { status: None }
    }

    /// Takes the answer.
    pub fn ack(&mut self, result: T)
        ensures
            final(self).status == Some(result),
    {
        self.status = Some(result);
    }
}

/// A barrier that is awaited: the number of engines that have yet to
/// answer it.
#[derive(Clone, Copy, Debug, PartialEq, Eq, Structural)]
pub struct SyncWaitRecord {
    pub pending_count: u32,
}

/// The wait for the barrier with the ticket `target`.
#[derive(Clone, Copy, Debug, PartialEq, Eq, Structural)]
pub struct SerializationPoint {
    pub target: u32,
}

impl SerializationPoint {
    /// Whether the barrier has been passed when the last barrier that all
    /// engines have answered is `gen`.
    pub fn poll(&self, gen: u32) -> (ready: bool)
        ensures
            ready == (gen >= self.target),
    {
        gen >= self.target
    }
}

/// An open-orders query that is awaited: the orders that have come, and
/// the number of engines that have yet to send their last answer.
pub struct OpenOrdersContext {
    in_flight: usize,
    orders: Vec<Order>,
}

impl OpenOrdersContext {
    pub closed spec fn spec_in_flight(&self) -> nat {
        self.in_flight as nat
    }

    pub closed spec fn spec_orders(&self) -> Seq<Order> {
        self.orders@
    }

    /// The wait for the answers of `in_flight` engines.
    pub fn new(in_flight: usize) -> (r: Self)
        ensures
            r.spec_in_flight() == in_flight,
            r.spec_orders() =~= Seq::<Order>::empty(),
    {
        OpenOrdersContext { in_flight, orders: Vec::new() }
    }

    /// The orders that the answer `msg` adds: those that it carries, 10 at
    /// most.
    pub open spec fn carried(msg: OpenOrders) -> Seq<Order> {
        if msg.n_order <= OPEN_ORDER_MSG_MAX_LENGTH {
            msg.orders@.take(msg.n_order as int)
        } else {
            msg.orders@
        }
    }

    /// Takes the answer `msg` of an engine: its orders are added, and where
    /// it is the engine's last, one engine fewer has yet to answer. Says
    /// whether no engine has.
    pub fn recv(&mut self, msg: &OpenOrders) -> (done: bool)
        ensures
            final(self).spec_orders() == old(self).spec_orders() + Self::carried(*msg),
            final(self).spec_in_flight() == (if msg.last_response && old(self).spec_in_flight()
                > 0 {
                old(self).spec_in_flight() - 1
            } else {
                old(self).spec_in_flight() as int
            }),
            done == (final(self).spec_in_flight() == 0),
    {
        let n: usize = if (msg.n_order as usize) < OPEN_ORDER_MSG_MAX_LENGTH {
            msg.n_order as usize
        } else {
            OPEN_ORDER_MSG_MAX_LENGTH
        };
        let mut i: usize = 0;
        while i < n
            invariant
                i <= n <= OPEN_ORDER_MSG_MAX_LENGTH,
                self.in_flight == old(self).in_flight,
                self.orders@ == old(self).orders@ + msg.orders@.take(i as int),
            decreases n - i,
        {
            self.orders.push(msg.orders[i]);
            i += 1;
            assert(msg.orders@.take(i as int) =~= msg.orders@.take(i - 1).push(
                msg.orders@[i - 1],
            ));
            assert(self.orders@ =~= old(self).orders@ + msg.orders@.take(i as int));
        }
        assert(msg.orders@.take(n as int) =~= Self::carried(*msg));
        if msg.last_response && self.in_flight > 0 {
            self.in_flight = self.in_flight - 1;
        }
        self.in_flight == 0
    }

    /// The orders that have come.
    pub fn orders(&self) -> (r: &Vec<Order>)
        ensures
            r@ == self.spec_orders(),
    {
        &self.orders
    }

    /// The number of engines that have yet to send their last answer.
    pub fn in_flight(&self) -> (r: usize)
        ensures
            r == self.spec_in_flight(),
    {
        self.in_flight
    }
}

/// The key under which the open-orders query `seq` is awaited.
pub open spec fn spec_query_key(seq: OpenOrdersSequence) -> u128 {
    (seq.user * 0x1_0000_0000 + seq.seq) as u128
}

/// The key under which the open-orders query `seq` is awaited.
#[verifier::when_used_as_spec(spec_query_key)]
pub fn query_key(seq: OpenOrdersSequence) -> (key: u128)
    ensures
        key == spec_query_key(seq),
{
    (seq.user as u128) * 0x1_0000_0000 + seq.seq as u128
}

/// Two queries with the same key are the same query.
pub proof fn lemma_query_key_determines(a: OpenOrdersSequence, b: OpenOrdersSequence)
    requires
        spec_query_key(a) == spec_query_key(b),
    ensures
        a == b,
{
}

/// What an answer of an engine sets off at the sessions.
#[derive(Debug)]
pub enum Notification {
    /// The user is to be told of the execution, as the party of `side`.
    Execution { user: UserId, side: OrderSide, execution: Execution },
    /// The new order has its acknowledgement.
    OrderAcked { order_id: OrderId, status: ErrorCode },
    /// All engines have answered the barrier.
    Synced { ticket: u32 },
    /// All engines have answered the query; these are the orders.
    OpenOrdersReady { seq: OpenOrdersSequence, orders: Vec<Order> },
}

/// What the sessions share: the router, the log, who has subscribed to
/// executions, and which answers are awaited.
pub struct ServerContext {
    router: SingleRouter,
    wal: Wal,
    sub_map: HashSet<u64>,
    pending_orders: HashMap<u64, Option<ErrorCode>>,
    sync_gen: u32,
    sync_ticket: u32,
    pending_syncs: HashMap<u32, SyncWaitRecord>,
    state: ServerState,
    pending_open_orders: HashMap<u128, OpenOrdersContext>,
}

impl ServerContext {
    pub closed spec fn router(&self) -> SingleRouter {
        self.router
    }

    pub closed spec fn log(&self) -> Wal {
        self.wal
    }

    /// The users who have subscribed to their executions.
    pub closed spec fn subscribed(&self) -> Set<u64> {
        self.sub_map@
    }

    /// The new orders whose acknowledgement is awaited, by the number of
    /// their identifier, each with the acknowledgement where it has come.
    pub closed spec fn orders(&self) -> Map<u64, Option<ErrorCode>> {
        self.pending_orders@
    }

    /// The barriers that are awaited, by their ticket, each with the number
    /// of engines that have yet to answer.
    pub closed spec fn syncs(&self) -> Map<u32, SyncWaitRecord> {
        self.pending_syncs@
    }

    /// The open-orders queries that are awaited, by their key.
    pub closed spec fn queries(&self) -> Map<u128, OpenOrdersContext> {
        self.pending_open_orders@
    }

    /// The last barrier that all engines have answered.
    pub closed spec fn spec_sync_gen(&self) -> u32 {
        self.sync_gen
    }

    /// The ticket of the last barrier.
    pub closed spec fn spec_sync_ticket(&self) -> u32 {
        self.sync_ticket
    }

    pub closed spec fn spec_state(&self) -> ServerState {
        self.state
    }

    /// The invariant of what the sessions share: that of the router and of
    /// the log.
    pub closed spec fn wf(&self) -> bool {
        self.router.wf() && self.wal.wf()
    }

    /// Whether `self` differs from `other` at most in the router and the
    /// log.
    pub open spec fn same_waits(&self, other: &ServerContext) -> bool {
        &&& self.subscribed() == other.subscribed()
        &&& self.orders() == other.orders()
        &&& self.syncs() == other.syncs()
        &&& self.queries() == other.queries()
        &&& self.spec_sync_gen() == other.spec_sync_gen()
        &&& self.spec_sync_ticket() == other.spec_sync_ticket()
        &&& self.spec_state() == other.spec_state()
    }

    /// What the sessions of a server share when it starts to play back its
    /// log: nobody has subscribed, and nothing is awaited.
    pub fn new(router: SingleRouter, wal: Wal) -> (r: Self)
        requires
            router.wf(),
            wal.wf(),
        ensures
            r.wf(),
            r.router() == router,
            r.log() == wal,
            r.subscribed() =~= Set::<u64>::empty(),
            r.orders() =~= Map::<u64, Option<ErrorCode>>::empty(),
            r.syncs() =~= Map::<u32, SyncWaitRecord>::empty(),
            r.queries() =~= Map::<u128, OpenOrdersContext>::empty(),
            r.spec_sync_gen() == 0,
            r.spec_sync_ticket() == 0,
            r.spec_state() == ServerState::Loading,
    {
        ServerContext {
            router,
            wal,
            sub_map: HashSet::new(),
            pending_orders: HashMap::new(),
            sync_gen: 0u32,
            sync_ticket: 0u32,
            pending_syncs: HashMap::new(),
            state: ServerState::Loading,
            pending_open_orders: HashMap::new(),
        }
    }

    pub fn state(&self) -> (r: ServerState)
        ensures
            r == self.spec_state(),
    {
        self.state
    }

    /// The log.
    pub fn wal(&self) -> (r: &Wal)
        ensures
            *r == self.log(),
    {
        &self.wal
    }

    /// The last barrier that all engines have answered.
    pub fn sync_gen(&self) -> (r: u32)
        ensures
            r == self.spec_sync_gen(),
    {
        self.sync_gen
    }

    /// The log has been played back: the server takes connections.
    pub fn set_running(&mut self)
        ensures
            final(self).spec_state() == ServerState::Running,
            final(self).router() == old(self).router(),
            final(self).log() == old(self).log(),
            final(self).subscribed() == old(self).subscribed(),
            final(self).orders() == old(self).orders(),
            final(self).syncs() == old(self).syncs(),
            final(self).queries() == old(self).queries(),
            final(self).spec_sync_gen() == old(self).spec_sync_gen(),
            final(self).spec_sync_ticket() == old(self).spec_sync_ticket(),
    {
        self.state = ServerState::Running;
    }

    /// Sets up a barrier: the next ticket, awaited from every engine, and
    /// the command that takes it to the engines. Nothing happens where the
    /// tickets have run out.
    pub fn serialization_point(&mut self) -> (r: Option<(SerializationPoint, EngineMessage)>)
        requires
            old(self).wf(),
        ensures
            final(self).wf(),
            final(self).router() == old(self).router(),
            final(self).log() == old(self).log(),
            final(self).subscribed() == old(self).subscribed(),
            final(self).orders() == old(self).orders(),
            final(self).queries() == old(self).queries(),
            final(self).spec_sync_gen() == old(self).spec_sync_gen(),
            final(self).spec_state() == old(self).spec_state(),
            r is Some <==> old(self).spec_sync_ticket() < u32::MAX,
            r is None ==> final(self).syncs() == old(self).syncs() && final(self).spec_sync_ticket() == old(self).spec_sync_ticket(),
            r matches Some((point, msg)) ==> {
                &&& point.target == old(self).spec_sync_ticket() + 1
                &&& msg == EngineMessage::SerializationMessage(point.target)
                &&& final(self).spec_sync_ticket() == point.target
                &&& final(self).syncs() == old(self).syncs().insert(
                    point.target,
                    (SyncWaitRecord { pending_count: old(self).router().engines() }),
                )
            },
    {
        broadcast use vstd::std_specs::hash::group_hash_axioms;

        if self.sync_ticket == u32::MAX {
            return None;
        }
        let ticket: u32 = self.sync_ticket + 1;
        self.sync_ticket = ticket;
        let engines: u32 = self.router.n_engine();
        self.pending_syncs.insert(ticket, SyncWaitRecord { pending_count: engines });
        Some((SerializationPoint { target: ticket }, EngineMessage::SerializationMessage(ticket)))
    }

    /// The acknowledgement of the new order with the identifier
    /// `order_id`, where it has come.
    pub fn order_status(&self, order_id: OrderId) -> (r: Option<ErrorCode>)
        ensures
            r == (if self.orders().contains_key(order_id.spec_raw()) {
                self.orders()[order_id.spec_raw()]
            } else {
                None
            }),
    {
        broadcast use vstd::std_specs::hash::group_hash_axioms;

        let key: u64 = order_id.raw();
        match self.pending_orders.get(&key) {
            Some(status) => *status,
            None => None,
        }
    }

    /// No longer awaits the acknowledgement of the new order with the
    /// identifier `order_id`.
    pub fn forget_order(&mut self, order_id: OrderId)
        ensures
            final(self).orders() == old(self).orders().remove(order_id.spec_raw()),
            final(self).router() == old(self).router(),
            final(self).log() == old(self).log(),
            final(self).subscribed() == old(self).subscribed(),
            final(self).syncs() == old(self).syncs(),
            final(self).queries() == old(self).queries(),
            final(self).spec_sync_gen() == old(self).spec_sync_gen(),
            final(self).spec_sync_ticket() == old(self).spec_sync_ticket(),
            final(self).spec_state() == old(self).spec_state(),
    {
        broadcast use vstd::std_specs::hash::group_hash_axioms;

        let key: u64 = order_id.raw();
        self.pending_orders.remove(&key);
    }

    /// Ends the subscription of `user` to executions.
    pub fn unsubscribe(&mut self, user: UserId)
        ensures
            final(self).subscribed() == old(self).subscribed().remove(user),
            final(self).router() == old(self).router(),
            final(self).log() == old(self).log(),
            final(self).orders() == old(self).orders(),
            final(self).syncs() == old(self).syncs(),
            final(self).queries() == old(self).queries(),
            final(self).spec_sync_gen() == old(self).spec_sync_gen(),
            final(self).spec_sync_ticket() == old(self).spec_sync_ticket(),
            final(self).spec_state() == old(self).spec_state(),
    {
        broadcast use vstd::std_specs::hash::group_hash_axioms;

        self.sub_map.remove(&user);
    }
}

impl ServerContext {
    /// Whether `self` differs from `other` at most in the answers that
    /// are awaited.
    pub open spec fn same_core(&self, other: &ServerContext) -> bool {
        &&& self.router() == other.router()
        &&& self.log() == other.log()
        &&& self.subscribed() == other.subscribed()
        &&& self.spec_sync_ticket() == other.spec_sync_ticket()
        &&& self.spec_state() == other.spec_state()
    }

    /// Whether `notes` tell the subscribed parties of the execution `e`:
    /// first the buyer, then the seller.
    pub open spec fn execution_notes(&self, e: Execution, notes: Seq<Notification>) -> bool {
        let buyer = self.subscribed().contains(e.buy_user);
        let seller = self.subscribed().contains(e.sell_user);
        &&& notes.len() == (if buyer {
            1int
        } else {
            0int
        }) + (if seller {
            1int
        } else {
            0int
        })
        &&& buyer ==> notes[0] == (Notification::Execution {
            user: e.buy_user,
            side: OrderSide::Buy,
            execution: e,
        })
        &&& seller ==> notes.last() == (Notification::Execution {
            user: e.sell_user,
            side: OrderSide::Sell,
            execution: e,
        })
    }

    /// What an answer of an engine comes to.
    ///
    /// While the server plays back its log, executions and
    /// acknowledgements are passed over. An execution is made known to
    /// those of its two parties who have subscribed. An acknowledgement
    /// that is awaited is kept for the session that awaits it. The answer
    /// to a barrier counts one engine off; with the last engine the
    /// barrier is passed. An answer to a query that is awaited adds its
    /// orders; with the last answer of the last engine the query is
    /// complete and no longer awaited.
    pub open spec fn noted(
        before: ServerContext,
        msg: SessionMessage,
        notes: Seq<Notification>,
        after: ServerContext,
    ) -> bool {
        &&& after.same_core(&before)
        &&& match msg {
            SessionMessage::Execution(e) => {
                &&& after.same_waits(&before)
                &&& if before.spec_state() == ServerState::Running {
                    before.execution_notes(e, notes)
                } else {
                    notes.len() == 0
                }
            },
            SessionMessage::NewOrderAck { order_id, status } => {
                &&& after.syncs() == before.syncs()
                &&& after.queries() == before.queries()
                &&& after.spec_sync_gen() == before.spec_sync_gen()
                &&& if before.spec_state() == ServerState::Running
                    && before.orders().contains_key(order_id.spec_raw()) {
                    &&& after.orders() == before.orders().insert(
                        order_id.spec_raw(),
                        Some(status),
                    )
                    &&& notes == seq![Notification::OrderAcked { order_id, status }]
                } else {
                    &&& after.orders() == before.orders()
                    &&& notes.len() == 0
                }
            },
            SessionMessage::SerializationResponse(gen) => {
                &&& after.orders() == before.orders()
                &&& after.queries() == before.queries()
                &&& if !before.syncs().contains_key(gen) {
                    &&& after.syncs() == before.syncs()
                    &&& after.spec_sync_gen() == before.spec_sync_gen()
                    &&& notes.len() == 0
                } else if before.syncs()[gen].pending_count > 1 {
                    &&& after.syncs() == before.syncs().insert(
                        gen,
                        (SyncWaitRecord {
                            pending_count: (before.syncs()[gen].pending_count - 1) as u32,
                        }),
                    )
                    &&& after.spec_sync_gen() == before.spec_sync_gen()
                    &&& notes.len() == 0
                } else {
                    &&& after.syncs() == before.syncs().remove(gen)
                    &&& after.spec_sync_gen() == (if gen > before.spec_sync_gen() {
                        gen
                    } else {
                        before.spec_sync_gen()
                    })
                    &&& notes == seq![Notification::Synced { ticket: gen }]
                }
            },
            SessionMessage::OpenOrdersResponse(answer) => {
                let key = spec_query_key(answer.seq);
                &&& after.orders() == before.orders()
                &&& after.syncs() == before.syncs()
                &&& after.spec_sync_gen() == before.spec_sync_gen()
                &&& if !before.queries().contains_key(key) {
                    &&& after.queries() == before.queries()
                    &&& notes.len() == 0
                } else {
                    let had = before.queries()[key];
                    let all = had.spec_orders() + OpenOrdersContext::carried(answer);
                    if answer.last_response && had.spec_in_flight() <= 1 {
                        &&& after.queries() == before.queries().remove(key)
                        &&& notes.len() == 1
                        &&& notes[0] matches Notification::OpenOrdersReady { seq, orders }
                        &&& seq == answer.seq
                        &&& orders@ == all
                    } else {
                        &&& after.queries().dom() == before.queries().dom()
                        &&& forall|k: u128|
                            before.queries().contains_key(k) && k != key
                                ==> #[trigger] after.queries()[k] == before.queries()[k]
                        &&& after.queries()[key].spec_orders() == all
                        &&& after.queries()[key].spec_in_flight() == (if answer.last_response {
                            had.spec_in_flight() - 1
                        } else {
                            had.spec_in_flight() as int
                        })
                        &&& notes.len() == 0
                    }
                }
            },
        }
    }

    /// Takes an answer of an engine, and says what it sets off.
    pub fn on_session_message(&mut self, msg: SessionMessage) -> (notes: Vec<Notification>)
        requires
            old(self).wf(),
        ensures
            final(self).wf(),
            Self::noted(*old(self), msg, notes@, *final(self)),
    {
        broadcast use vstd::std_specs::hash::group_hash_axioms;

        let mut notes: Vec<Notification> = Vec::new();
        let running: bool = match self.state {
            ServerState::Running => true,
            ServerState::Loading => false,
        };
        match msg {
            SessionMessage::Execution(execution) => {
                if running {
                    if self.sub_map.contains(&execution.buy_user) {
                        notes.push(
                            Notification::Execution {
                                user: execution.buy_user,
                                side: OrderSide::Buy,
                                execution,
                            },
                        );
                    }
                    if self.sub_map.contains(&execution.sell_user) {
                        notes.push(
                            Notification::Execution {
                                user: execution.sell_user,
                                side: OrderSide::Sell,
                                execution,
                            },
                        );
                    }
                }
            },
            SessionMessage::NewOrderAck { order_id, status } => {
                let key: u64 = order_id.raw();
                if running && self.pending_orders.contains_key(&key) {
                    self.pending_orders.insert(key, Some(status));
                    notes.push(Notification::OrderAcked { order_id, status });
                }
            },
            SessionMessage::SerializationResponse(gen) => {
                let waiting: Option<u32> = match self.pending_syncs.get(&gen) {
                    Some(record) => Some(record.pending_count),
                    None => None,
                };
                if let Some(count) = waiting {
                    if count > 1 {
                        self.pending_syncs.insert(gen, SyncWaitRecord { pending_count: count - 1 });
                    } else {
                        self.pending_syncs.remove(&gen);
                        if gen > self.sync_gen {
                            self.sync_gen = gen;
                        }
                        notes.push(Notification::Synced { ticket: gen });
                    }
                }
            },
            SessionMessage::OpenOrdersResponse(answer) => {
                let key: u128 = query_key(answer.seq);
                let found: Option<OpenOrdersContext> = self.pending_open_orders.remove(&key);
                assert(self.pending_open_orders@ =~= old(self).pending_open_orders@.remove(key));
                proof {
                    if found is None {
                        assert(self.pending_open_orders@ =~= old(self).pending_open_orders@);
                    }
                }
                if let Some(mut waiter) = found {
                    let ghost had = waiter;
                    assert(had == old(self).pending_open_orders@[key]);
                    let done: bool = waiter.recv(&answer);
                    if done && answer.last_response {
                        notes.push(
                            Notification::OpenOrdersReady {
                                seq: answer.seq,
                                orders: waiter.orders,
                            },
                        );
                    } else {
                        self.pending_open_orders.insert(key, waiter);
                        assert(self.pending_open_orders@.dom() =~= old(
                            self,
                        ).pending_open_orders@.dom());
                    }
                }
            },
        }
        notes
    }
}

/// The code of an answer to a client who signs in.
#[derive(Clone, Copy, Debug, PartialEq, Eq, Structural)]
pub enum AuthCode {
    Success,
}

/// The engines that a command goes to.
#[derive(Clone, Copy, Debug, PartialEq, Eq, Structural)]
pub enum Target {
    Engine(u32),
    All,
}

/// What follows once a command has gone to the engines.
#[derive(Clone, Copy, Debug, PartialEq, Eq, Structural)]
pub enum Then {
    /// The client is answered with the code.
    Reply(ReplyCode),
    /// The client is answered when the acknowledgement of the order has
    /// come.
    AwaitAck(OrderId),
    /// The client is answered when the query is complete.
    AwaitOrders(OpenOrdersSequence),
}

/// What a call of a client comes to.
#[derive(Clone, Copy, Debug)]
pub enum SessionOutcome {
    /// The client is answered with `code` and no command goes out. Where
    /// the log failed, `wal` says how.
    Reply { code: ReplyCode, wal: Option<WalError> },
    /// `command` goes to the engines `to`; what the log did with it is in
    /// `write`, where it is a command that the log takes.
    Send { command: EngineMessage, write: Option<WalWrite>, to: Target, then: Then },
}

/// The session of one client.
pub struct Session {
    user: UserId,
    authenticated: bool,
    open_order_seq: u32,
}

impl Session {
    pub closed spec fn spec_user(&self) -> UserId {
        self.user
    }

    pub closed spec fn spec_authenticated(&self) -> bool {
        self.authenticated
    }

    /// The count of the client's next open-orders query.
    pub closed spec fn spec_open_order_seq(&self) -> u32 {
        self.open_order_seq
    }

    /// The session of a client who has not signed in.
    pub fn new() -> (r: Self)
        ensures
            r.spec_user() == 0,
            !r.spec_authenticated(),
            r.spec_open_order_seq() == 0,
    {
        Session { user: 0u64, authenticated: false, open_order_seq: 0u32 }
    }

    pub fn user(&self) -> (r: UserId)
        ensures
            r == self.spec_user(),
    {
        self.user
    }

    pub fn is_authenticated(&self) -> (r: bool)
        ensures
            r == self.spec_authenticated(),
    {
        self.authenticated
    }

    /// Signs the client in as `user`.
    pub fn authenticate(&mut self, user: UserId) -> (r: AuthCode)
        ensures
            r == AuthCode::Success,
            final(self).spec_user() == user,
            final(self).spec_authenticated(),
            final(self).spec_open_order_seq() == old(self).spec_open_order_seq(),
    {
        self.user = user;
        self.authenticated = true;
        AuthCode::Success
    }

    /// What a new order of the client comes to.
    ///
    /// A client who has not signed in is turned away, and nothing changes.
    /// Otherwise the router hands out the order's identifier, the log takes
    /// the command, and the command goes to the engine of the symbol; the
    /// acknowledgement is awaited under the identifier. A symbol that the
    /// venue does not have makes invalid arguments; a failure of the log
    /// ends the call with `Other`.
    pub open spec fn ordered(
        &self,
        before: ServerContext,
        symbol: Symbol,
        side: OrderSide,
        price: Price,
        quantity: Quantity,
        r: SessionOutcome,
        after: ServerContext,
    ) -> bool {
        &&& after.subscribed() == before.subscribed()
        &&& after.syncs() == before.syncs()
        &&& after.queries() == before.queries()
        &&& after.spec_sync_gen() == before.spec_sync_gen()
        &&& after.spec_sync_ticket() == before.spec_sync_ticket()
        &&& after.spec_state() == before.spec_state()
        &&& match r {
            SessionOutcome::Reply { code, wal } => {
                &&& after.orders() == before.orders()
                &&& code == ReplyCode::NotAuthenticated <==> !self.spec_authenticated()
                &&& match code {
                    ReplyCode::NotAuthenticated => {
                        &&& wal is None
                        &&& after.router() == before.router()
                        &&& after.log() == before.log()
                    },
                    ReplyCode::InvalidArgs => {
                        &&& wal is None
                        &&& after.log() == before.log()
                        &&& exists|e: RouterError| #[trigger]
                            SingleRouter::created(
                                before.router(),
                                symbol,
                                side,
                                Err::<OrderId, RouterError>(e),
                                after.router(),
                            )
                    },
                    ReplyCode::Other => {
                        &&& wal matches Some(e)
                        &&& exists|id: OrderId| #[trigger]
                            SingleRouter::created(
                                before.router(),
                                symbol,
                                side,
                                Ok::<OrderId, RouterError>(id),
                                after.router(),
                            ) && Wal::written(
                                before.log(),
                                EngineMessage::NewOrder(
                                    NewOrderMessage {
                                        user: self.spec_user(),
                                        order_id: id,
                                        symbol,
                                        side,
                                        price,
                                        quantity,
                                    },
                                ),
                                Err::<WalWrite, WalError>(e),
                                after.log(),
                            )
                    },
                    _ => false,
                }
            },
            SessionOutcome::Send { command, write, to, then } => {
                &&& self.spec_authenticated()
                &&& command matches EngineMessage::NewOrder(n)
                &&& n == (NewOrderMessage {
                    user: self.spec_user(),
                    order_id: n.order_id,
                    symbol,
                    side,
                    price,
                    quantity,
                })
                &&& SingleRouter::created(
                    before.router(),
                    symbol,
                    side,
                    Ok::<OrderId, RouterError>(n.order_id),
                    after.router(),
                )
                &&& write matches Some(w)
                &&& Wal::written(before.log(), command, Ok::<WalWrite, WalError>(w), after.log())
                &&& to == Target::Engine(0)
                &&& then == Then::AwaitAck(n.order_id)
                &&& after.orders() == before.orders().insert(
                    n.order_id.spec_raw(),
                    None::<ErrorCode>,
                )
            },
        }
    }

    /// Takes a new order of the client.
    pub fn new_order(
        &self,
        context: &mut ServerContext,
        symbol: Symbol,
        side: OrderSide,
        price: Price,
        quantity: Quantity,
    ) -> (r: SessionOutcome)
        requires
            old(context).wf(),
        ensures
            final(context).wf(),
            self.ordered(*old(context), symbol, side, price, quantity, r, *final(context)),
    {
        broadcast use vstd::std_specs::hash::group_hash_axioms;

        if !self.authenticated {
            return SessionOutcome::Reply { code: ReplyCode::NotAuthenticated, wal: None };
        }
        let order_id: OrderId = match context.router.create_order_id(&symbol, &side) {
            Ok(id) => id,
            Err(e) => {
                assert(SingleRouter::created(
                    old(context).router(),
                    symbol,
                    side,
                    Err::<OrderId, RouterError>(e),
                    context.router(),
                ));
                return SessionOutcome::Reply { code: ReplyCode::InvalidArgs, wal: None };
            },
        };
        let msg = EngineMessage::NewOrder(
            NewOrderMessage { user: self.user, order_id, symbol, side, price, quantity },
        );
        let write: WalWrite = match context.wal.write_entry(&msg) {
            Ok(w) => w,
            Err(e) => {
                assert(SingleRouter::created(
                    old(context).router(),
                    symbol,
                    side,
                    Ok::<OrderId, RouterError>(order_id),
                    context.router(),
                ));
                return SessionOutcome::Reply { code: ReplyCode::Other, wal: Some(e) };
            },
        };
        let engine: u32 = context.router.route_order(&msg);
        context.pending_orders.insert(order_id.raw(), None);
        SessionOutcome::Send {
            command: msg,
            write: Some(write),
            to: Target::Engine(engine),
            then: Then::AwaitAck(order_id),
        }
    }

    /// What a cancel of the client comes to.
    ///
    /// A client who has not signed in is turned away. A number that is no
    /// order identifier, or that names a symbol which the venue does not
    /// have, makes invalid arguments. Otherwise the log takes the command,
    /// the command goes to the engine, and the client is answered at once.
    pub open spec fn cancelled(
        &self,
        before: ServerContext,
        raw_order_id: u64,
        r: SessionOutcome,
        after: ServerContext,
    ) -> bool {
        &&& after.same_waits(&before)
        &&& after.router() == before.router()
        &&& if !self.spec_authenticated() {
            &&& r == (SessionOutcome::Reply { code: ReplyCode::NotAuthenticated, wal: None })
            &&& after.log() == before.log()
        } else if !crate::order::trade_types::raw_is_order(raw_order_id)
            || crate::order::trade_types::raw_symbol_id(raw_order_id)
            >= before.router().spec_symbols().len() {
            &&& r == (SessionOutcome::Reply { code: ReplyCode::InvalidArgs, wal: None })
            &&& after.log() == before.log()
        } else {
            match r {
                SessionOutcome::Reply { code, wal } => {
                    &&& code == ReplyCode::Other
                    &&& wal matches Some(e)
                    &&& exists|id: OrderId| #[trigger]
                        id.spec_raw() == raw_order_id && Wal::written(
                            before.log(),
                            EngineMessage::CancelOrder(
                                CancelOrderMessage { user: self.spec_user(), order_id: id },
                            ),
                            Err::<WalWrite, WalError>(e),
                            after.log(),
                        )
                },
                SessionOutcome::Send { command, write, to, then } => {
                    &&& command matches EngineMessage::CancelOrder(c)
                    &&& c.user == self.spec_user()
                    &&& c.order_id.spec_raw() == raw_order_id
                    &&& write matches Some(w)
                    &&& Wal::written(
                        before.log(),
                        command,
                        Ok::<WalWrite, WalError>(w),
                        after.log(),
                    )
                    &&& to == Target::Engine(0)
                    &&& then == Then::Reply(ReplyCode::Success)
                },
            }
        }
    }

    /// Takes a cancel of the client for the order with the identifier
    /// number `raw_order_id`.
    pub fn cancel_order(&self, context: &mut ServerContext, raw_order_id: u64) -> (r:
        SessionOutcome)
        requires
            old(context).wf(),
        ensures
            final(context).wf(),
            self.cancelled(*old(context), raw_order_id, r, *final(context)),
    {
        if !self.authenticated {
            return SessionOutcome::Reply { code: ReplyCode::NotAuthenticated, wal: None };
        }
        let order_id: OrderId = match OrderId::from_raw(raw_order_id) {
            Ok(id) => id,
            Err(_) => {
                return SessionOutcome::Reply { code: ReplyCode::InvalidArgs, wal: None };
            },
        };
        if order_id.symbol_id() as usize >= context.router.n_symbols() {
            return SessionOutcome::Reply { code: ReplyCode::InvalidArgs, wal: None };
        }
        let msg = EngineMessage::CancelOrder(CancelOrderMessage { user: self.user, order_id });
        let write: WalWrite = match context.wal.write_entry(&msg) {
            Ok(w) => w,
            Err(e) => {
                assert(order_id.spec_raw() == raw_order_id);
                return SessionOutcome::Reply { code: ReplyCode::Other, wal: Some(e) };
            },
        };
        let engine: u32 = context.router.route_order(&msg);
        SessionOutcome::Send {
            command: msg,
            write: Some(write),
            to: Target::Engine(engine),
            then: Then::Reply(ReplyCode::Success),
        }
    }

    /// Takes an open-orders query of the client: a client who has not
    /// signed in is turned away; otherwise the query gets the client's next
    /// count, goes to every engine, and is awaited from each.
    pub fn get_open_orders(&mut self, context: &mut ServerContext) -> (r: SessionOutcome)
        requires
            old(context).wf(),
        ensures
            final(context).wf(),
            final(self).spec_user() == old(self).spec_user(),
            final(self).spec_authenticated() == old(self).spec_authenticated(),
            final(context).same_core(old(context)),
            final(context).orders() == old(context).orders(),
            final(context).syncs() == old(context).syncs(),
            final(context).spec_sync_gen() == old(context).spec_sync_gen(),
            if !old(self).spec_authenticated() {
                &&& r == (SessionOutcome::Reply { code: ReplyCode::NotAuthenticated, wal: None })
                &&& final(self).spec_open_order_seq() == old(self).spec_open_order_seq()
                &&& final(context).queries() == old(context).queries()
            } else {
                let seq = OpenOrdersSequence {
                    user: old(self).spec_user(),
                    seq: old(self).spec_open_order_seq(),
                };
                &&& r == (SessionOutcome::Send {
                    command: EngineMessage::GetOpenOrdersMessaage(seq),
                    write: None,
                    to: Target::All,
                    then: Then::AwaitOrders(seq),
                })
                &&& final(self).spec_open_order_seq() == (if old(self).spec_open_order_seq()
                    == u32::MAX {
                    0u32
                } else {
                    (old(self).spec_open_order_seq() + 1) as u32
                })
                &&& final(context).queries().dom() == old(context).queries().dom().insert(
                    spec_query_key(seq),
                )
                &&& forall|k: u128|
                    old(context).queries().contains_key(k) && k != spec_query_key(seq)
                        ==> #[trigger] final(context).queries()[k] == old(context).queries()[k]
                &&& final(context).queries()[spec_query_key(seq)].spec_in_flight() == old(
                    context,
                ).router().engines()
                &&& final(context).queries()[spec_query_key(seq)].spec_orders() =~= Seq::<
                    Order,
                >::empty()
            },
    {
        broadcast use vstd::std_specs::hash::group_hash_axioms;

        if !self.authenticated {
            return SessionOutcome::Reply { code: ReplyCode::NotAuthenticated, wal: None };
        }
        let seq = OpenOrdersSequence { user: self.user, seq: self.open_order_seq };
        self.open_order_seq = if self.open_order_seq == u32::MAX {
            0
        } else {
            self.open_order_seq + 1
        };
        let msg = EngineMessage::GetOpenOrdersMessaage(seq);
        let engines: u32 = context.router.n_engine();
        context.pending_open_orders.insert(query_key(seq), OpenOrdersContext::new(engines as usize));
        SessionOutcome::Send {
            command: msg,
            write: None,
            to: Target::All,
            then: Then::AwaitOrders(seq),
        }
    }

    /// Subscribes the client to the executions of its user: a client who
    /// has not signed in is turned away, and so is one whose user has
    /// subscribed already.
    pub fn execution_subscribe(&self, context: &mut ServerContext) -> (r: ReplyCode)
        requires
            old(context).wf(),
        ensures
            final(context).wf(),
            final(context).router() == old(context).router(),
            final(context).log() == old(context).log(),
            final(context).orders() == old(context).orders(),
            final(context).syncs() == old(context).syncs(),
            final(context).queries() == old(context).queries(),
            final(context).spec_sync_gen() == old(context).spec_sync_gen(),
            final(context).spec_sync_ticket() == old(context).spec_sync_ticket(),
            final(context).spec_state() == old(context).spec_state(),
            r == (if !self.spec_authenticated() {
                ReplyCode::NotAuthenticated
            } else if old(context).subscribed().contains(self.spec_user()) {
                ReplyCode::AlreadySubscribed
            } else {
                ReplyCode::Success
            }),
            final(context).subscribed() == (if r == ReplyCode::Success {
                old(context).subscribed().insert(self.spec_user())
            } else {
                old(context).subscribed()
            }),
    {
        broadcast use vstd::std_specs::hash::group_hash_axioms;

        if !self.authenticated {
            return ReplyCode::NotAuthenticated;
        }
        if context.sub_map.contains(&self.user) {
            return ReplyCode::AlreadySubscribed;
        }
        context.sub_map.insert(self.user);
        ReplyCode::Success
    }
}

} // verus!
