use libcix::messages::{EngineMessage, OpenOrders, OpenOrdersSequence, SessionMessage};
use libcix::order::trade_types::{
    ErrorCode, Execution, ExecutionId, Order, OrderId, OrderSide, OrderTime, Symbol,
};
use libcix::router::{SingleRouter, SymbolLookup};
use libcix::session::{
    query_key, reply_of, AuthCode, Notification, OpenOrdersContext, ReplyCode,
    SerializationPoint, ServerContext, ServerState, Session, SessionOutcome, Target, Then,
    WaitEvent,
};
use libcix::wal::{Wal, WalError, WalWrite};

fn sym(name: &str) -> Symbol {
    Symbol::from_str(name).unwrap()
}

fn context(segment: usize) -> ServerContext {
    let lookup = SymbolLookup::new(&vec![sym("AAPL"), sym("FB"), sym("GOOG")]).unwrap();
    let (wal, _) = Wal::new(Vec::new(), None, segment).unwrap();
    ServerContext::new(SingleRouter::new(lookup), wal)
}

fn signed_in(user: u64) -> Session {
    let mut s = Session::new();
    assert_eq!(s.authenticate(user), AuthCode::Success);
    s
}

fn execution(buy_user: u64, sell_user: u64) -> Execution {
    Execution {
        id: ExecutionId::new(2, 0).unwrap(),
        ts: OrderTime { sec: 1, nsec: 2 },
        buy_order: OrderId::new(2, OrderSide::Buy, 1).unwrap(),
        buy_user,
        sell_order: OrderId::new(2, OrderSide::Sell, 2).unwrap(),
        sell_user,
        symbol: sym("GOOG"),
        price: 500,
        quantity: 10,
    }
}

fn answer(seq: OpenOrdersSequence, prices: &[u64], last: bool) -> OpenOrders {
    let mut r = OpenOrders::new(seq);
    for p in prices {
        let mut o = Order::default_at(OrderTime { sec: 0, nsec: 0 });
        o.price = *p;
        r.push(o);
    }
    r.last_response = last;
    r
}

#[test]
fn calls_before_signing_in_are_turned_away() {
    let mut ctx = context(1024);
    let mut s = Session::new();
    assert!(!s.is_authenticated());
    assert!(matches!(
        s.new_order(&mut ctx, sym("GOOG"), OrderSide::Buy, 1, 1),
        SessionOutcome::Reply { code: ReplyCode::NotAuthenticated, wal: None }
    ));
    assert!(matches!(
        s.cancel_order(&mut ctx, 0),
        SessionOutcome::Reply { code: ReplyCode::NotAuthenticated, wal: None }
    ));
    assert!(matches!(
        s.get_open_orders(&mut ctx),
        SessionOutcome::Reply { code: ReplyCode::NotAuthenticated, wal: None }
    ));
    assert_eq!(s.execution_subscribe(&mut ctx), ReplyCode::NotAuthenticated);
    let first = signed_in(1).new_order(&mut ctx, sym("GOOG"), OrderSide::Buy, 1, 1);
    match first {
        SessionOutcome::Send { command: EngineMessage::NewOrder(n), write, .. } => {
            assert_eq!(n.order_id.sequence(), 0);
            assert_eq!(write, Some(WalWrite { rotated_to: None, offset: 0, len: 44 }));
        }
        other => panic!("unexpected outcome {:?}", other),
    }
}

#[test]
fn new_order_is_logged_routed_and_awaited() {
    let mut ctx = context(100);
    ctx.set_running();
    let s = signed_in(42);
    assert_eq!(s.user(), 42);
    let out = s.new_order(&mut ctx, sym("FB"), OrderSide::Sell, 77, 5);
    let id = match out {
        SessionOutcome::Send { command: EngineMessage::NewOrder(n), write, to, then } => {
            assert_eq!((n.user, n.symbol, n.side, n.price, n.quantity), (42, sym("FB"), OrderSide::Sell, 77, 5));
            assert_eq!((n.order_id.symbol_id(), n.order_id.side(), n.order_id.sequence()), (1, OrderSide::Sell, 0));
            assert_eq!(write, Some(WalWrite { rotated_to: None, offset: 0, len: 44 }));
            assert_eq!(to, Target::Engine(0));
            assert_eq!(then, Then::AwaitAck(n.order_id));
            n.order_id
        }
        other => panic!("unexpected outcome {:?}", other),
    };
    assert_eq!(ctx.order_status(id), None);
    let notes = ctx.on_session_message(SessionMessage::NewOrderAck { order_id: id, status: ErrorCode::DuplicateId });
    assert!(matches!(
        notes.as_slice(),
        [Notification::OrderAcked { order_id, status: ErrorCode::DuplicateId }] if *order_id == id
    ));
    assert_eq!(ctx.order_status(id), Some(ErrorCode::DuplicateId));
    assert_eq!(reply_of(ErrorCode::DuplicateId), ReplyCode::DuplicateId);
    assert_eq!(reply_of(ErrorCode::Success), ReplyCode::Success);
    assert_eq!(reply_of(ErrorCode::Other), ReplyCode::Other);
    ctx.forget_order(id);
    assert_eq!(ctx.order_status(id), None);
    let notes = ctx.on_session_message(SessionMessage::NewOrderAck { order_id: id, status: ErrorCode::Success });
    assert!(notes.is_empty());
    let second = s.new_order(&mut ctx, sym("FB"), OrderSide::Buy, 70, 5);
    match second {
        SessionOutcome::Send { command: EngineMessage::NewOrder(n), write, .. } => {
            assert_eq!(n.order_id.sequence(), 1);
            assert_eq!(write, Some(WalWrite { rotated_to: None, offset: 44, len: 44 }));
        }
        other => panic!("unexpected outcome {:?}", other),
    }
    let third = s.new_order(&mut ctx, sym("FB"), OrderSide::Buy, 70, 5);
    match third {
        SessionOutcome::Send { write, .. } => {
            assert_eq!(write, Some(WalWrite { rotated_to: Some(1), offset: 0, len: 44 }));
        }
        other => panic!("unexpected outcome {:?}", other),
    }
}

#[test]
fn unknown_symbol_makes_invalid_arguments() {
    let mut ctx = context(100);
    let s = signed_in(1);
    assert!(matches!(
        s.new_order(&mut ctx, sym("MSFT"), OrderSide::Buy, 1, 1),
        SessionOutcome::Reply { code: ReplyCode::InvalidArgs, wal: None }
    ));
}

#[test]
fn failure_of_the_log_ends_the_call() {
    let mut ctx = context(30);
    let s = signed_in(1);
    assert!(matches!(
        s.new_order(&mut ctx, sym("GOOG"), OrderSide::Buy, 1, 1),
        SessionOutcome::Reply {
            code: ReplyCode::Other,
            wal: Some(WalError::RecordTooLarge { rotated_to: 1 })
        }
    ));
    let id = OrderId::new(2, OrderSide::Buy, 0).unwrap();
    assert!(matches!(s.cancel_order(&mut ctx, id.raw()), SessionOutcome::Send { .. }));
}

#[test]
fn cancel_checks_its_arguments() {
    let mut ctx = context(100);
    let s = signed_in(9);
    let execution = ExecutionId::new(0, 1).unwrap();
    assert!(matches!(
        s.cancel_order(&mut ctx, execution.raw()),
        SessionOutcome::Reply { code: ReplyCode::InvalidArgs, wal: None }
    ));
    let beyond = OrderId::new(3, OrderSide::Buy, 0).unwrap();
    assert!(matches!(
        s.cancel_order(&mut ctx, beyond.raw()),
        SessionOutcome::Reply { code: ReplyCode::InvalidArgs, wal: None }
    ));
    let last = OrderId::new(2, OrderSide::Sell, 5).unwrap();
    match s.cancel_order(&mut ctx, last.raw()) {
        SessionOutcome::Send { command: EngineMessage::CancelOrder(c), write, to, then } => {
            assert_eq!((c.user, c.order_id), (9, last));
            assert_eq!(write, Some(WalWrite { rotated_to: None, offset: 0, len: 20 }));
            assert_eq!(to, Target::Engine(0));
            assert_eq!(then, Then::Reply(ReplyCode::Success));
        }
        other => panic!("unexpected outcome {:?}", other),
    }
}

#[test]
fn subscription_is_taken_once_per_user() {
    let mut ctx = context(100);
    ctx.set_running();
    let s = signed_in(5);
    assert_eq!(s.execution_subscribe(&mut ctx), ReplyCode::Success);
    assert_eq!(s.execution_subscribe(&mut ctx), ReplyCode::AlreadySubscribed);
    assert_eq!(signed_in(5).execution_subscribe(&mut ctx), ReplyCode::AlreadySubscribed);
    assert_eq!(signed_in(6).execution_subscribe(&mut ctx), ReplyCode::Success);
    let notes = ctx.on_session_message(SessionMessage::Execution(execution(5, 6)));
    assert!(matches!(
        notes.as_slice(),
        [
            Notification::Execution { user: 5, side: OrderSide::Buy, .. },
            Notification::Execution { user: 6, side: OrderSide::Sell, .. }
        ]
    ));
    let notes = ctx.on_session_message(SessionMessage::Execution(execution(7, 5)));
    assert!(matches!(
        notes.as_slice(),
        [Notification::Execution { user: 5, side: OrderSide::Sell, .. }]
    ));
    assert!(ctx.on_session_message(SessionMessage::Execution(execution(7, 8))).is_empty());
    ctx.unsubscribe(5);
    assert!(ctx.on_session_message(SessionMessage::Execution(execution(5, 7))).is_empty());
    assert_eq!(s.execution_subscribe(&mut ctx), ReplyCode::Success);
}

#[test]
fn answers_are_passed_over_while_the_log_is_played_back() {
    let mut ctx = context(100);
    assert_eq!(ctx.state(), ServerState::Loading);
    let s = signed_in(5);
    s.execution_subscribe(&mut ctx);
    let id = match s.new_order(&mut ctx, sym("GOOG"), OrderSide::Buy, 1, 1) {
        SessionOutcome::Send { then: Then::AwaitAck(id), .. } => id,
        other => panic!("unexpected outcome {:?}", other),
    };
    assert!(ctx.on_session_message(SessionMessage::Execution(execution(5, 5))).is_empty());
    assert!(ctx
        .on_session_message(SessionMessage::NewOrderAck { order_id: id, status: ErrorCode::Success })
        .is_empty());
    assert_eq!(ctx.order_status(id), None);
    ctx.set_running();
    assert_eq!(ctx.state(), ServerState::Running);
    assert_eq!(ctx.on_session_message(SessionMessage::Execution(execution(5, 5))).len(), 2);
}

#[test]
fn barrier_is_passed_when_every_engine_has_answered() {
    let mut ctx = context(100);
    let (point, msg) = ctx.serialization_point().unwrap();
    assert_eq!(point, SerializationPoint { target: 1 });
    assert!(matches!(msg, EngineMessage::SerializationMessage(1)));
    assert!(!point.poll(ctx.sync_gen()));
    assert!(ctx.on_session_message(SessionMessage::SerializationResponse(2)).is_empty());
    assert_eq!(ctx.sync_gen(), 0);
    let notes = ctx.on_session_message(SessionMessage::SerializationResponse(1));
    assert!(matches!(notes.as_slice(), [Notification::Synced { ticket: 1 }]));
    assert_eq!(ctx.sync_gen(), 1);
    assert!(point.poll(ctx.sync_gen()));
    assert!(ctx.on_session_message(SessionMessage::SerializationResponse(1)).is_empty());
    let (second, _) = ctx.serialization_point().unwrap();
    assert_eq!(second.target, 2);
    assert!(!second.poll(ctx.sync_gen()));
}

#[test]
fn open_orders_are_joined_until_the_last_answer() {
    let mut ctx = context(100);
    let mut s = signed_in(3);
    let seq = match s.get_open_orders(&mut ctx) {
        SessionOutcome::Send {
            command: EngineMessage::GetOpenOrdersMessaage(q),
            write: None,
            to: Target::All,
            then: Then::AwaitOrders(w),
        } => {
            assert_eq!(q, w);
            q
        }
        other => panic!("unexpected outcome {:?}", other),
    };
    assert_eq!(seq, OpenOrdersSequence { user: 3, seq: 0 });
    assert_eq!(query_key(seq), (3u128 << 32) | 0);
    let stranger = OpenOrdersSequence { user: 4, seq: 0 };
    assert!(ctx
        .on_session_message(SessionMessage::OpenOrdersResponse(answer(stranger, &[1], true)))
        .is_empty());
    let full: Vec<u64> = (1..=10).collect();
    assert!(ctx
        .on_session_message(SessionMessage::OpenOrdersResponse(answer(seq, &full, false)))
        .is_empty());
    let notes = ctx.on_session_message(SessionMessage::OpenOrdersResponse(answer(seq, &[11, 12], true)));
    match notes.as_slice() {
        [Notification::OpenOrdersReady { seq: got, orders }] => {
            assert_eq!(*got, seq);
            let prices: Vec<u64> = orders.iter().map(|o| o.price).collect();
            assert_eq!(prices, (1..=12).collect::<Vec<u64>>());
        }
        other => panic!("unexpected notes {:?}", other),
    }
    assert!(ctx
        .on_session_message(SessionMessage::OpenOrdersResponse(answer(seq, &[13], true)))
        .is_empty());
    match s.get_open_orders(&mut ctx) {
        SessionOutcome::Send { then: Then::AwaitOrders(next), .. } => {
            assert_eq!(next, OpenOrdersSequence { user: 3, seq: 1 });
        }
        other => panic!("unexpected outcome {:?}", other),
    }
}

#[test]
fn open_orders_wait_counts_the_engines() {
    let seq = OpenOrdersSequence { user: 1, seq: 1 };
    let mut wait = OpenOrdersContext::new(2);
    assert!(!wait.recv(&answer(seq, &[5], false)));
    assert!(!wait.recv(&answer(seq, &[6], true)));
    assert_eq!(wait.in_flight(), 1);
    assert!(wait.recv(&answer(seq, &[], true)));
    assert_eq!(wait.in_flight(), 0);
    let prices: Vec<u64> = wait.orders().iter().map(|o| o.price).collect();
    assert_eq!(prices, vec![5, 6]);
}

#[test]
fn wait_event_keeps_what_has_come() {
    let mut w: WaitEvent<ErrorCode> = WaitEvent::new();
    assert!(w.status.is_none());
    w.ack(ErrorCode::Other);
    assert_eq!(w.status, Some(ErrorCode::Other));
}
