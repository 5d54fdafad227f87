use libcix::engine::{chunk_open_orders, EngineError, EngineEvent, OrderEngine};
use libcix::messages::{
    CancelOrderMessage, EngineMessage, MdMessage, NewOrderMessage, OpenOrdersSequence,
    SessionMessage,
};
use libcix::order::trade_types::{
    ErrorCode, MdEntry, Order, OrderId, OrderSide, OrderTime, Symbol,
};

fn sym(name: &str) -> Symbol {
    Symbol::from_str(name).unwrap()
}

fn engine() -> OrderEngine {
    OrderEngine::new(vec![sym("AAPL"), sym("FB"), sym("GOOG")]).unwrap()
}

fn at(sec: i64) -> OrderTime {
    OrderTime { sec, nsec: 0 }
}

fn order(user: u64, symbol_id: u32, symbol: &str, side: OrderSide, price: u64, quantity: u32, seq: u64) -> NewOrderMessage {
    NewOrderMessage {
        user,
        order_id: OrderId::new(symbol_id, side, seq).unwrap(),
        symbol: sym(symbol),
        side,
        price,
        quantity,
    }
}

fn acks(events: &Vec<EngineEvent>) -> Vec<(OrderId, ErrorCode)> {
    events
        .iter()
        .filter_map(|e| match e {
            EngineEvent::Session(SessionMessage::NewOrderAck { order_id, status }) => {
                Some((*order_id, *status))
            }
            _ => None,
        })
        .collect()
}

fn open_orders(e: &mut OrderEngine, user: u64) -> Vec<(u32, bool, Vec<u64>)> {
    let seq = OpenOrdersSequence { user, seq: 4 };
    let events = e.process_message_at(EngineMessage::GetOpenOrdersMessaage(seq), at(0)).unwrap();
    events
        .iter()
        .map(|ev| match ev {
            EngineEvent::Session(SessionMessage::OpenOrdersResponse(r)) => {
                assert_eq!(r.seq, seq);
                let prices = r.orders[..r.n_order as usize].iter().map(|o| o.price).collect();
                (r.n_order, r.last_response, prices)
            }
            other => panic!("unexpected event {:?}", other),
        })
        .collect()
}

#[test]
fn engine_turns_down_symbols_that_occur_twice() {
    assert_eq!(
        OrderEngine::new(vec![sym("A"), sym("B"), sym("A")]).err(),
        Some(EngineError::DuplicateSymbol)
    );
    assert!(OrderEngine::new(Vec::new()).is_ok());
}

#[test]
fn new_order_is_acknowledged_after_its_executions() {
    let mut e = engine();
    let sell = order(1, 2, "GOOG", OrderSide::Sell, 500, 1000, 0);
    let events = e.process_message_at(EngineMessage::NewOrder(sell), at(1)).unwrap();
    assert_eq!(events.len(), 1);
    assert_eq!(acks(&events), vec![(sell.order_id, ErrorCode::Success)]);
    let buy = order(2, 2, "GOOG", OrderSide::Buy, 510, 400, 1);
    let events = e.process_message_at(EngineMessage::NewOrder(buy), at(2)).unwrap();
    assert_eq!(events.len(), 3);
    match &events[0] {
        EngineEvent::Session(SessionMessage::Execution(x)) => {
            assert_eq!((x.price, x.quantity), (500, 400));
            assert_eq!((x.buy_user, x.sell_user), (2, 1));
            assert_eq!((x.buy_order, x.sell_order), (buy.order_id, sell.order_id));
            assert_eq!(x.symbol, sym("GOOG"));
            assert_eq!(x.ts, at(2));
            assert_eq!((x.id.symbol_id(), x.id.sequence()), (2, 0));
        }
        other => panic!("unexpected event {:?}", other),
    }
    match &events[1] {
        EngineEvent::MarketData(MdMessage::Execution(x)) => {
            assert_eq!((x.price, x.quantity, x.symbol, x.ts), (500, 400, sym("GOOG"), at(2)));
        }
        other => panic!("unexpected event {:?}", other),
    }
    assert_eq!(acks(&events), vec![(buy.order_id, ErrorCode::Success)]);
}

#[test]
fn duplicate_order_id_is_acknowledged_as_such() {
    let mut e = engine();
    let first = order(1, 0, "AAPL", OrderSide::Buy, 100, 10, 0);
    e.process_message_at(EngineMessage::NewOrder(first), at(1)).unwrap();
    let mut again = first;
    again.price = 90;
    let events = e.process_message_at(EngineMessage::NewOrder(again), at(2)).unwrap();
    assert_eq!(acks(&events), vec![(first.order_id, ErrorCode::DuplicateId)]);
    assert_eq!(events.len(), 1);
    assert_eq!(open_orders(&mut e, 1), vec![(1, true, vec![100])]);
}

#[test]
fn malformed_new_orders_are_turned_down() {
    let mut e = engine();
    let unknown = order(1, 0, "MSFT", OrderSide::Buy, 100, 10, 0);
    assert_eq!(
        e.process_message_at(EngineMessage::NewOrder(unknown), at(1)).err(),
        Some(EngineError::UnknownSymbol)
    );
    let wrong_symbol_id = order(1, 1, "AAPL", OrderSide::Buy, 100, 10, 0);
    assert_eq!(
        e.process_message_at(EngineMessage::NewOrder(wrong_symbol_id), at(1)).err(),
        Some(EngineError::InvalidOrder)
    );
    let mut wrong_side = order(1, 0, "AAPL", OrderSide::Buy, 100, 10, 0);
    wrong_side.side = OrderSide::Sell;
    assert_eq!(
        e.process_message_at(EngineMessage::NewOrder(wrong_side), at(1)).err(),
        Some(EngineError::InvalidOrder)
    );
    assert_eq!(
        e.process_message_at(EngineMessage::NullMessage, at(1)).err(),
        Some(EngineError::NullMessage)
    );
    assert_eq!(open_orders(&mut e, 1), vec![(0, true, vec![])]);
}

#[test]
fn full_book_turns_new_orders_down() {
    let mut e = engine();
    for i in 0..1024u64 {
        let m = order(1, 1, "FB", OrderSide::Sell, 100 + i, 1, i);
        assert!(e.process_message_at(EngineMessage::NewOrder(m), at(1)).is_ok());
    }
    let m = order(1, 1, "FB", OrderSide::Sell, 5000, 1, 5000);
    assert_eq!(
        e.process_message_at(EngineMessage::NewOrder(m), at(1)).err(),
        Some(EngineError::BookFull)
    );
    let other = order(1, 1, "FB", OrderSide::Buy, 50, 1, 5001);
    assert!(e.process_message_at(EngineMessage::NewOrder(other), at(1)).is_ok());
}

#[test]
fn cancel_checks_the_symbol_and_the_user() {
    let mut e = engine();
    let resting = order(7, 2, "GOOG", OrderSide::Buy, 100, 10, 0);
    e.process_message_at(EngineMessage::NewOrder(resting), at(1)).unwrap();
    let foreign = CancelOrderMessage { user: 7, order_id: OrderId::new(3, OrderSide::Buy, 0).unwrap() };
    assert_eq!(
        e.process_message_at(EngineMessage::CancelOrder(foreign), at(2)).err(),
        Some(EngineError::InvalidOrderId)
    );
    let stranger = CancelOrderMessage { user: 8, order_id: resting.order_id };
    assert_eq!(
        e.process_message_at(EngineMessage::CancelOrder(stranger), at(2)).err(),
        Some(EngineError::NotAuthorized)
    );
    assert_eq!(open_orders(&mut e, 7), vec![(1, true, vec![100])]);
    let absent = CancelOrderMessage { user: 7, order_id: OrderId::new(2, OrderSide::Buy, 9).unwrap() };
    assert!(e.process_message_at(EngineMessage::CancelOrder(absent), at(2)).unwrap().is_empty());
    assert_eq!(open_orders(&mut e, 7), vec![(1, true, vec![100])]);
    let own = CancelOrderMessage { user: 7, order_id: resting.order_id };
    assert!(e.process_message_at(EngineMessage::CancelOrder(own), at(2)).unwrap().is_empty());
    assert_eq!(open_orders(&mut e, 7), vec![(0, true, vec![])]);
    assert!(e.process_message_at(EngineMessage::CancelOrder(own), at(3)).unwrap().is_empty());
}

#[test]
fn cancel_of_a_filled_order_changes_nothing() {
    let mut e = engine();
    let buy = order(7, 2, "GOOG", OrderSide::Buy, 100, 10, 0);
    let keep = order(7, 2, "GOOG", OrderSide::Buy, 90, 5, 1);
    e.process_message_at(EngineMessage::NewOrder(buy), at(1)).unwrap();
    e.process_message_at(EngineMessage::NewOrder(keep), at(1)).unwrap();
    let sell = order(8, 2, "GOOG", OrderSide::Sell, 100, 10, 2);
    let events = e.process_message_at(EngineMessage::NewOrder(sell), at(2)).unwrap();
    assert_eq!(events.len(), 3);
    e.publish_md();
    let cancel = CancelOrderMessage { user: 7, order_id: buy.order_id };
    assert!(e.process_message_at(EngineMessage::CancelOrder(cancel), at(3)).unwrap().is_empty());
    assert_eq!(open_orders(&mut e, 7), vec![(1, true, vec![90])]);
    assert!(e.publish_md().is_empty());
}

#[test]
fn barrier_is_answered_at_once() {
    let mut e = engine();
    let events = e.process_message_at(EngineMessage::SerializationMessage(17), at(1)).unwrap();
    assert_eq!(events.len(), 1);
    assert!(matches!(
        events[0],
        EngineEvent::Session(SessionMessage::SerializationResponse(17))
    ));
}

#[test]
fn open_orders_come_in_answers_of_ten() {
    let mut e = engine();
    assert_eq!(open_orders(&mut e, 1), vec![(0, true, vec![])]);
    for i in 0..25u64 {
        let m = order(1, 0, "AAPL", OrderSide::Buy, 1000 - i, 1, i);
        e.process_message_at(EngineMessage::NewOrder(m), at(i as i64)).unwrap();
    }
    let other = order(2, 0, "AAPL", OrderSide::Buy, 5, 1, 99);
    e.process_message_at(EngineMessage::NewOrder(other), at(99)).unwrap();
    let got = open_orders(&mut e, 1);
    assert_eq!(got.len(), 3);
    assert_eq!(got[0], (10, false, (0..10).map(|i| 1000 - i).collect()));
    assert_eq!(got[1], (10, false, (10..20).map(|i| 1000 - i).collect()));
    assert_eq!(got[2], (5, true, (20..25).map(|i| 1000 - i).collect()));
    assert_eq!(open_orders(&mut e, 2), vec![(1, true, vec![5])]);
    assert_eq!(open_orders(&mut e, 3), vec![(0, true, vec![])]);
}

#[test]
fn ten_open_orders_are_followed_by_an_empty_last_answer() {
    let seq = OpenOrdersSequence { user: 1, seq: 0 };
    let orders: Vec<Order> = (0..10).map(|_| Order::default_at(at(1))).collect();
    let events = chunk_open_orders(seq, &orders);
    let shape: Vec<(u32, bool)> = events
        .iter()
        .map(|ev| match ev {
            EngineEvent::Session(SessionMessage::OpenOrdersResponse(r)) => (r.n_order, r.last_response),
            other => panic!("unexpected event {:?}", other),
        })
        .collect();
    assert_eq!(shape, vec![(10, false), (0, true)]);
}

#[test]
fn open_orders_go_book_by_book() {
    let mut e = engine();
    e.process_message_at(EngineMessage::NewOrder(order(1, 2, "GOOG", OrderSide::Sell, 30, 1, 0)), at(1)).unwrap();
    e.process_message_at(EngineMessage::NewOrder(order(1, 0, "AAPL", OrderSide::Sell, 20, 1, 0)), at(2)).unwrap();
    e.process_message_at(EngineMessage::NewOrder(order(1, 0, "AAPL", OrderSide::Buy, 10, 1, 1)), at(3)).unwrap();
    e.process_message_at(EngineMessage::NewOrder(order(1, 0, "AAPL", OrderSide::Buy, 11, 1, 2)), at(4)).unwrap();
    assert_eq!(open_orders(&mut e, 1), vec![(4, true, vec![11, 10, 20, 30])]);
}

#[test]
fn market_data_covers_the_books_that_changed() {
    let mut e = engine();
    assert!(e.publish_md().is_empty());
    e.process_message_at(EngineMessage::NewOrder(order(1, 2, "GOOG", OrderSide::Sell, 30, 4, 0)), at(1)).unwrap();
    e.process_message_at(EngineMessage::NewOrder(order(1, 0, "AAPL", OrderSide::Buy, 10, 3, 0)), at(2)).unwrap();
    let events = e.publish_md();
    assert_eq!(events.len(), 4);
    match (&events[0], &events[1], &events[2], &events[3]) {
        (
            EngineEvent::MarketData(MdMessage::L1Message(a1)),
            EngineEvent::MarketData(MdMessage::L2Message(a2)),
            EngineEvent::MarketData(MdMessage::L1Message(g1)),
            EngineEvent::MarketData(MdMessage::L2Message(g2)),
        ) => {
            assert_eq!(a1.symbol, sym("AAPL"));
            assert_eq!(a1.bid, Some(MdEntry { price: 10, quantity: 3 }));
            assert_eq!(a1.ask, None);
            assert_eq!(a2.symbol, sym("AAPL"));
            assert_eq!(a2.bids.iter(), vec![MdEntry { price: 10, quantity: 3 }]);
            assert_eq!(a2.asks.n_entry, 0);
            assert_eq!(g1.symbol, sym("GOOG"));
            assert_eq!(g1.bid, None);
            assert_eq!(g1.ask, Some(MdEntry { price: 30, quantity: 4 }));
            assert_eq!(g2.asks.iter(), vec![MdEntry { price: 30, quantity: 4 }]);
            assert!(g1.last.is_none());
        }
        other => panic!("unexpected events {:?}", other),
    }
    assert!(e.publish_md().is_empty());
    e.process_message_at(EngineMessage::NewOrder(order(2, 2, "GOOG", OrderSide::Buy, 30, 1, 1)), at(3)).unwrap();
    let events = e.publish_md();
    assert_eq!(events.len(), 2);
    match &events[0] {
        EngineEvent::MarketData(MdMessage::L1Message(g1)) => {
            assert_eq!(g1.ask, Some(MdEntry { price: 30, quantity: 3 }));
            let last = g1.last.unwrap();
            assert_eq!((last.price, last.quantity), (30, 1));
        }
        other => panic!("unexpected event {:?}", other),
    }
}

#[test]
fn engine_reads_the_clock_for_new_orders() {
    let mut e = engine();
    let m = order(1, 2, "GOOG", OrderSide::Sell, 30, 4, 0);
    let events = e.process_message(EngineMessage::NewOrder(m)).unwrap();
    assert_eq!(acks(&events), vec![(m.order_id, ErrorCode::Success)]);
    assert_eq!(e.find_symbol(&sym("GOOG")), Some(2));
    assert_eq!(e.find_symbol(&sym("NONE")), None);
}

#[test]
fn replay_of_the_same_commands_gives_the_same_answers() {
    let commands = vec![
        EngineMessage::NewOrder(order(1, 2, "GOOG", OrderSide::Sell, 500, 1000, 0)),
        EngineMessage::NewOrder(order(2, 2, "GOOG", OrderSide::Buy, 500, 300, 1)),
        EngineMessage::NewOrder(order(2, 2, "GOOG", OrderSide::Buy, 490, 300, 2)),
        EngineMessage::CancelOrder(CancelOrderMessage {
            user: 2,
            order_id: OrderId::new(2, OrderSide::Buy, 2).unwrap(),
        }),
        EngineMessage::NewOrder(order(3, 2, "GOOG", OrderSide::Buy, 505, 900, 3)),
    ];
    let mut live = engine();
    let mut replayed = engine();
    for (i, c) in commands.iter().enumerate() {
        let a = live.process_message_at(*c, at(i as i64)).unwrap();
        let b = replayed.process_message_at(*c, at(i as i64)).unwrap();
        assert_eq!(format!("{:?}", a), format!("{:?}", b));
    }
    assert_eq!(format!("{:?}", live.publish_md()), format!("{:?}", replayed.publish_md()));
    assert_eq!(open_orders(&mut live, 3), open_orders(&mut replayed, 3));
    assert_eq!(open_orders(&mut live, 3), vec![(1, true, vec![505])]);
}
