use libcix::messages::{CancelOrderMessage, EngineMessage, NewOrderMessage};
use libcix::order::trade_types::{OrderId, OrderSide, Symbol, SEQUENCE_MAX};
use libcix::router::{OrderRouter, RouterError, SingleRouter, SymbolLookup};

fn symbols() -> Vec<Symbol> {
    vec!["AAPL", "FB", "GOOG"].into_iter().map(|x| Symbol::from_str(x).unwrap()).collect()
}

fn router() -> SingleRouter {
    SingleRouter::new(SymbolLookup::new(&symbols()).unwrap())
}

fn replayed(symbol: &str, id: OrderId) -> EngineMessage {
    EngineMessage::NewOrder(NewOrderMessage {
        user: 1,
        order_id: id,
        symbol: Symbol::from_str(symbol).unwrap(),
        side: id.side(),
        price: 1,
        quantity: 1,
    })
}

#[test]
fn lookup_numbers_the_symbols_in_their_order() {
    let lookup = SymbolLookup::new(&symbols()).unwrap();
    assert_eq!(lookup.len(), 3);
    assert_eq!(lookup.get_symbol(1), Ok(Symbol::from_str("FB").unwrap()));
    assert_eq!(lookup.get_symbol(3), Err(()));
    assert_eq!(lookup.get_symbol_id(&Symbol::from_str("GOOG").unwrap()), Ok(2));
    assert_eq!(lookup.get_symbol_id(&Symbol::from_str("MSFT").unwrap()), Err(()));
}

#[test]
fn lookup_turns_down_a_symbol_that_occurs_twice() {
    let mut twice = symbols();
    twice.push(Symbol::from_str("FB").unwrap());
    assert_eq!(SymbolLookup::new(&twice).err(), Some(RouterError::DuplicateSymbol));
    assert!(SymbolLookup::new(&Vec::new()).is_ok());
}

#[test]
fn order_ids_count_up_per_symbol() {
    let mut r = router();
    let goog = Symbol::from_str("GOOG").unwrap();
    let fb = Symbol::from_str("FB").unwrap();
    let a = r.create_order_id(&goog, &OrderSide::Buy).unwrap();
    let b = r.create_order_id(&goog, &OrderSide::Sell).unwrap();
    let c = r.create_order_id(&fb, &OrderSide::Sell).unwrap();
    let d = r.create_order_id(&goog, &OrderSide::Buy).unwrap();
    assert_eq!((a.symbol_id(), a.side(), a.sequence()), (2, OrderSide::Buy, 0));
    assert_eq!((b.symbol_id(), b.side(), b.sequence()), (2, OrderSide::Sell, 1));
    assert_eq!((c.symbol_id(), c.side(), c.sequence()), (1, OrderSide::Sell, 0));
    assert_eq!((d.symbol_id(), d.side(), d.sequence()), (2, OrderSide::Buy, 2));
}

#[test]
fn unknown_symbol_gets_no_order_id() {
    let mut r = router();
    let msft = Symbol::from_str("MSFT").unwrap();
    assert_eq!(r.create_order_id(&msft, &OrderSide::Buy), Err(RouterError::InvalidSymbol));
    let id = OrderId::new(0, OrderSide::Buy, 5).unwrap();
    assert_eq!(r.replay_message(&replayed("MSFT", id)), Err(RouterError::InvalidSymbol));
}

#[test]
fn replay_moves_the_counter_past_what_was_seen() {
    let mut r = router();
    let goog = Symbol::from_str("GOOG").unwrap();
    let seen = OrderId::new(2, OrderSide::Sell, 41).unwrap();
    assert_eq!(r.replay_message(&replayed("GOOG", seen)), Ok(()));
    let earlier = OrderId::new(2, OrderSide::Buy, 7).unwrap();
    assert_eq!(r.replay_message(&replayed("GOOG", earlier)), Ok(()));
    let cancel = EngineMessage::CancelOrder(CancelOrderMessage { user: 1, order_id: seen });
    assert_eq!(r.replay_message(&cancel), Ok(()));
    assert_eq!(r.replay_message(&EngineMessage::SerializationMessage(1)), Ok(()));
    let next = r.create_order_id(&goog, &OrderSide::Buy).unwrap();
    assert_eq!(next.sequence(), 42);
    let other = r.create_order_id(&Symbol::from_str("AAPL").unwrap(), &OrderSide::Buy).unwrap();
    assert_eq!(other.sequence(), 0);
}

#[test]
fn symbol_runs_out_of_sequence_numbers() {
    let mut r = router();
    let goog = Symbol::from_str("GOOG").unwrap();
    let last = OrderId::new(2, OrderSide::Sell, SEQUENCE_MAX - 1).unwrap();
    r.replay_message(&replayed("GOOG", last)).unwrap();
    assert_eq!(r.create_order_id(&goog, &OrderSide::Buy).unwrap().sequence(), SEQUENCE_MAX);
    assert_eq!(r.create_order_id(&goog, &OrderSide::Buy), Err(RouterError::SequenceExhausted));
    assert_eq!(r.create_order_id(&goog, &OrderSide::Sell), Err(RouterError::SequenceExhausted));
}

#[test]
fn single_router_has_one_engine() {
    let r = router();
    assert_eq!(r.n_engine(), 1);
    assert_eq!(r.route_order(&EngineMessage::SerializationMessage(1)), 0);
    assert_eq!(r.n_symbols(), 3);
}
