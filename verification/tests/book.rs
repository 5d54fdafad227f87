use libcix::book::{
    BasicMatcher, BookSide, BuyComparer, ExecutionHandler, OrderBook, OrderMatcher, SellComparer,
    BOOK_SIDE_CAPACITY,
};
use libcix::order::trade_types::{
    ErrorCode, Execution, L1Md, L2Md, MdEntry, Order, OrderId, OrderSide, OrderTime, Symbol,
};
use std::cell::RefCell;

const SYMBOL: &str = "GOOG";

fn at(sec: i64) -> OrderTime {
    OrderTime { sec, nsec: 0 }
}

fn create_order(side: OrderSide, price: u64, quantity: u32, order_seq: &mut u64) -> Order {
    let o = Order {
        id: OrderId::new(0, side, *order_seq).unwrap(),
        user: 7,
        symbol: Symbol::from_str(SYMBOL).unwrap(),
        side,
        price,
        quantity,
        update: at(*order_seq as i64),
    };
    *order_seq += 1;
    o
}

fn new_book() -> OrderBook {
    OrderBook::new(Symbol::from_str(SYMBOL).unwrap(), 0)
}

fn prices_and_quantities(book: &OrderBook) -> Vec<(OrderSide, u64, u32)> {
    book.orders().iter().map(|o| (o.side, o.price, o.quantity)).collect()
}

#[test]
fn even_cross_empties_both_sides() {
    let mut book = new_book();
    let mut seq = 0u64;
    let sell = create_order(OrderSide::Sell, 500, 1000, &mut seq);
    let r = BasicMatcher::add_order_at(&mut book, sell, at(100));
    assert_eq!(r.status, ErrorCode::Success);
    assert!(r.executions.is_empty());
    let buy = create_order(OrderSide::Buy, 500, 1000, &mut seq);
    let r = BasicMatcher::add_order_at(&mut book, buy, at(101));
    assert_eq!(r.status, ErrorCode::Success);
    assert_eq!(r.executions.len(), 1);
    assert_eq!(r.executions[0].price, 500);
    assert_eq!(r.executions[0].quantity, 1000);
    assert_eq!(r.executions[0].buy_order, buy.id);
    assert_eq!(r.executions[0].sell_order, sell.id);
    assert_eq!(r.executions[0].ts, at(101));
    assert!(book.orders().is_empty());
}

fn after_price_improvement(book: &mut OrderBook, seq: &mut u64) {
    let first = create_order(OrderSide::Buy, 500, 1000, seq);
    BasicMatcher::add_order_at(book, first, at(1));
    let r = BasicMatcher::add_order_at(book, create_order(OrderSide::Sell, 450, 100, seq), at(2));
    assert_eq!(r.executions.len(), 1);
    assert_eq!((r.executions[0].price, r.executions[0].quantity), (500, 100));
}

fn after_top_of_book_trade(book: &mut OrderBook, seq: &mut u64) {
    after_price_improvement(book, seq);
    let r = BasicMatcher::add_order_at(book, create_order(OrderSide::Buy, 475, 1200, seq), at(3));
    assert!(r.executions.is_empty());
    assert_eq!(
        prices_and_quantities(book),
        vec![(OrderSide::Buy, 500, 900), (OrderSide::Buy, 475, 1200)]
    );
    let r = BasicMatcher::add_order_at(book, create_order(OrderSide::Sell, 470, 100, seq), at(4));
    assert_eq!(r.executions.len(), 1);
    assert_eq!((r.executions[0].price, r.executions[0].quantity), (500, 100));
}

#[test]
fn passive_order_sets_the_price() {
    let mut book = new_book();
    let mut seq = 0u64;
    after_price_improvement(&mut book, &mut seq);
    assert_eq!(prices_and_quantities(&book), vec![(OrderSide::Buy, 500, 900)]);
}

#[test]
fn sell_trades_with_the_top_of_the_book_first() {
    let mut book = new_book();
    let mut seq = 0u64;
    after_top_of_book_trade(&mut book, &mut seq);
    assert_eq!(
        prices_and_quantities(&book),
        vec![(OrderSide::Buy, 500, 800), (OrderSide::Buy, 475, 1200)]
    );
}

#[test]
fn sweep_goes_down_the_levels_until_the_order_is_used_up() {
    let mut book = new_book();
    let mut seq = 0u64;
    after_top_of_book_trade(&mut book, &mut seq);
    BasicMatcher::add_order_at(&mut book, create_order(OrderSide::Buy, 472, 500, &mut seq), at(5));
    let r = BasicMatcher::add_order_at(
        &mut book,
        create_order(OrderSide::Sell, 470, 2000, &mut seq),
        at(6),
    );
    let got: Vec<(u64, u32)> = r.executions.iter().map(|e| (e.price, e.quantity)).collect();
    assert_eq!(got, vec![(500, 800), (475, 1200)]);
    assert_eq!(r.status, ErrorCode::Success);
    assert_eq!(prices_and_quantities(&book), vec![(OrderSide::Buy, 472, 500)]);
    let ids: Vec<u64> = r.executions.iter().map(|e| e.id.sequence()).collect();
    assert_eq!(ids, vec![2, 3]);
}

#[test]
fn full_sweep_exhausts_every_level() {
    let mut book = new_book();
    let mut seq = 0u64;
    BasicMatcher::add_order_at(&mut book, create_order(OrderSide::Buy, 500, 800, &mut seq), at(1));
    BasicMatcher::add_order_at(&mut book, create_order(OrderSide::Buy, 475, 1200, &mut seq), at(2));
    BasicMatcher::add_order_at(&mut book, create_order(OrderSide::Buy, 472, 500, &mut seq), at(3));
    let r = BasicMatcher::add_order_at(
        &mut book,
        create_order(OrderSide::Sell, 470, 2500, &mut seq),
        at(4),
    );
    let got: Vec<(u64, u32)> = r.executions.iter().map(|e| (e.price, e.quantity)).collect();
    assert_eq!(got, vec![(500, 800), (475, 1200), (472, 500)]);
    assert_eq!(r.status, ErrorCode::Success);
    assert!(book.orders().is_empty());
    let total: u32 = r.executions.iter().map(|e| e.quantity).sum();
    assert_eq!(total, 2500);
}

#[test]
fn sweep_leaves_the_residual_resting() {
    let mut book = new_book();
    let mut seq = 0u64;
    BasicMatcher::add_order_at(&mut book, create_order(OrderSide::Buy, 500, 800, &mut seq), at(1));
    BasicMatcher::add_order_at(&mut book, create_order(OrderSide::Buy, 460, 10, &mut seq), at(2));
    let sell = create_order(OrderSide::Sell, 470, 1000, &mut seq);
    let r = BasicMatcher::add_order_at(&mut book, sell, at(3));
    let got: Vec<(u64, u32)> = r.executions.iter().map(|e| (e.price, e.quantity)).collect();
    assert_eq!(got, vec![(500, 800)]);
    assert_eq!(
        prices_and_quantities(&book),
        vec![(OrderSide::Buy, 460, 10), (OrderSide::Sell, 470, 200)]
    );
    assert_eq!(book.get_order(sell.id).unwrap().update, at(3));
}

#[test]
fn duplicate_id_is_turned_down_without_change() {
    let mut book = new_book();
    let mut seq = 0u64;
    let resting = create_order(OrderSide::Buy, 500, 1000, &mut seq);
    BasicMatcher::add_order_at(&mut book, resting, at(1));
    BasicMatcher::add_order_at(&mut book, create_order(OrderSide::Sell, 600, 10, &mut seq), at(2));
    let mut again = resting;
    again.price = 700;
    again.quantity = 5;
    let r = BasicMatcher::add_order_at(&mut book, again, at(3));
    assert_eq!(r.status, ErrorCode::DuplicateId);
    assert!(r.executions.is_empty());
    assert_eq!(
        prices_and_quantities(&book),
        vec![(OrderSide::Buy, 500, 1000), (OrderSide::Sell, 600, 10)]
    );
    assert_eq!(book.get_order(resting.id).unwrap().quantity, 1000);
}

#[test]
fn cancel_after_fill_changes_nothing() {
    let mut book = new_book();
    let mut seq = 0u64;
    let b = create_order(OrderSide::Buy, 500, 100, &mut seq);
    BasicMatcher::add_order_at(&mut book, b, at(1));
    let other = create_order(OrderSide::Buy, 490, 50, &mut seq);
    BasicMatcher::add_order_at(&mut book, other, at(2));
    let r = BasicMatcher::add_order_at(
        &mut book,
        create_order(OrderSide::Sell, 500, 100, &mut seq),
        at(3),
    );
    assert_eq!(r.executions.len(), 1);
    assert!(book.get_order(b.id).is_none());
    BasicMatcher::cancel_order_in(&mut book, b.id);
    assert_eq!(prices_and_quantities(&book), vec![(OrderSide::Buy, 490, 50)]);
    BasicMatcher::cancel_order_in(&mut book, other.id);
    assert!(book.orders().is_empty());
}

#[test]
fn resting_orders_are_found_under_their_id() {
    let mut book = new_book();
    let mut seq = 0u64;
    let a = create_order(OrderSide::Buy, 500, 100, &mut seq);
    let b = create_order(OrderSide::Sell, 510, 70, &mut seq);
    BasicMatcher::add_order_at(&mut book, a, at(11));
    BasicMatcher::add_order_at(&mut book, b, at(12));
    let got = book.get_order(a.id).unwrap();
    assert_eq!((got.price, got.quantity, got.update), (500, 100, at(11)));
    let got = book.get_order(b.id).unwrap();
    assert_eq!((got.price, got.quantity, got.update), (510, 70, at(12)));
    for o in book.orders() {
        assert!(o.quantity > 0);
    }
}

#[test]
fn equal_prices_trade_in_time_order() {
    let mut side: BookSide<BuyComparer> = BookSide::new();
    let mut seq = 0u64;
    let mut late = create_order(OrderSide::Buy, 500, 10, &mut seq);
    late.update = at(9);
    let mut early = create_order(OrderSide::Buy, 500, 20, &mut seq);
    early.update = at(3);
    let mut best = create_order(OrderSide::Buy, 501, 30, &mut seq);
    best.update = at(20);
    side.add_order(late);
    side.add_order(early);
    side.add_order(best);
    let got: Vec<u32> = side.orders().iter().map(|o| o.quantity).collect();
    assert_eq!(got, vec![30, 20, 10]);

    let mut asks: BookSide<SellComparer> = BookSide::new();
    let mut a = create_order(OrderSide::Sell, 500, 1, &mut seq);
    a.update = at(9);
    let mut b = create_order(OrderSide::Sell, 500, 2, &mut seq);
    b.update = at(3);
    let mut c = create_order(OrderSide::Sell, 499, 3, &mut seq);
    c.update = at(20);
    asks.add_order(a);
    asks.add_order(b);
    asks.add_order(c);
    let got: Vec<u32> = asks.orders().iter().map(|o| o.quantity).collect();
    assert_eq!(got, vec![3, 2, 1]);
}

#[test]
fn top_of_an_empty_side_is_the_zero_entry() {
    let side: BookSide<BuyComparer> = BookSide::new();
    assert_eq!(side.top_order(), MdEntry { price: 0, quantity: 0 });
    assert!(side.get_l2_data(5).is_empty());
    let book = new_book();
    let md = BasicMatcher::market_data(&book);
    assert!(md.l1.bid.is_none());
    assert!(md.l1.ask.is_none());
    assert_eq!(md.l2.bids.n_entry, 0);
    assert_eq!(md.l2.asks.n_entry, 0);
}

#[test]
fn depth_adds_up_the_quantity_at_each_price() {
    let mut book = new_book();
    let mut seq = 0u64;
    for (price, quantity) in vec![(500u64, 10u32), (498, 5), (500, 7), (499, 1), (498, 2), (497, 9)] {
        BasicMatcher::add_order_at(
            &mut book,
            create_order(OrderSide::Buy, price, quantity, &mut seq),
            at(seq as i64),
        );
    }
    for (price, quantity) in vec![(510u64, 4u32), (505, 6), (505, 6), (520, 1)] {
        BasicMatcher::add_order_at(
            &mut book,
            create_order(OrderSide::Sell, price, quantity, &mut seq),
            at(seq as i64),
        );
    }
    let md = BasicMatcher::market_data(&book);
    assert_eq!(md.l1.bid, Some(MdEntry { price: 500, quantity: 10 }));
    assert_eq!(md.l1.ask, Some(MdEntry { price: 505, quantity: 6 }));
    assert_eq!(
        md.l2.bids.iter(),
        vec![
            MdEntry { price: 500, quantity: 17 },
            MdEntry { price: 499, quantity: 1 },
            MdEntry { price: 498, quantity: 7 },
            MdEntry { price: 497, quantity: 9 },
        ]
    );
    assert_eq!(
        md.l2.asks.iter(),
        vec![
            MdEntry { price: 505, quantity: 12 },
            MdEntry { price: 510, quantity: 4 },
            MdEntry { price: 520, quantity: 1 },
        ]
    );
}

#[test]
fn side_takes_its_capacity_and_reports_it() {
    let mut book = new_book();
    let mut seq = 0u64;
    for _ in 0..BOOK_SIDE_CAPACITY {
        let o = create_order(OrderSide::Buy, 100, 1, &mut seq);
        assert!(book.can_accept(&o));
        BasicMatcher::add_order_at(&mut book, o, at(1));
    }
    let o = create_order(OrderSide::Buy, 100, 1, &mut seq);
    assert!(!book.can_accept(&o));
    let s = create_order(OrderSide::Sell, 100, 1, &mut seq);
    assert!(book.can_accept(&s));
    let mut wrong = create_order(OrderSide::Sell, 100, 1, &mut seq);
    wrong.side = OrderSide::Buy;
    assert!(!book.can_accept(&wrong));
}

#[test]
fn executed_quantity_never_exceeds_the_order() {
    let mut book = new_book();
    let mut seq = 0u64;
    let resting = create_order(OrderSide::Sell, 100, 1000, &mut seq);
    BasicMatcher::add_order_at(&mut book, resting, at(1));
    let mut against_resting = 0u32;
    for quantity in vec![300u32, 300, 300, 300] {
        let buy = create_order(OrderSide::Buy, 100, quantity, &mut seq);
        let r = BasicMatcher::add_order_at(&mut book, buy, at(2));
        let filled: u32 = r.executions.iter().map(|e| e.quantity).sum();
        assert!(filled <= quantity);
        for e in &r.executions {
            assert_eq!(e.sell_order, resting.id);
            against_resting += e.quantity;
        }
        assert!(against_resting <= 1000);
    }
    assert_eq!(against_resting, 1000);
    assert_eq!(prices_and_quantities(&book), vec![(OrderSide::Buy, 100, 200)]);
}

struct Recorder {
    seen: RefCell<Vec<String>>,
}

impl ExecutionHandler for Recorder {
    fn ack_order(&self, order_id: OrderId, status: ErrorCode) {
        self.seen.borrow_mut().push(format!("ack {} {:?}", order_id.sequence(), status));
    }

    fn handle_match(&self, execution: Execution) {
        self.seen.borrow_mut().push(format!("match {}x{}", execution.price, execution.quantity));
    }

    fn handle_market_data_l1(&self, md: L1Md) {
        self.seen.borrow_mut().push(format!("l1 {:?} {:?}", md.bid, md.ask));
    }

    fn handle_market_data_l2(&self, md: L2Md) {
        self.seen.borrow_mut().push(format!("l2 {} {}", md.bids.n_entry, md.asks.n_entry));
    }
}

#[test]
fn matcher_reports_to_the_handler_in_order() {
    let recorder = Recorder { seen: RefCell::new(Vec::new()) };
    let mut matcher = BasicMatcher;
    let mut book = new_book();
    let mut seq = 0u64;
    matcher.add_order(&mut book, create_order(OrderSide::Sell, 10, 5, &mut seq), &recorder);
    matcher.add_order(&mut book, create_order(OrderSide::Sell, 11, 5, &mut seq), &recorder);
    let buy = create_order(OrderSide::Buy, 11, 7, &mut seq);
    matcher.add_order(&mut book, buy, &recorder);
    matcher.publish_md(&book, &recorder);
    matcher.cancel_order(&mut book, OrderId::new(0, OrderSide::Sell, 1).unwrap(), &recorder);
    matcher.publish_md(&book, &recorder);
    assert_eq!(
        *recorder.seen.borrow(),
        vec![
            "ack 0 Success".to_string(),
            "ack 1 Success".to_string(),
            "match 10x5".to_string(),
            "match 11x2".to_string(),
            "ack 2 Success".to_string(),
            "l1 None Some(MdEntry { price: 11, quantity: 3 })".to_string(),
            "l2 0 1".to_string(),
            "l1 None None".to_string(),
            "l2 0 0".to_string(),
        ]
    );
    let resting = book.get_order(buy.id);
    assert!(resting.is_none());
}

#[test]
fn book_shows_its_heaps_row_by_row() {
    let mut book = new_book();
    let mut seq = 0u64;
    assert!(book.rows(OrderSide::Buy).is_empty());
    BasicMatcher::add_order_at(&mut book, create_order(OrderSide::Buy, 10, 1, &mut seq), at(1));
    BasicMatcher::add_order_at(&mut book, create_order(OrderSide::Buy, 12, 1, &mut seq), at(2));
    let rows = book.rows(OrderSide::Buy);
    assert_eq!(rows.len(), 3);
    assert_eq!(rows[0][0].unwrap().price, 12);
    let below: Vec<Option<u64>> = rows[1].iter().map(|o| o.map(|x| x.price)).collect();
    assert!(below == vec![Some(10), None] || below == vec![None, Some(10)]);
    assert!(book.rows(OrderSide::Sell).is_empty());
}
