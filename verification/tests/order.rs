use libcix::order::trade_types::{
    Error, ErrorCode, ExecutionId, L2MdSide, MdEntry, Order, OrderId, OrderSide, OrderTime,
    Symbol, TradingId, L2_MD_DEPTH, SEQUENCE_MAX, SYMBOL_MAX,
};

#[test]
fn trading_id_packs_its_fields() {
    let id = TradingId::new(3, 2, 17).unwrap();
    assert_eq!(id.raw(), (3u64 << 44) | (2u64 << 40) | 17);
    assert_eq!(id.symbol_id(), 3);
    assert_eq!(id.metadata(), 2);
    assert_eq!(id.sequence(), 17);
    let top = TradingId::new(SYMBOL_MAX, 15, SEQUENCE_MAX).unwrap();
    assert_eq!(top.raw(), u64::MAX);
    assert_eq!(top.symbol_id(), SYMBOL_MAX);
    assert_eq!(top.metadata(), 15);
    assert_eq!(top.sequence(), SEQUENCE_MAX);
    assert_eq!(TradingId::new(0, 0, 0).unwrap().raw(), 0);
}

#[test]
fn trading_id_turns_down_what_does_not_fit() {
    assert_eq!(TradingId::new(SYMBOL_MAX + 1, 0, 0).err().unwrap(), "symbol ID too high");
    assert_eq!(TradingId::new(0, 16, 0).err().unwrap(), "metadata value too high");
    assert_eq!(TradingId::new(0, 0, SEQUENCE_MAX + 1).err().unwrap(), "sequence number too high");
    assert_eq!(
        TradingId::new(SYMBOL_MAX + 1, 16, SEQUENCE_MAX + 1).err().unwrap(),
        "symbol ID too high"
    );
}

#[test]
fn trading_id_from_raw_unpacks_any_number() {
    let id = TradingId::from_raw(0x0000_5321_0000_0007);
    assert_eq!(id.symbol_id(), 5);
    assert_eq!(id.metadata(), 3);
    assert_eq!(id.sequence(), 0x21_0000_0007);
    assert_eq!(id.raw(), 0x0000_5321_0000_0007);
}

#[test]
fn order_id_knows_its_side_and_symbol() {
    let buy = OrderId::new(9, OrderSide::Buy, 41).unwrap();
    assert_eq!(buy.side(), OrderSide::Buy);
    assert_eq!(buy.symbol_id(), 9);
    assert_eq!(buy.sequence(), 41);
    assert_eq!(buy.raw(), (9u64 << 44) | (2u64 << 40) | 41);
    let sell = OrderId::new(9, OrderSide::Sell, 41).unwrap();
    assert_eq!(sell.side(), OrderSide::Sell);
    assert_eq!(sell.raw(), (9u64 << 44) | 41);
    assert_ne!(buy, sell);
    assert_eq!(OrderId::from_raw(buy.raw()).unwrap(), buy);
    assert_eq!(OrderId::from_raw(sell.raw()).unwrap(), sell);
}

#[test]
fn order_id_turns_down_execution_numbers() {
    let exec = ExecutionId::new(9, 41).unwrap();
    assert_eq!(OrderId::from_raw(exec.raw()).err().unwrap(), "id does not represent order");
    assert_eq!(OrderId::new(SYMBOL_MAX + 1, OrderSide::Buy, 0).err().unwrap(), "symbol ID too high");
    assert_eq!(
        OrderId::new(0, OrderSide::Sell, SEQUENCE_MAX + 1).err().unwrap(),
        "sequence number too high"
    );
}

#[test]
fn execution_id_is_marked_as_execution() {
    let exec = ExecutionId::new(2, 5).unwrap();
    assert_eq!(exec.raw(), (2u64 << 44) | (1u64 << 40) | 5);
    assert_eq!(exec.symbol_id(), 2);
    assert_eq!(exec.sequence(), 5);
    assert_eq!(ExecutionId::from_raw(exec.raw()).unwrap(), exec);
    let order = OrderId::new(2, OrderSide::Buy, 5).unwrap();
    assert_eq!(
        ExecutionId::from_raw(order.raw()).err().unwrap(),
        "id does not represent execution"
    );
    assert_eq!(ExecutionId::new(SYMBOL_MAX + 1, 0).err().unwrap(), "symbol ID too high");
    assert_eq!(ExecutionId::new(0, SEQUENCE_MAX + 1).err().unwrap(), "sequence number too high");
}

#[test]
fn default_ids_are_the_last_of_their_kind() {
    let order = OrderId::default();
    assert_eq!(order.symbol_id(), SYMBOL_MAX);
    assert_eq!(order.sequence(), SEQUENCE_MAX);
    assert_eq!(order.side(), OrderSide::Buy);
    let exec = ExecutionId::default();
    assert_eq!(exec.symbol_id(), SYMBOL_MAX);
    assert_eq!(exec.sequence(), SEQUENCE_MAX);
}

#[test]
fn symbol_is_padded_with_zero_bytes() {
    let s = Symbol::from_str("GOOG").unwrap();
    assert_eq!(s.s, [b'G', b'O', b'O', b'G', 0, 0, 0, 0]);
    assert_eq!(s.to_bytes(), &[b'G', b'O', b'O', b'G', 0, 0, 0, 0]);
    assert_eq!(s.as_str(), "GOOG");
    assert_eq!(Symbol::from_bytes(b"GOOG").unwrap(), s);
    assert_eq!(Symbol::new().s, [0u8; 8]);
    assert_eq!(Symbol::default(), Symbol::new());
    assert_eq!(Symbol::new().as_str(), "");
    let full = Symbol::from_str("ABCDEFGH").unwrap();
    assert_eq!(full.as_str(), "ABCDEFGH");
    assert_ne!(full, s);
}

#[test]
fn symbol_of_more_than_eight_bytes_is_turned_down() {
    assert!(Symbol::from_str("ABCDEFGHI").is_err());
    assert!(Symbol::from_bytes(&[1u8; 9]).is_err());
    assert!(Symbol::from_bytes(&[1u8; 8]).is_ok());
}

#[test]
fn order_time_orders_by_seconds_then_nanoseconds() {
    let a = OrderTime { sec: 5, nsec: 10 };
    let b = OrderTime { sec: 5, nsec: 11 };
    let c = OrderTime { sec: 6, nsec: 0 };
    assert!(a.not_after(&a));
    assert!(a.not_after(&b));
    assert!(!b.not_after(&a));
    assert!(b.not_after(&c));
    assert!(!c.not_after(&a));
}

#[test]
fn default_order_is_empty_and_stamped_by_the_clock() {
    let o = Order::default();
    assert_eq!(o.id, OrderId::default());
    assert_eq!(o.user, 0);
    assert_eq!(o.symbol, Symbol::new());
    assert_eq!(o.side, OrderSide::Buy);
    assert_eq!(o.price, 0);
    assert_eq!(o.quantity, 0);
    assert!(o.update.sec > 1_000_000_000);
    assert!(o.update.nsec >= 0 && o.update.nsec < 1_000_000_000);
    let at = OrderTime { sec: 3, nsec: 4 };
    assert_eq!(Order::default_at(at).update, at);
}

#[test]
fn orders_are_equal_when_their_ids_are() {
    let at = OrderTime { sec: 3, nsec: 4 };
    let mut a = Order::default_at(at);
    let mut b = Order::default_at(at);
    a.id = OrderId::new(1, OrderSide::Buy, 1).unwrap();
    b.id = OrderId::new(1, OrderSide::Buy, 1).unwrap();
    b.quantity = 9;
    assert!(a == b);
    b.id = OrderId::new(1, OrderSide::Buy, 2).unwrap();
    assert!(a != b);
}

#[test]
fn depth_side_holds_five_levels() {
    let levels: Vec<MdEntry> =
        (1..=7u64).map(|i| MdEntry { price: 100 - i, quantity: i * 10 }).collect();
    let side = L2MdSide::from(levels.clone());
    assert_eq!(side.n_entry, L2_MD_DEPTH);
    assert_eq!(side.iter(), levels[..5].to_vec());
    assert_eq!(side.entries[4], MdEntry { price: 95, quantity: 50 });
    let short = L2MdSide::from(levels[..2].to_vec());
    assert_eq!(short.n_entry, 2);
    assert_eq!(short.iter(), levels[..2].to_vec());
    assert_eq!(short.entries[2], MdEntry { price: 0, quantity: 0 });
    let none = L2MdSide::from(Vec::new());
    assert_eq!(none.n_entry, 0);
    assert!(none.iter().is_empty());
    assert_eq!(MdEntry::default(), MdEntry { price: 0, quantity: 0 });
}

#[test]
fn error_keeps_code_and_description() {
    let e = Error::new(ErrorCode::DuplicateId, "seen before".to_string());
    assert_eq!(e.code(), ErrorCode::DuplicateId);
    assert_eq!(e.description(), "seen before");
}

#[test]
fn sides_are_opposite_to_each_other() {
    assert_eq!(OrderSide::Buy.opposite(), OrderSide::Sell);
    assert_eq!(OrderSide::Sell.opposite(), OrderSide::Buy);
    assert_eq!(OrderSide::default(), OrderSide::Buy);
}

#[test]
fn ids_print_as_their_number() {
    assert_eq!(TradingId::from_raw(0).to_string(), "0");
    assert_eq!(TradingId::from_raw(9).to_string(), "9");
    assert_eq!(TradingId::from_raw(10).to_string(), "10");
    assert_eq!(TradingId::from_raw(u64::MAX).to_string(), "18446744073709551615");
    let order = OrderId::new(1, OrderSide::Buy, 5).unwrap();
    assert_eq!(order.to_string(), format!("{}", order.raw()));
    let exec = ExecutionId::new(1, 5).unwrap();
    assert_eq!(exec.to_string(), format!("{}", exec.raw()));
}

#[test]
fn errors_orders_and_executions_print_their_fields() {
    let e = Error::new(ErrorCode::Other, "invalid symbol".to_string());
    assert_eq!(e.to_string(), "Other: invalid symbol");
    assert_eq!(ErrorCode::Success.as_str(), "Success");
    assert_eq!(ErrorCode::DuplicateId.as_str(), "DuplicateId");
    assert_eq!(Symbol::from_str("FB").unwrap().to_string(), "FB");
    let mut o = Order::default_at(OrderTime { sec: 0, nsec: 0 });
    o.id = OrderId::new(0, OrderSide::Sell, 12).unwrap();
    o.side = OrderSide::Sell;
    o.symbol = Symbol::from_str("GOOG").unwrap();
    o.price = 500;
    o.quantity = 1000;
    assert_eq!(o.to_string(), "Order 12: Sell 1000 shares of GOOG @ 500");
    let x = libcix::order::trade_types::Execution {
        id: ExecutionId::from_raw((1u64 << 40) | 3).unwrap(),
        ts: OrderTime { sec: 0, nsec: 0 },
        buy_order: OrderId::from_raw((2u64 << 40) | 7).unwrap(),
        buy_user: 1,
        sell_order: o.id,
        sell_user: 2,
        symbol: o.symbol,
        price: 499,
        quantity: 20,
    };
    assert_eq!(
        x.to_string(),
        format!(
            "Execution {}: {} bought 20 shares of GOOG from 12 @ 499",
            (1u64 << 40) | 3,
            (2u64 << 40) | 7
        )
    );
}

#[test]
fn uuid_is_read_from_sixteen_bytes() {
    let bytes: Vec<u8> = (1..=16).collect();
    let id = libcix::order::trade_types::read_uuid(&bytes).unwrap();
    assert_eq!(id.to_vec(), bytes);
    assert_eq!(uuid::Uuid::from_bytes(id).as_bytes().to_vec(), bytes);
    let short = libcix::order::trade_types::read_uuid(&bytes[..15]).err().unwrap();
    assert_eq!(short.code(), ErrorCode::Other);
    assert_eq!(short.description(), "invalid byte length 15");
    let empty = libcix::order::trade_types::read_uuid(&[]).err().unwrap();
    assert_eq!(empty.description(), "invalid byte length 0");
    let long = libcix::order::trade_types::read_uuid(&[0u8; 17]).err().unwrap();
    assert_eq!(long.description(), "invalid byte length 17");
}
