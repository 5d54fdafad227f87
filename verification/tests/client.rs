use libcix::client::{parse_line, parse_side, upper, ClientCommand, ClientError};
use libcix::order::trade_types::{OrderSide, Symbol};

#[test]
fn new_order_line_has_symbol_side_quantity_and_price() {
    match parse_line(b"GOOG buy 1000 500\n").unwrap() {
        ClientCommand::NewOrder { symbol, side, quantity, price } => {
            assert_eq!(symbol, Symbol::from_str("GOOG").unwrap());
            assert_eq!(side, OrderSide::Buy);
            assert_eq!(quantity, 1000);
            assert_eq!(price, 500);
        }
        other => panic!("unexpected command {:?}", other),
    }
    match parse_line(b"  FB\tS  4294967295   18446744073709551615  ").unwrap() {
        ClientCommand::NewOrder { symbol, side, quantity, price } => {
            assert_eq!(symbol, Symbol::from_str("FB").unwrap());
            assert_eq!(side, OrderSide::Sell);
            assert_eq!(quantity, u32::MAX);
            assert_eq!(price, u64::MAX);
        }
        other => panic!("unexpected command {:?}", other),
    }
}

#[test]
fn cancel_and_open_orders_lines_are_told_by_their_first_field() {
    assert!(matches!(parse_line(b"CANCEL 3"), Ok(ClientCommand::Cancel { order_ix: 3 })));
    assert!(matches!(parse_line(b"cancel 0"), Ok(ClientCommand::Cancel { order_ix: 0 })));
    assert!(matches!(parse_line(b"open_orders"), Ok(ClientCommand::OpenOrders)));
    assert!(matches!(parse_line(b"OPEN_ORDERS now please"), Ok(ClientCommand::OpenOrders)));
}

#[test]
fn lines_that_ask_for_nothing_are_told_apart() {
    assert_eq!(parse_line(b"").err(), Some(ClientError::Empty));
    assert_eq!(parse_line(b" \t\r\n").err(), Some(ClientError::Empty));
    assert_eq!(parse_line(b"CANCEL").err(), Some(ClientError::FieldCount));
    assert_eq!(parse_line(b"CANCEL 1 2").err(), Some(ClientError::FieldCount));
    assert_eq!(parse_line(b"CANCEL x").err(), Some(ClientError::InvalidIndex));
    assert_eq!(parse_line(b"CANCEL -1").err(), Some(ClientError::InvalidIndex));
    assert_eq!(parse_line(b"GOOG B 1").err(), Some(ClientError::FieldCount));
    assert_eq!(parse_line(b"GOOG B 1 2 3").err(), Some(ClientError::FieldCount));
    assert_eq!(parse_line(b"ALPHABETS B 1 2").err(), Some(ClientError::InvalidSymbol));
    assert_eq!(parse_line(b"GOOG HOLD 1 2").err(), Some(ClientError::InvalidSide));
    assert_eq!(parse_line(b"GOOG B 4294967296 2").err(), Some(ClientError::InvalidQuantity));
    assert_eq!(parse_line(b"GOOG B 1.5 2").err(), Some(ClientError::InvalidQuantity));
    assert_eq!(
        parse_line(b"GOOG B 1 18446744073709551616").err(),
        Some(ClientError::InvalidPrice)
    );
    assert_eq!(parse_line(b"GOOG B 1 five").err(), Some(ClientError::InvalidPrice));
}

#[test]
fn side_is_named_by_letter_or_word_in_any_case() {
    assert_eq!(parse_side(b"b"), Some(OrderSide::Buy));
    assert_eq!(parse_side(b"Buy"), Some(OrderSide::Buy));
    assert_eq!(parse_side(b"S"), Some(OrderSide::Sell));
    assert_eq!(parse_side(b"sElL"), Some(OrderSide::Sell));
    assert_eq!(parse_side(b"BU"), None);
    assert_eq!(parse_side(b""), None);
    assert_eq!(upper(b'a'), b'A');
    assert_eq!(upper(b'z'), b'Z');
    assert_eq!(upper(b'A'), b'A');
    assert_eq!(upper(b'_'), b'_');
    assert_eq!(upper(b'{'), b'{');
}
