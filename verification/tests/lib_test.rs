use libcix::order::trade_types::SYMBOL_MAX_LENGTH;

#[test]
fn it_works() {
    assert_eq!(SYMBOL_MAX_LENGTH, 8);
}
