//! The lines that a trader types at the command-line client, and the
//! requests that they stand for.

use crate::order::trade_types::{padded, OrderSide, Price, Quantity, Symbol, SYMBOL_MAX_LENGTH};
use crate::text::{parse_decimal, spec_parse_decimal};
use vstd::prelude::*;
use vstd::slice::slice_subrange;

verus! {

/// What a line asks for.
#[derive(Clone, Copy, Debug)]
pub enum ClientCommand {
    /// A new order. The line has four fields: symbol, side, quantity,
    /// price.
    NewOrder { symbol: Symbol, side: OrderSide, quantity: Quantity, price: Price },
    /// The cancel of the order that the client placed as its `order_ix`th.
    /// The line is `CANCEL` and the number.
    Cancel { order_ix: usize },
    /// The open orders of the user. The line starts with `OPEN_ORDERS`.
    OpenOrders,
}

/// Why a line asks for nothing.
#[derive(Clone, Copy, Debug, PartialEq, Eq, Structural)]
pub enum ClientError {
    /// The line has no field.
    Empty,
    /// The line has too few or too many fields.
    FieldCount,
    /// The symbol is longer than 8 bytes.
    InvalidSymbol,
    /// The side is none of `B`, `BUY`, `S`, `SELL`.
    InvalidSide,
    /// The quantity is no number of 32 bits.
    InvalidQuantity,
    /// The price is no number of 64 bits.
    InvalidPrice,
    /// The number of the order is no number.
    InvalidIndex,
}

/// Whether `b` separates fields: a blank, a tab, a line feed, a vertical
/// tab, a form feed or a carriage return.
pub open spec fn is_space(b: u8) -> bool {
    b == 32 || (9 <= b <= 13)
}

/// The place of the first byte of `s` at or behind `from` that is no
/// separator; the length of `s` where there is none.
pub open spec fn field_start(s: Seq<u8>, from: int) -> int
    decreases s.len() - from,
{
    if 0 <= from < s.len() && is_space(s[from]) {
        field_start(s, from + 1)
    } else {
        from
    }
}

/// The place of the first separator of `s` at or behind `from`; the length
/// of `s` where there is none.
pub open spec fn field_end(s: Seq<u8>, from: int) -> int
    decreases s.len() - from,
{
    if 0 <= from < s.len() && !is_space(s[from]) {
        field_end(s, from + 1)
    } else {
        from
    }
}

/// The place behind the `k`th field of `s`, counted from 1; 0 for `k == 0`.
pub open spec fn behind_field(s: Seq<u8>, k: nat) -> int
    decreases k,
{
    if k == 0 {
        0
    } else {
        field_end(s, field_start(s, behind_field(s, (k - 1) as nat)))
    }
}

/// The `k`th field of `s`, counted from 0; empty where `s` has no such
/// field.
pub open spec fn field(s: Seq<u8>, k: nat) -> Seq<u8> {
    s.subrange(field_start(s, behind_field(s, k)), behind_field(s, k + 1))
}

/// The capital of the letter `b`; `b` itself where it is no small letter.
pub open spec fn spec_upper(b: u8) -> u8 {
    if 97 <= b <= 122 {
        (b - 32) as u8
    } else {
        b
    }
}

/// Whether `token` is `word` but for the case of its letters; `word` is in
/// capitals.
pub open spec fn spells(token: Seq<u8>, word: Seq<u8>) -> bool {
    token.len() == word.len() && forall|i: int|
        0 <= i < token.len() ==> spec_upper(#[trigger] token[i]) == word[i]
}

pub open spec fn word_cancel() -> Seq<u8> {
    seq![67u8, 65u8, 78u8, 67u8, 69u8, 76u8]
}

pub open spec fn word_open_orders() -> Seq<u8> {
    seq![79u8, 80u8, 69u8, 78u8, 95u8, 79u8, 82u8, 68u8, 69u8, 82u8, 83u8]
}

pub open spec fn word_b() -> Seq<u8> {
    seq![66u8]
}

pub open spec fn word_buy() -> Seq<u8> {
    seq![66u8, 85u8, 89u8]
}

pub open spec fn word_s() -> Seq<u8> {
    seq![83u8]
}

pub open spec fn word_sell() -> Seq<u8> {
    seq![83u8, 69u8, 76u8, 76u8]
}

/// The side that `token` names.
pub open spec fn spec_side(token: Seq<u8>) -> Option<OrderSide> {
    if spells(token, word_b()) || spells(token, word_buy()) {
        Some(OrderSide::Buy)
    } else if spells(token, word_s()) || spells(token, word_sell()) {
        Some(OrderSide::Sell)
    } else {
        None
    }
}

/// Whether `r` is what the line `s` asks for.
///
/// A line whose first field spells `CANCEL` has to have one more field,
/// the number of the order. A line whose first field spells `OPEN_ORDERS`
/// asks for the open orders. Any other line has to have four fields:
/// symbol, side, quantity and price.
pub open spec fn parsed(s: Seq<u8>, r: Result<ClientCommand, ClientError>) -> bool {
    let n = s.len() as int;
    if field(s, 0).len() == 0 {
        r == Err::<ClientCommand, ClientError>(ClientError::Empty)
    } else if spells(field(s, 0), word_cancel()) {
        if field(s, 1).len() == 0 || field(s, 2).len() > 0 {
            r == Err::<ClientCommand, ClientError>(ClientError::FieldCount)
        } else {
            match spec_parse_decimal(field(s, 1), usize::MAX as nat) {
                None => r == Err::<ClientCommand, ClientError>(ClientError::InvalidIndex),
                Some(ix) => r == Ok::<ClientCommand, ClientError>(
                    ClientCommand::Cancel { order_ix: ix as usize },
                ),
            }
        }
    } else if spells(field(s, 0), word_open_orders()) {
        r == Ok::<ClientCommand, ClientError>(ClientCommand::OpenOrders)
    } else if field(s, 3).len() == 0 || field(s, 4).len() > 0 {
        r == Err::<ClientCommand, ClientError>(ClientError::FieldCount)
    } else if field(s, 0).len() > SYMBOL_MAX_LENGTH {
        r == Err::<ClientCommand, ClientError>(ClientError::InvalidSymbol)
    } else if spec_side(field(s, 1)) is None {
        r == Err::<ClientCommand, ClientError>(ClientError::InvalidSide)
    } else if spec_parse_decimal(field(s, 2), u32::MAX as nat) is None {
        r == Err::<ClientCommand, ClientError>(ClientError::InvalidQuantity)
    } else if spec_parse_decimal(field(s, 3), u64::MAX as nat) is None {
        r == Err::<ClientCommand, ClientError>(ClientError::InvalidPrice)
    } else {
        &&& r matches Ok(ClientCommand::NewOrder { symbol, side, quantity, price })
        &&& symbol@ == padded(field(s, 0))
        &&& Some(side) == spec_side(field(s, 1))
        &&& Some(quantity as nat) == spec_parse_decimal(field(s, 2), u32::MAX as nat)
        &&& Some(price as nat) == spec_parse_decimal(field(s, 3), u64::MAX as nat)
    }
}

/// The place of the first byte at or behind `from` that is no separator.
fn skip_spaces(line: &[u8], from: usize) -> (at: usize)
    requires
        from <= line@.len(),
    ensures
        at == field_start(line@, from as int),
        from <= at <= line@.len(),
{
    let mut at: usize = from;
    while at < line.len() && is_space_byte(line[at])
        invariant
            from <= at <= line@.len(),
            field_start(line@, from as int) == field_start(line@, at as int),
        decreases line@.len() - at,
    {
        at += 1;
    }
    at
}

/// The place of the first separator at or behind `from`.
fn skip_field(line: &[u8], from: usize) -> (at: usize)
    requires
        from <= line@.len(),
    ensures
        at == field_end(line@, from as int),
        from <= at <= line@.len(),
{
    let mut at: usize = from;
    while at < line.len() && !is_space_byte(line[at])
        invariant
            from <= at <= line@.len(),
            field_end(line@, from as int) == field_end(line@, at as int),
        decreases line@.len() - at,
    {
        at += 1;
    }
    at
}

fn is_space_byte(b: u8) -> (r: bool)
    ensures
        r == is_space(b),
{
    b == 32 || (9 <= b && b <= 13)
}

/// The capital of the letter `b`.
#[verifier::when_used_as_spec(spec_upper)]
pub fn upper(b: u8) -> (r: u8)
    ensures
        r == spec_upper(b),
{
    if 97 <= b && b <= 122 {
        b - 32
    } else {
        b
    }
}

/// Whether `token` is `word` but for the case of its letters.
fn spells_word(token: &[u8], word: &[u8]) -> (r: bool)
    ensures
        r == spells(token@, word@),
{
    if token.len() != word.len() {
        return false;
    }
    let mut i: usize = 0;
    while i < token.len()
        invariant
            i <= token@.len(),
            token@.len() == word@.len(),
            forall|k: int| 0 <= k < i ==> spec_upper(#[trigger] token@[k]) == word@[k],
        decreases token@.len() - i,
    {
        if upper(token[i]) != word[i] {
            return false;
        }
        i += 1;
    }
    true
}

/// The side that `token` names.
pub fn parse_side(token: &[u8]) -> (r: Option<OrderSide>)
    ensures
        r == spec_side(token@),
{
    let b: [u8; 1] = [66];
    let buy: [u8; 3] = [66, 85, 89];
    let s: [u8; 1] = [83];
    let sell: [u8; 4] = [83, 69, 76, 76];
    assert(b@ =~= word_b());
    assert(buy@ =~= word_buy());
    assert(s@ =~= word_s());
    assert(sell@ =~= word_sell());
    if spells_word(token, b.as_slice()) || spells_word(token, buy.as_slice()) {
        Some(OrderSide::Buy)
    } else if spells_word(token, s.as_slice()) || spells_word(token, sell.as_slice()) {
        Some(OrderSide::Sell)
    } else {
        None
    }
}

/// What the line `line` asks for.
pub fn parse_line(line: &[u8]) -> (r: Result<ClientCommand, ClientError>)
    ensures
        parsed(line@, r),
{
    let ghost s = line@;
    proof {
        reveal_with_fuel(behind_field, 6);
    }
    let a0: usize = skip_spaces(line, 0);
    let b0: usize = skip_field(line, a0);
    let a1: usize = skip_spaces(line, b0);
    let b1: usize = skip_field(line, a1);
    let a2: usize = skip_spaces(line, b1);
    let b2: usize = skip_field(line, a2);
    let a3: usize = skip_spaces(line, b2);
    let b3: usize = skip_field(line, a3);
    let a4: usize = skip_spaces(line, b3);
    let b4: usize = skip_field(line, a4);
    let f0: &[u8] = slice_subrange(line, a0, b0);
    let f1: &[u8] = slice_subrange(line, a1, b1);
    let f2: &[u8] = slice_subrange(line, a2, b2);
    let f3: &[u8] = slice_subrange(line, a3, b3);
    assert(f0@ == field(s, 0));
    assert(f1@ == field(s, 1));
    assert(f2@ == field(s, 2));
    assert(f3@ == field(s, 3));
    assert(b4 - a4 == field(s, 4).len());
    if f0.len() == 0 {
        return Err(ClientError::Empty);
    }
    let cancel: [u8; 6] = [67, 65, 78, 67, 69, 76];
    let open_orders: [u8; 11] = [79, 80, 69, 78, 95, 79, 82, 68, 69, 82, 83];
    assert(cancel@ =~= word_cancel());
    assert(open_orders@ =~= word_open_orders());
    if spells_word(f0, cancel.as_slice()) {
        if f1.len() == 0 || f2.len() > 0 {
            return Err(ClientError::FieldCount);
        }
        return match parse_decimal(f1, usize::MAX as u64) {
            Some(ix) => Ok(ClientCommand::Cancel { order_ix: ix as usize }),
            None => Err(ClientError::InvalidIndex),
        };
    }
    if spells_word(f0, open_orders.as_slice()) {
        return Ok(ClientCommand::OpenOrders);
    }
    if f3.len() == 0 || b4 - a4 > 0 {
        return Err(ClientError::FieldCount);
    }
    let symbol: Symbol = match Symbol::from_bytes(f0) {
        Ok(symbol) => symbol,
        Err(_) => {
            return Err(ClientError::InvalidSymbol);
        },
    };
    let side: OrderSide = match parse_side(f1) {
        Some(side) => side,
        None => {
            return Err(ClientError::InvalidSide);
        },
    };
    let quantity: u32 = match parse_decimal(f2, 0xFFFF_FFFF) {
        Some(q) => q as u32,
        None => {
            return Err(ClientError::InvalidQuantity);
        },
    };
    let price: u64 = match parse_decimal(f3, u64::MAX) {
        Some(p) => p,
        None => {
            return Err(ClientError::InvalidPrice);
        },
    };
    Ok(ClientCommand::NewOrder { symbol, side, quantity, price })
}

} // verus!
