//! The write-ahead log: how a command is laid out in bytes, how a segment
//! takes and gives back commands, and how the log moves on to the next
//! segment.

use crate::messages::{
    CancelOrderMessage, EngineMessage, NewOrderMessage, OpenOrdersSequence,
};
use crate::order::trade_types::{raw_is_order, OrderId, OrderSide, Symbol};
use crate::text::{decimal, lemma_decimal, parse_decimal, push_decimal, spec_parse_decimal};
use vstd::prelude::*;
use vstd::slice::slice_subrange;

verus! {

/// The 4 bytes of `x`, low byte first.
pub open spec fn le32(x: u32) -> Seq<u8> {
    seq![
        (x % 256) as u8,
        ((x / 256) % 256) as u8,
        ((x / 65536) % 256) as u8,
        (x / 16777216) as u8,
    ]
}

/// The number whose 4 bytes `s` are, low byte first.
pub open spec fn from_le32(s: Seq<u8>) -> u32 {
    (s[0] + 256 * s[1] + 65536 * s[2] + 16777216 * s[3]) as u32
}

/// The 8 bytes of `x`, low byte first.
pub open spec fn le64(x: u64) -> Seq<u8> {
    le32((x % 0x1_0000_0000) as u32) + le32((x / 0x1_0000_0000) as u32)
}

/// The number whose 8 bytes `s` are, low byte first.
pub open spec fn from_le64(s: Seq<u8>) -> u64 {
    (from_le32(s.subrange(0, 4)) + 0x1_0000_0000 * from_le32(s.subrange(4, 8))) as u64
}

/// A number is read back from its 4 bytes.
pub proof fn lemma_le32_of(x: u32)
    ensures
        le32(x).len() == 4,
        from_le32(le32(x)) == x,
{
}

/// 4 bytes are the bytes of the number that they read as.
pub proof fn lemma_le32_from(s: Seq<u8>)
    requires
        s.len() == 4,
    ensures
        le32(from_le32(s)) == s,
{
    let a = s[0] as int;
    let b = s[1] as int;
    let c = s[2] as int;
    let d = s[3] as int;
    let x = from_le32(s) as int;
    assert(x == a + 256 * b + 65536 * c + 16777216 * d);
    vstd::arithmetic::div_mod::lemma_fundamental_div_mod_converse(
        x,
        256,
        b + 256 * c + 65536 * d,
        a,
    );
    vstd::arithmetic::div_mod::lemma_fundamental_div_mod_converse(x, 65536, c + 256 * d, a + 256 * b);
    vstd::arithmetic::div_mod::lemma_fundamental_div_mod_converse(
        x,
        16777216,
        d,
        a + 256 * b + 65536 * c,
    );
    vstd::arithmetic::div_mod::lemma_fundamental_div_mod_converse(x / 256, 256, c + 256 * d, b);
    vstd::arithmetic::div_mod::lemma_fundamental_div_mod_converse(x / 65536, 256, d, c);
    assert(le32(from_le32(s)) =~= s);
}

/// A number is read back from its 8 bytes.
pub proof fn lemma_le64_of(x: u64)
    ensures
        le64(x).len() == 8,
        from_le64(le64(x)) == x,
{
    let lo = (x % 0x1_0000_0000) as u32;
    let hi = (x / 0x1_0000_0000) as u32;
    lemma_le32_of(lo);
    lemma_le32_of(hi);
    assert(le64(x).subrange(0, 4) =~= le32(lo));
    assert(le64(x).subrange(4, 8) =~= le32(hi));
}

/// 8 bytes are the bytes of the number that they read as.
pub proof fn lemma_le64_from(s: Seq<u8>)
    requires
        s.len() == 8,
    ensures
        le64(from_le64(s)) == s,
{
    let lo = from_le32(s.subrange(0, 4));
    let hi = from_le32(s.subrange(4, 8));
    lemma_le32_from(s.subrange(0, 4));
    lemma_le32_from(s.subrange(4, 8));
    let x = from_le64(s);
    assert(x == lo + 0x1_0000_0000 * hi);
    assert((x % 0x1_0000_0000) as u32 == lo);
    assert((x / 0x1_0000_0000) as u32 == hi);
    assert(le64(x) =~= s.subrange(0, 4) + s.subrange(4, 8));
    assert(s.subrange(0, 4) + s.subrange(4, 8) =~= s);
}

/// A number is read back from its 4 bytes, and 4 bytes from their number.
pub proof fn lemma_le32()
    ensures
        forall|x: u32| #[trigger] le32(x).len() == 4 && from_le32(le32(x)) == x,
        forall|s: Seq<u8>| s.len() == 4 ==> #[trigger] le32(from_le32(s)) == s,
{
    assert forall|x: u32| #[trigger] le32(x).len() == 4 && from_le32(le32(x)) == x by {
        lemma_le32_of(x);
    }
    assert forall|s: Seq<u8>| s.len() == 4 implies #[trigger] le32(from_le32(s)) == s by {
        lemma_le32_from(s);
    }
}

/// A number is read back from its 8 bytes, and 8 bytes from their number.
pub proof fn lemma_le64()
    ensures
        forall|x: u64| #[trigger] le64(x).len() == 8 && from_le64(le64(x)) == x,
        forall|s: Seq<u8>| s.len() == 8 ==> #[trigger] le64(from_le64(s)) == s,
{
    assert forall|x: u64| #[trigger] le64(x).len() == 8 && from_le64(le64(x)) == x by {
        lemma_le64_of(x);
    }
    assert forall|s: Seq<u8>| s.len() == 8 implies #[trigger] le64(from_le64(s)) == s by {
        lemma_le64_from(s);
    }
}

/// Adds the 4 bytes of `x` to `out`.
fn put_u32(out: &mut Vec<u8>, x: u32)
    ensures
        final(out)@ == old(out)@ + le32(x),
{
    out.push((x % 256) as u8);
    out.push(((x / 256) % 256) as u8);
    out.push(((x / 65536) % 256) as u8);
    out.push((x / 16777216) as u8);
    assert(out@ =~= old(out)@ + le32(x));
}

/// Adds the 8 bytes of `x` to `out`.
fn put_u64(out: &mut Vec<u8>, x: u64)
    ensures
        final(out)@ == old(out)@ + le64(x),
{
    put_u32(out, (x % 0x1_0000_0000) as u32);
    put_u32(out, (x / 0x1_0000_0000) as u32);
    assert(out@ =~= old(out)@ + le64(x));
}

/// The number in the 4 bytes of `bytes` from `at` on.
fn get_u32(bytes: &[u8], at: usize) -> (x: u32)
    requires
        at + 4 <= bytes@.len(),
    ensures
        x == u32_at(bytes@, at as int),
{
    let b0: u32 = bytes[at] as u32;
    let b1: u32 = bytes[at + 1] as u32;
    let b2: u32 = bytes[at + 2] as u32;
    let b3: u32 = bytes[at + 3] as u32;
    b0 + 256 * b1 + 65536 * b2 + 16777216 * b3
}

/// The number in the 8 bytes of `bytes` from `at` on.
fn get_u64(bytes: &[u8], at: usize) -> (x: u64)
    requires
        at + 8 <= bytes@.len(),
    ensures
        x == u64_at(bytes@, at as int),
{
    let len: usize = bytes.len();
    let lo: u64 = get_u32(bytes, at) as u64;
    let hi: u64 = get_u32(bytes, at + 4) as u64;
    proof {
        let s = bytes@.subrange(at as int, at + 8);
        assert(s.subrange(0, 4) =~= bytes@.subrange(at as int, at + 4));
        assert(s.subrange(4, 8) =~= bytes@.subrange(at + 4, at + 8));
    }
    lo + 0x1_0000_0000 * hi
}

pub const TAG_NULL: u32 = 0;

pub const TAG_NEW_ORDER: u32 = 1;

pub const TAG_CANCEL_ORDER: u32 = 2;

pub const TAG_SERIALIZATION: u32 = 3;

pub const TAG_OPEN_ORDERS: u32 = 4;

/// Why a stretch of bytes does not read as a command.
#[derive(Clone, Copy, Debug, PartialEq, Eq, Structural)]
pub enum DecodeError {
    /// The bytes end before the record does.
    Truncated,
    /// The record starts with a tag that stands for no command.
    BadTag,
    /// The record holds an identifier that names no order.
    BadOrderId,
    /// The record holds a side that is neither buy nor sell.
    BadSide,
}

/// The number that stands for a side in a record.
pub open spec fn side_tag(side: OrderSide) -> u32 {
    match side {
        OrderSide::Buy => 0,
        OrderSide::Sell => 1,
    }
}

/// The tag that a record of `m` starts with.
pub open spec fn tag_of(m: EngineMessage) -> u32 {
    match m {
        EngineMessage::NullMessage => TAG_NULL,
        EngineMessage::NewOrder(_) => TAG_NEW_ORDER,
        EngineMessage::CancelOrder(_) => TAG_CANCEL_ORDER,
        EngineMessage::SerializationMessage(_) => TAG_SERIALIZATION,
        EngineMessage::GetOpenOrdersMessaage(_) => TAG_OPEN_ORDERS,
    }
}

/// The length of a record with the tag `tag`.
pub open spec fn record_len(tag: u32) -> nat {
    if tag == TAG_NULL {
        4
    } else if tag == TAG_NEW_ORDER {
        44
    } else if tag == TAG_CANCEL_ORDER {
        20
    } else if tag == TAG_SERIALIZATION {
        8
    } else {
        16
    }
}

/// The record of `m`: the tag and then the fields in their order, every
/// number with its low byte first, a symbol as its 8 bytes.
pub open spec fn spec_encode(m: EngineMessage) -> Seq<u8> {
    match m {
        EngineMessage::NullMessage => le32(TAG_NULL),
        EngineMessage::NewOrder(n) => le32(TAG_NEW_ORDER) + le64(
            n.user,
        ) + le64(n.order_id.spec_raw()) + n.symbol@ + le32(
            side_tag(n.side),
        ) + le64(n.price) + le32(n.quantity),
        EngineMessage::CancelOrder(c) => le32(TAG_CANCEL_ORDER)
            + le64(c.user) + le64(c.order_id.spec_raw()),
        EngineMessage::SerializationMessage(seq) => le32(TAG_SERIALIZATION)
            + le32(seq),
        EngineMessage::GetOpenOrdersMessaage(q) => le32(TAG_OPEN_ORDERS)
            + le64(q.user) + le32(q.seq),
    }
}

/// Whether the identifiers in `m` name orders.
pub open spec fn well_formed(m: EngineMessage) -> bool {
    match m {
        EngineMessage::NewOrder(n) => raw_is_order(n.order_id.spec_raw()),
        EngineMessage::CancelOrder(c) => raw_is_order(c.order_id.spec_raw()),
        _ => true,
    }
}

/// The number read from the 4 bytes of `bytes` from `at` on.
pub open spec fn u32_at(bytes: Seq<u8>, at: int) -> u32 {
    from_le32(bytes.subrange(at, at + 4))
}

/// The number read from the 8 bytes of `bytes` from `at` on.
pub open spec fn u64_at(bytes: Seq<u8>, at: int) -> u64 {
    from_le64(bytes.subrange(at, at + 8))
}

/// How `bytes` read: the length of the record that they start with, or why
/// they start with none.
pub open spec fn classify(bytes: Seq<u8>) -> Result<nat, DecodeError> {
    if bytes.len() < 4 {
        Err(DecodeError::Truncated)
    } else if u32_at(bytes, 0) > TAG_OPEN_ORDERS {
        Err(DecodeError::BadTag)
    } else if bytes.len() < record_len(u32_at(bytes, 0)) {
        Err(DecodeError::Truncated)
    } else if (u32_at(bytes, 0) == TAG_NEW_ORDER || u32_at(bytes, 0) == TAG_CANCEL_ORDER)
        && !raw_is_order(u64_at(bytes, 12)) {
        Err(DecodeError::BadOrderId)
    } else if u32_at(bytes, 0) == TAG_NEW_ORDER && u32_at(bytes, 28) > 1 {
        Err(DecodeError::BadSide)
    } else {
        Ok(record_len(u32_at(bytes, 0)))
    }
}

/// What reading a command from `bytes` comes to: the command whose record
/// `bytes` start with and the length of that record, or why they start with
/// none.
pub open spec fn decoded(bytes: Seq<u8>, r: Result<(EngineMessage, usize), DecodeError>) -> bool {
    match r {
        Ok((m, n)) => {
            &&& classify(bytes) == Ok::<nat, DecodeError>(n as nat)
            &&& well_formed(m)
            &&& bytes.subrange(0, n as int) == spec_encode(m)
        },
        Err(e) => classify(bytes) == Err::<nat, DecodeError>(e),
    }
}

/// A record is as long as its tag says.
pub proof fn lemma_encode_len(m: EngineMessage)
    ensures
        spec_encode(m).len() == record_len(tag_of(m)),
        spec_encode(m).len() >= 4,
        u32_at(spec_encode(m), 0) == tag_of(m),
{
    lemma_le32();
    lemma_le64();
    assert(spec_encode(m).subrange(0, 4) =~= le32(tag_of(m)));
}

/// The fields of a new-order record are where the layout puts them.
proof fn lemma_new_order_fields(n: NewOrderMessage)
    ensures
        ({
            let b = spec_encode(EngineMessage::NewOrder(n));
            &&& b.len() == 44
            &&& b.subrange(0, 4) == le32(TAG_NEW_ORDER)
            &&& b.subrange(4, 12) == le64(n.user)
            &&& b.subrange(12, 20) == le64(n.order_id.spec_raw())
            &&& b.subrange(20, 28) == n.symbol@
            &&& b.subrange(28, 32) == le32(side_tag(n.side))
            &&& b.subrange(32, 40) == le64(n.price)
            &&& b.subrange(40, 44) == le32(n.quantity)
        }),
{
    lemma_le32();
    lemma_le64();
    let b = spec_encode(EngineMessage::NewOrder(n));
    assert(n.symbol@.len() == 8);
    assert(b.subrange(0, 4) =~= le32(TAG_NEW_ORDER));
    assert(b.subrange(4, 12) =~= le64(n.user));
    assert(b.subrange(12, 20) =~= le64(n.order_id.spec_raw()));
    assert(b.subrange(20, 28) =~= n.symbol@);
    assert(b.subrange(28, 32) =~= le32(side_tag(n.side)));
    assert(b.subrange(32, 40) =~= le64(n.price));
    assert(b.subrange(40, 44) =~= le32(n.quantity));
}

/// The fields of a cancel record are where the layout puts them.
proof fn lemma_cancel_fields(c: CancelOrderMessage)
    ensures
        ({
            let b = spec_encode(EngineMessage::CancelOrder(c));
            &&& b.len() == 20
            &&& b.subrange(0, 4) == le32(TAG_CANCEL_ORDER)
            &&& b.subrange(4, 12) == le64(c.user)
            &&& b.subrange(12, 20) == le64(c.order_id.spec_raw())
        }),
{
    lemma_le32();
    lemma_le64();
    let b = spec_encode(EngineMessage::CancelOrder(c));
    assert(b.subrange(0, 4) =~= le32(TAG_CANCEL_ORDER));
    assert(b.subrange(4, 12) =~= le64(c.user));
    assert(b.subrange(12, 20) =~= le64(c.order_id.spec_raw()));
}

/// The fields of an open-orders record are where the layout puts them.
proof fn lemma_open_orders_fields(q: OpenOrdersSequence)
    ensures
        ({
            let b = spec_encode(EngineMessage::GetOpenOrdersMessaage(q));
            &&& b.len() == 16
            &&& b.subrange(0, 4) == le32(TAG_OPEN_ORDERS)
            &&& b.subrange(4, 12) == le64(q.user)
            &&& b.subrange(12, 16) == le32(q.seq)
        }),
{
    lemma_le32();
    lemma_le64();
    let b = spec_encode(EngineMessage::GetOpenOrdersMessaage(q));
    assert(b.subrange(0, 4) =~= le32(TAG_OPEN_ORDERS));
    assert(b.subrange(4, 12) =~= le64(q.user));
    assert(b.subrange(12, 16) =~= le32(q.seq));
}

/// The fields of a serialization record are where the layout puts them.
proof fn lemma_serialization_fields(seq: u32)
    ensures
        ({
            let b = spec_encode(EngineMessage::SerializationMessage(seq));
            &&& b.len() == 8
            &&& b.subrange(0, 4) == le32(TAG_SERIALIZATION)
            &&& b.subrange(4, 8) == le32(seq)
        }),
{
    lemma_le32();
    let b = spec_encode(EngineMessage::SerializationMessage(seq));
    assert(b.subrange(0, 4) =~= le32(TAG_SERIALIZATION));
    assert(b.subrange(4, 8) =~= le32(seq));
}

/// Two commands with the same record are the same command.
pub proof fn lemma_encode_injective(a: EngineMessage, b: EngineMessage)
    requires
        spec_encode(a) == spec_encode(b),
    ensures
        a == b,
{
    lemma_le32();
    lemma_le64();
    lemma_encode_len(a);
    lemma_encode_len(b);
    match (a, b) {
        (EngineMessage::NewOrder(x), EngineMessage::NewOrder(y)) => {
            lemma_new_order_fields(x);
            lemma_new_order_fields(y);
            OrderId::lemma_raw_determines(x.order_id, y.order_id);
            Symbol::lemma_view_determines(x.symbol, y.symbol);
            assert(side_tag(x.side) == side_tag(y.side));
        },
        (EngineMessage::CancelOrder(x), EngineMessage::CancelOrder(y)) => {
            lemma_cancel_fields(x);
            lemma_cancel_fields(y);
            OrderId::lemma_raw_determines(x.order_id, y.order_id);
        },
        (EngineMessage::SerializationMessage(x), EngineMessage::SerializationMessage(y)) => {
            lemma_serialization_fields(x);
            lemma_serialization_fields(y);
        },
        (EngineMessage::GetOpenOrdersMessaage(x), EngineMessage::GetOpenOrdersMessaage(y)) => {
            lemma_open_orders_fields(x);
            lemma_open_orders_fields(y);
        },
        _ => {},
    }
}

/// Bytes that start with the record of a command read as a record of that
/// length.
pub proof fn lemma_classify_encoded(m: EngineMessage, rest: Seq<u8>)
    requires
        well_formed(m),
    ensures
        classify(spec_encode(m) + rest) == Ok::<nat, DecodeError>(spec_encode(m).len()),
{
    lemma_le32();
    lemma_le64();
    lemma_encode_len(m);
    let e = spec_encode(m);
    let b = e + rest;
    assert(b.subrange(0, 4) =~= e.subrange(0, 4));
    match m {
        EngineMessage::NewOrder(x) => {
            lemma_new_order_fields(x);
            assert(b.subrange(12, 20) =~= e.subrange(12, 20));
            assert(b.subrange(28, 32) =~= e.subrange(28, 32));
        },
        EngineMessage::CancelOrder(x) => {
            lemma_cancel_fields(x);
            assert(b.subrange(12, 20) =~= e.subrange(12, 20));
        },
        _ => {},
    }
}

/// Writing a command and reading it back gives the command: whatever
/// follows the record, the bytes read as the command that was written, over
/// the length of its record.
pub proof fn lemma_round_trip(
    m: EngineMessage,
    rest: Seq<u8>,
    r: Result<(EngineMessage, usize), DecodeError>,
)
    requires
        well_formed(m),
        decoded(spec_encode(m) + rest, r),
    ensures
        r matches Ok((d, n)) && d == m && n == spec_encode(m).len(),
{
    lemma_classify_encoded(m, rest);
    match r {
        Ok((d, n)) => {
            assert((spec_encode(m) + rest).subrange(0, n as int) =~= spec_encode(m));
            lemma_encode_injective(d, m);
        },
        Err(_) => {},
    }
}

/// The record of `entry`.
pub fn encode_message(entry: &EngineMessage) -> (bytes: Vec<u8>)
    ensures
        bytes@ == spec_encode(*entry),
        bytes@.len() == record_len(tag_of(*entry)),
{
    proof {
        lemma_encode_len(*entry);
    }
    let mut out: Vec<u8> = Vec::new();
    match entry {
        EngineMessage::NullMessage => {
            put_u32(&mut out, TAG_NULL);
        },
        EngineMessage::NewOrder(n) => {
            put_u32(&mut out, TAG_NEW_ORDER);
            put_u64(&mut out, n.user);
            put_u64(&mut out, n.order_id.raw());
            let mut symbol: Vec<u8> = vstd::slice::slice_to_vec(n.symbol.to_bytes());
            out.append(&mut symbol);
            let side: u32 = match n.side {
                OrderSide::Buy => 0,
                OrderSide::Sell => 1,
            };
            put_u32(&mut out, side);
            put_u64(&mut out, n.price);
            put_u32(&mut out, n.quantity);
        },
        EngineMessage::CancelOrder(c) => {
            put_u32(&mut out, TAG_CANCEL_ORDER);
            put_u64(&mut out, c.user);
            put_u64(&mut out, c.order_id.raw());
        },
        EngineMessage::SerializationMessage(seq) => {
            put_u32(&mut out, TAG_SERIALIZATION);
            put_u32(&mut out, *seq);
        },
        EngineMessage::GetOpenOrdersMessaage(q) => {
            put_u32(&mut out, TAG_OPEN_ORDERS);
            put_u64(&mut out, q.user);
            put_u32(&mut out, q.seq);
        },
    }
    assert(out@ =~= spec_encode(*entry));
    out
}

/// Reads the command that `bytes` start with, and the length of its
/// record.
pub fn decode_message(bytes: &[u8]) -> (r: Result<(EngineMessage, usize), DecodeError>)
    ensures
        decoded(bytes@, r),
{
    proof {
        lemma_le32();
        lemma_le64();
    }
    let len: usize = bytes.len();
    if len < 4 {
        return Err(DecodeError::Truncated);
    }
    let tag: u32 = get_u32(bytes, 0);
    if tag > TAG_OPEN_ORDERS {
        return Err(DecodeError::BadTag);
    }
    if tag == TAG_NULL {
        assert(bytes@.subrange(0, 4) == spec_encode(EngineMessage::NullMessage));
        return Ok((EngineMessage::NullMessage, 4));
    }
    if tag == TAG_NEW_ORDER {
        if len < 44 {
            return Err(DecodeError::Truncated);
        }
        let user: u64 = get_u64(bytes, 4);
        let raw: u64 = get_u64(bytes, 12);
        let order_id: OrderId = match OrderId::from_raw(raw) {
            Ok(id) => id,
            Err(_) => {
                return Err(DecodeError::BadOrderId);
            },
        };
        let symbol: Symbol = match Symbol::from_bytes(slice_subrange(bytes, 20, 28)) {
            Ok(s) => s,
            Err(_) => {
                return Err(DecodeError::Truncated);
            },
        };
        let side_number: u32 = get_u32(bytes, 28);
        if side_number > 1 {
            return Err(DecodeError::BadSide);
        }
        let side: OrderSide = if side_number == 0 {
            OrderSide::Buy
        } else {
            OrderSide::Sell
        };
        let price: u64 = get_u64(bytes, 32);
        let quantity: u32 = get_u32(bytes, 40);
        let n = NewOrderMessage { user, order_id, symbol, side, price, quantity };
        proof {
            lemma_new_order_fields(n);
            let b = bytes@;
            assert(symbol@ =~= b.subrange(20, 28));
            assert(b.subrange(0, 44) =~= b.subrange(0, 4) + b.subrange(4, 12) + b.subrange(
                12,
                20,
            ) + b.subrange(20, 28) + b.subrange(28, 32) + b.subrange(32, 40) + b.subrange(
                40,
                44,
            ));
        }
        return Ok((EngineMessage::NewOrder(n), 44));
    }
    if tag == TAG_CANCEL_ORDER {
        if len < 20 {
            return Err(DecodeError::Truncated);
        }
        let user: u64 = get_u64(bytes, 4);
        let raw: u64 = get_u64(bytes, 12);
        let order_id: OrderId = match OrderId::from_raw(raw) {
            Ok(id) => id,
            Err(_) => {
                return Err(DecodeError::BadOrderId);
            },
        };
        proof {
            let b = bytes@;
            assert(b.subrange(0, 20) =~= b.subrange(0, 4) + b.subrange(4, 12) + b.subrange(
                12,
                20,
            ));
        }
        return Ok((EngineMessage::CancelOrder(CancelOrderMessage { user, order_id }), 20));
    }
    if tag == TAG_SERIALIZATION {
        if len < 8 {
            return Err(DecodeError::Truncated);
        }
        let seq: u32 = get_u32(bytes, 4);
        proof {
            let b = bytes@;
            assert(b.subrange(0, 8) =~= b.subrange(0, 4) + b.subrange(4, 8));
        }
        return Ok((EngineMessage::SerializationMessage(seq), 8));
    }
    if len < 16 {
        return Err(DecodeError::Truncated);
    }
    let user: u64 = get_u64(bytes, 4);
    let seq: u32 = get_u32(bytes, 12);
    proof {
        let b = bytes@;
        assert(b.subrange(0, 16) =~= b.subrange(0, 4) + b.subrange(4, 12) + b.subrange(12, 16));
    }
    Ok((EngineMessage::GetOpenOrdersMessaage(OpenOrdersSequence { user, seq }), 16))
}

/// How an append to a segment ended.
#[derive(Clone, Copy, Debug, PartialEq, Eq, Structural)]
pub enum WriteResult {
    Success,
    /// The record is longer than what is left of the segment.
    LogFull,
}

/// Whether `bytes` hold, from `from` up to `to`, the records of the
/// commands `msgs` and nothing else, none of them the empty command.
pub open spec fn holds(bytes: Seq<u8>, from: int, to: int, msgs: Seq<EngineMessage>) -> bool
    decreases msgs.len(),
{
    if msgs.len() == 0 {
        from == to
    } else {
        let n = spec_encode(msgs[0]).len();
        &&& well_formed(msgs[0])
        &&& tag_of(msgs[0]) != TAG_NULL
        &&& 0 <= from
        &&& from + n <= to <= bytes.len()
        &&& bytes.subrange(from, from + n) == spec_encode(msgs[0])
        &&& holds(bytes, from + n, to, msgs.drop_first())
    }
}

/// Whether the log ends at `at`: fewer than 4 bytes are left, or the bytes
/// there read as the empty command.
pub open spec fn ends_at(bytes: Seq<u8>, at: int) -> bool {
    bytes.len() - at < 4 || (classify(bytes.skip(at)) is Ok && u32_at(bytes.skip(at), 0)
        == TAG_NULL)
}

/// Whether reading stops at `at`: the log ends there, or the bytes there do
/// not read as a command.
pub open spec fn stops_at(bytes: Seq<u8>, at: int) -> bool {
    ends_at(bytes, at) || classify(bytes.skip(at)) is Err
}

/// Whether every byte of `bytes` from `at` on is zero.
pub open spec fn blank_from(bytes: Seq<u8>, at: int) -> bool {
    forall|i: int| at <= i < bytes.len() ==> bytes[i] == 0
}

/// What reading one command at `cursor` comes to: nothing where the log
/// ends there, the reason where the bytes there read as no command, and
/// else the command whose record is there, with `next` behind the record.
/// Where no command comes out, `next` is `cursor`.
pub open spec fn read_at(
    bytes: Seq<u8>,
    cursor: int,
    r: Option<Result<EngineMessage, DecodeError>>,
    next: int,
) -> bool {
    let tail = bytes.skip(cursor);
    if tail.len() < 4 {
        r is None && next == cursor
    } else {
        match classify(tail) {
            Err(e) => r == Some(Err::<EngineMessage, DecodeError>(e)) && next == cursor,
            Ok(n) => if u32_at(tail, 0) == TAG_NULL {
                r is None && next == cursor
            } else {
                &&& r matches Some(Ok(m))
                &&& well_formed(m)
                &&& tag_of(m) != TAG_NULL
                &&& spec_encode(m) == tail.subrange(0, n as int)
                &&& next == cursor + n
            },
        }
    }
}

/// Records stay where the bytes that hold them stay.
pub proof fn lemma_holds_frame(
    a: Seq<u8>,
    b: Seq<u8>,
    from: int,
    to: int,
    msgs: Seq<EngineMessage>,
)
    requires
        holds(a, from, to, msgs),
        a.len() == b.len(),
        forall|i: int| from <= i < to ==> a[i] == b[i],
    ensures
        holds(b, from, to, msgs),
    decreases msgs.len(),
{
    if msgs.len() > 0 {
        let n = spec_encode(msgs[0]).len();
        assert(b.subrange(from, from + n) =~= a.subrange(from, from + n));
        lemma_holds_frame(a, b, from + n, to, msgs.drop_first());
    }
}

/// A record behind the records of `msgs` makes the records of `msgs` and
/// one more.
pub proof fn lemma_holds_append(
    bytes: Seq<u8>,
    from: int,
    to: int,
    msgs: Seq<EngineMessage>,
    m: EngineMessage,
)
    requires
        holds(bytes, from, to, msgs),
        0 <= from <= to,
        well_formed(m),
        tag_of(m) != TAG_NULL,
        to + spec_encode(m).len() <= bytes.len(),
        bytes.subrange(to, to + spec_encode(m).len()) == spec_encode(m),
    ensures
        holds(bytes, from, to + spec_encode(m).len(), msgs.push(m)),
    decreases msgs.len(),
{
    let more = msgs.push(m);
    if msgs.len() == 0 {
        assert(more.drop_first() =~= Seq::<EngineMessage>::empty());
        assert(holds(bytes, to + spec_encode(m).len(), to + spec_encode(m).len(), more.drop_first()));
    } else {
        let n = spec_encode(msgs[0]).len();
        lemma_encode_len(msgs[0]);
        lemma_holds_append(bytes, from + n, to, msgs.drop_first(), m);
        assert(more.drop_first() =~= msgs.drop_first().push(m));
    }
}

/// Where bytes hold a record, reading there gives its command.
pub proof fn lemma_read_record(
    bytes: Seq<u8>,
    at: int,
    m: EngineMessage,
    r: Option<Result<EngineMessage, DecodeError>>,
    next: int,
)
    requires
        0 <= at,
        at + spec_encode(m).len() <= bytes.len(),
        bytes.subrange(at, at + spec_encode(m).len()) == spec_encode(m),
        well_formed(m),
        tag_of(m) != TAG_NULL,
        read_at(bytes, at, r, next),
    ensures
        r == Some(Ok::<EngineMessage, DecodeError>(m)),
        next == at + spec_encode(m).len(),
        !stops_at(bytes, at),
{
    let e = spec_encode(m);
    let tail = bytes.skip(at);
    let rest = tail.skip(e.len() as int);
    lemma_encode_len(m);
    assert(tail =~= e + rest);
    lemma_classify_encoded(m, rest);
    assert(tail.subrange(0, 4) =~= e.subrange(0, 4));
    match r {
        Some(Ok(d)) => {
            assert(tail.subrange(0, e.len() as int) =~= e);
            lemma_encode_injective(d, m);
        },
        _ => {},
    }
}

/// Reading back what was written: where bytes hold the records of
/// `written` up to the end of the log, any reading from the same place up
/// to where reading stops has read `written`, no more and no less.
pub proof fn lemma_replay(
    bytes: Seq<u8>,
    from: int,
    to: int,
    written: Seq<EngineMessage>,
    stop: int,
    read: Seq<EngineMessage>,
)
    requires
        0 <= from,
        holds(bytes, from, to, written),
        ends_at(bytes, to),
        holds(bytes, from, stop, read),
        stops_at(bytes, stop),
    ensures
        read == written,
        stop == to,
    decreases written.len() + read.len(),
{
    if written.len() == 0 && read.len() == 0 {
        assert(read =~= written);
    } else if written.len() == 0 {
        let m = read[0];
        lemma_encode_len(m);
        let r = Some(Ok::<EngineMessage, DecodeError>(m));
        assert(read_at(bytes, from, r, from + spec_encode(m).len())) by {
            let e = spec_encode(m);
            let tail = bytes.skip(from);
            assert(tail =~= e + tail.skip(e.len() as int));
            lemma_classify_encoded(m, tail.skip(e.len() as int));
            assert(tail.subrange(0, 4) =~= e.subrange(0, 4));
            assert(tail.subrange(0, e.len() as int) =~= e);
        }
        lemma_read_record(bytes, from, m, r, from + spec_encode(m).len());
    } else if read.len() == 0 {
        let m = written[0];
        lemma_encode_len(m);
        let r = Some(Ok::<EngineMessage, DecodeError>(m));
        assert(read_at(bytes, from, r, from + spec_encode(m).len())) by {
            let e = spec_encode(m);
            let tail = bytes.skip(from);
            assert(tail =~= e + tail.skip(e.len() as int));
            lemma_classify_encoded(m, tail.skip(e.len() as int));
            assert(tail.subrange(0, 4) =~= e.subrange(0, 4));
            assert(tail.subrange(0, e.len() as int) =~= e);
        }
        lemma_read_record(bytes, from, m, r, from + spec_encode(m).len());
    } else {
        let w = written[0];
        let d = read[0];
        lemma_encode_len(w);
        lemma_encode_len(d);
        let tail = bytes.skip(from);
        assert(tail.subrange(0, 4) =~= spec_encode(w).subrange(0, 4));
        assert(tail.subrange(0, 4) =~= spec_encode(d).subrange(0, 4));
        assert(tag_of(w) == tag_of(d));
        lemma_encode_injective(w, d);
        lemma_replay(
            bytes,
            from + spec_encode(w).len(),
            to,
            written.drop_first(),
            stop,
            read.drop_first(),
        );
        assert(read =~= seq![d] + read.drop_first());
        assert(written =~= seq![w] + written.drop_first());
    }
}

/// Where nothing but zero bytes follow, the log ends.
pub proof fn lemma_blank_ends(bytes: Seq<u8>, at: int)
    requires
        0 <= at <= bytes.len(),
        blank_from(bytes, at),
    ensures
        ends_at(bytes, at),
{
    if bytes.len() - at >= 4 {
        let tail = bytes.skip(at);
        assert(tail.subrange(0, 4) =~= seq![0u8, 0u8, 0u8, 0u8]);
    }
}

/// One segment of the log: a stretch of bytes of fixed length, and the
/// place in it where the next command is written or read.
pub struct WalFile {
    mem: Vec<u8>,
    cursor: usize,
}

impl WalFile {
    /// The bytes of the segment.
    pub closed spec fn bytes(&self) -> Seq<u8> {
        self.mem@
    }

    /// The place of the next command.
    pub closed spec fn spec_cursor(&self) -> nat {
        self.cursor as nat
    }

    /// The invariant of a segment: the cursor lies within it.
    pub closed spec fn wf(&self) -> bool {
        self.cursor <= self.mem@.len()
    }

    /// What appending `entry` to the segment `before` comes to: where the
    /// record fits into what is left, it stands at the cursor, the cursor
    /// is behind it, and nothing else has changed; where it does not fit,
    /// nothing has changed.
    pub open spec fn appended(
        before: WalFile,
        entry: EngineMessage,
        r: WriteResult,
        after: WalFile,
    ) -> bool {
        let e = spec_encode(entry);
        let at = before.spec_cursor() as int;
        if e.len() <= before.bytes().len() - at {
            &&& r == WriteResult::Success
            &&& after.spec_cursor() == at + e.len()
            &&& after.bytes() == before.bytes().subrange(0, at) + e + before.bytes().skip(
                at + e.len(),
            )
        } else {
            &&& r == WriteResult::LogFull
            &&& after.spec_cursor() == before.spec_cursor()
            &&& after.bytes() == before.bytes()
        }
    }

    /// A new segment of `size` zero bytes.
    pub fn create(size: usize) -> (r: WalFile)
        ensures
            r.wf(),
            r.spec_cursor() == 0,
            r.bytes().len() == size,
            blank_from(r.bytes(), 0),
    {
        let mut mem: Vec<u8> = Vec::with_capacity(size);
        let mut i: usize = 0;
        while i < size
            invariant
                i <= size,
                mem@.len() == i,
                forall|k: int| 0 <= k < i ==> mem@[k] == 0,
            decreases size - i,
        {
            mem.push(0u8);
            i += 1;
        }
        WalFile { mem, cursor: 0 }
    }

    /// The segment with the bytes `bytes`, to be read from its start.
    pub fn open(bytes: Vec<u8>) -> (r: WalFile)
        ensures
            r.wf(),
            r.spec_cursor() == 0,
            r.bytes() == bytes@,
    {
        WalFile { mem: bytes, cursor: 0 }
    }

    /// The place of the next command.
    pub fn cursor(&self) -> (r: usize)
        ensures
            r == self.spec_cursor(),
    {
        self.cursor
    }

    /// The length of the segment.
    pub fn capacity(&self) -> (r: usize)
        ensures
            r == self.bytes().len(),
    {
        self.mem.len()
    }

    /// The bytes of the segment.
    pub fn as_bytes(&self) -> (r: &[u8])
        ensures
            r@ == self.bytes(),
    {
        self.mem.as_slice()
    }

    /// Appends the record of `entry` at the cursor, where it fits into what
    /// is left of the segment.
    pub fn write_entry(&mut self, entry: &EngineMessage) -> (r: WriteResult)
        requires
            old(self).wf(),
        ensures
            final(self).wf(),
            Self::appended(*old(self), *entry, r, *final(self)),
    {
        let bytes: Vec<u8> = encode_message(entry);
        let n: usize = bytes.len();
        if n > self.mem.len() - self.cursor {
            return WriteResult::LogFull;
        }
        let start: usize = self.cursor;
        let mut i: usize = 0;
        while i < n
            invariant
                i <= n,
                n == bytes@.len(),
                start + n <= self.mem@.len() <= usize::MAX,
                self.mem@.len() == old(self).mem@.len(),
                self.cursor == start,
                forall|k: int| 0 <= k < start ==> self.mem@[k] == old(self).mem@[k],
                forall|k: int| 0 <= k < i ==> self.mem@[start + k] == bytes@[k],
                forall|k: int| start + i <= k < self.mem@.len() ==> self.mem@[k] == old(self).mem@[k],
            decreases n - i,
        {
            self.mem.set(start + i, bytes[i]);
            i += 1;
        }
        self.cursor = start + n;
        assert(self.mem@ =~= old(self).mem@.subrange(0, start as int) + bytes@ + old(
            self,
        ).mem@.skip(start + n));
        WriteResult::Success
    }

    /// Reads the command at the cursor and moves the cursor behind it.
    /// Gives nothing where the log ends at the cursor.
    pub fn advance_entry(&mut self) -> (r: Option<Result<EngineMessage, DecodeError>>)
        requires
            old(self).wf(),
        ensures
            final(self).wf(),
            final(self).bytes() == old(self).bytes(),
            read_at(old(self).bytes(), old(self).spec_cursor() as int, r, final(self).spec_cursor() as int),
    {
        let len: usize = self.mem.len();
        if len - self.cursor < 4 {
            return None;
        }
        let tail: &[u8] = slice_subrange(self.mem.as_slice(), self.cursor, len);
        assert(tail@ =~= self.mem@.skip(self.cursor as int));
        match decode_message(tail) {
            Ok((msg, n)) => {
                proof {
                    lemma_encode_len(msg);
                }
                match msg {
                    EngineMessage::NullMessage => None,
                    _ => {
                        self.cursor = self.cursor + n;
                        Some(Ok(msg))
                    },
                }
            },
            Err(e) => Some(Err(e)),
        }
    }

    /// Reads the commands from the cursor on, up to where reading stops,
    /// and says why it stopped where it was not the end of the log.
    pub fn read_all(&mut self) -> (r: (Vec<EngineMessage>, Option<DecodeError>))
        requires
            old(self).wf(),
        ensures
            final(self).wf(),
            final(self).bytes() == old(self).bytes(),
            old(self).spec_cursor() <= final(self).spec_cursor(),
            holds(
                old(self).bytes(),
                old(self).spec_cursor() as int,
                final(self).spec_cursor() as int,
                r.0@,
            ),
            match r.1 {
                None => ends_at(old(self).bytes(), final(self).spec_cursor() as int),
                Some(e) => classify(old(self).bytes().skip(final(self).spec_cursor() as int))
                    == Err::<nat, DecodeError>(e),
            },
    {
        let mut msgs: Vec<EngineMessage> = Vec::new();
        let mut failure: Option<DecodeError> = None;
        loop
            invariant_except_break
                failure is None,
            invariant
                self.wf(),
                self.mem@ == old(self).mem@,
                old(self).cursor <= self.cursor,
                holds(self.mem@, old(self).cursor as int, self.cursor as int, msgs@),
            ensures
                self.wf(),
                self.mem@ == old(self).mem@,
                old(self).cursor <= self.cursor,
                holds(self.mem@, old(self).cursor as int, self.cursor as int, msgs@),
                match failure {
                    None => ends_at(self.mem@, self.cursor as int),
                    Some(e) => classify(self.mem@.skip(self.cursor as int)) == Err::<
                        nat,
                        DecodeError,
                    >(e),
                },
            decreases self.mem@.len() - self.cursor,
        {
            let ghost at = self.cursor as int;
            match self.advance_entry() {
                None => {
                    break ;
                },
                Some(Err(e)) => {
                    failure = Some(e);
                    break ;
                },
                Some(Ok(m)) => {
                    proof {
                        lemma_encode_len(m);
                        let tail = self.mem@.skip(at);
                        let n = spec_encode(m).len();
                        assert(self.mem@.subrange(at, at + n) =~= tail.subrange(0, n as int));
                        lemma_holds_append(self.mem@, old(self).cursor as int, at, msgs@, m);
                    }
                    msgs.push(m);
                },
            }
        }
        (msgs, failure)
    }

    /// Moves the cursor to where reading stops.
    pub fn advance_to_end(&mut self) -> (r: Result<(), DecodeError>)
        requires
            old(self).wf(),
        ensures
            final(self).wf(),
            final(self).bytes() == old(self).bytes(),
            exists|msgs: Seq<EngineMessage>| #[trigger]
                holds(
                    old(self).bytes(),
                    old(self).spec_cursor() as int,
                    final(self).spec_cursor() as int,
                    msgs,
                ),
            match r {
                Ok(_) => ends_at(old(self).bytes(), final(self).spec_cursor() as int),
                Err(e) => classify(old(self).bytes().skip(final(self).spec_cursor() as int))
                    == Err::<nat, DecodeError>(e),
            },
    {
        let r = self.read_all();
        match r.1 {
            None => Ok(()),
            Some(e) => Err(e),
        }
    }

    /// Appending to a segment that holds the records of `msgs` up to the
    /// cursor and is blank behind it leaves a segment that holds the
    /// records of `msgs` and of the new command, and is blank behind that.
    pub proof fn lemma_append_keeps_log(
        before: WalFile,
        entry: EngineMessage,
        after: WalFile,
        msgs: Seq<EngineMessage>,
    )
        requires
            before.wf(),
            holds(before.bytes(), 0, before.spec_cursor() as int, msgs),
            blank_from(before.bytes(), before.spec_cursor() as int),
            well_formed(entry),
            tag_of(entry) != TAG_NULL,
            Self::appended(before, entry, WriteResult::Success, after),
        ensures
            holds(after.bytes(), 0, after.spec_cursor() as int, msgs.push(entry)),
            blank_from(after.bytes(), after.spec_cursor() as int),
            ends_at(after.bytes(), after.spec_cursor() as int),
    {
        let e = spec_encode(entry);
        let at = before.spec_cursor() as int;
        lemma_holds_frame(before.bytes(), after.bytes(), 0, at, msgs);
        assert(after.bytes().subrange(at, at + e.len()) =~= e);
        lemma_holds_append(after.bytes(), 0, at, msgs, entry);
        lemma_blank_ends(after.bytes(), at + e.len());
    }
}

/// The bytes that the name of every segment starts with: `wal_`.
pub open spec fn name_prefix() -> Seq<u8> {
    seq![119u8, 97u8, 108u8, 95u8]
}

/// The index that the file name `name` gives a segment: the number after
/// `wal_`, where the name is `wal_` and then nothing but decimal digits that
/// spell a number of 32 bits.
pub open spec fn spec_segment_index(name: Seq<u8>) -> Option<u32> {
    if name.len() >= 4 && name.take(4) == name_prefix() {
        match spec_parse_decimal(name.skip(4), u32::MAX as nat) {
            Some(index) => Some(index as u32),
            None => None,
        }
    } else {
        None
    }
}

/// The file name of the segment with the index `index`: `wal_` and then the
/// index in decimal digits.
pub open spec fn spec_segment_name(index: u32) -> Seq<u8> {
    name_prefix() + decimal(index as nat)
}

/// The name of a segment gives the segment its index.
pub proof fn lemma_name_round_trip(index: u32)
    ensures
        spec_segment_index(spec_segment_name(index)) == Some(index),
{
    lemma_decimal(index as nat);
    let name = spec_segment_name(index);
    assert(name.take(4) =~= name_prefix());
    assert(name.skip(4) =~= decimal(index as nat));
    assert(spec_parse_decimal(name.skip(4), u32::MAX as nat) == Some(index as nat));
}

/// The index that the file name `name` gives a segment, where it names
/// one.
pub fn segment_index(name: &[u8]) -> (r: Option<u32>)
    ensures
        r == spec_segment_index(name@),
{
    let len: usize = name.len();
    if len < 4 {
        return None;
    }
    if name[0] != 119 || name[1] != 97 || name[2] != 108 || name[3] != 95 {
        assert(name@.take(4)[0] == name@[0]);
        assert(name@.take(4)[1] == name@[1]);
        assert(name@.take(4)[2] == name@[2]);
        assert(name@.take(4)[3] == name@[3]);
        return None;
    }
    assert(name@.take(4) =~= name_prefix());
    let digits: &[u8] = slice_subrange(name, 4, len);
    assert(digits@ =~= name@.skip(4));
    match parse_decimal(digits, 0xFFFF_FFFF) {
        Some(index) => Some(index as u32),
        None => None,
    }
}

/// The file name of the segment with the index `index`.
pub fn segment_name(index: u32) -> (name: Vec<u8>)
    ensures
        name@ == spec_segment_name(index),
{
    let mut name: Vec<u8> = Vec::new();
    name.push(119u8);
    name.push(97u8);
    name.push(108u8);
    name.push(95u8);
    assert(name@ =~= name_prefix());
    let mut digits: Vec<u8> = Vec::new();
    push_decimal(&mut digits, index as u64);
    name.append(&mut digits);
    name
}

/// The indices that the file names `names` give, in the order of the names;
/// a name that names no segment gives none.
pub open spec fn indices_of(names: Seq<Vec<u8>>) -> Seq<u32>
    decreases names.len(),
{
    if names.len() == 0 {
        Seq::empty()
    } else {
        match spec_segment_index(names.last()@) {
            Some(index) => indices_of(names.drop_last()).push(index),
            None => indices_of(names.drop_last()),
        }
    }
}

/// Whether `s` is in ascending order.
pub open spec fn ascending(s: Seq<u32>) -> bool {
    forall|i: int, j: int| 0 <= i < j < s.len() ==> s[i] <= s[j]
}

/// The indices of the segments among the files named `names`, in ascending
/// order.
pub fn list_segments(names: &Vec<Vec<u8>>) -> (r: Vec<u32>)
    ensures
        ascending(r@),
        r@.to_multiset() == indices_of(names@).to_multiset(),
{
    broadcast use vstd::seq_lib::group_to_multiset_ensures;

    let mut out: Vec<u32> = Vec::new();
    let mut i: usize = 0;
    while i < names.len()
        invariant
            i <= names@.len(),
            ascending(out@),
            out@.to_multiset() == indices_of(names@.take(i as int)).to_multiset(),
        decreases names@.len() - i,
    {
        proof {
            assert(names@.take(i + 1).drop_last() =~= names@.take(i as int));
        }
        match segment_index(names[i].as_slice()) {
            None => {},
            Some(index) => {
                let mut at: usize = 0;
                while at < out.len() && out[at] <= index
                    invariant
                        at <= out@.len(),
                        forall|k: int| 0 <= k < at ==> out@[k] <= index,
                    decreases out@.len() - at,
                {
                    at += 1;
                }
                let ghost before = out@;
                out.insert(at, index);
                proof {
                    vstd::seq_lib::to_multiset_insert(before, at as int, index);
                    vstd::seq_lib::to_multiset_build(
                        indices_of(names@.take(i as int)),
                        index,
                    );
                    assert forall|a: int, b: int| 0 <= a < b < out@.len() implies out@[a]
                        <= out@[b] by {
                        if a < at && b > at {
                            assert(out@[a] == before[a]);
                            assert(out@[b] == before[b - 1]);
                        }
                    }
                }
            },
        }
        i += 1;
    }
    assert(names@.take(i as int) =~= names@);
    out
}

/// Why the log cannot take a command.
#[derive(Clone, Copy, Debug, PartialEq, Eq, Structural)]
pub enum WalError {
    /// The record does not fit into an empty segment. The log has moved on
    /// to the empty segment with the index `rotated_to`.
    RecordTooLarge { rotated_to: u32 },
    /// Every index from the next one on is taken.
    NoFreeIndex,
}

/// Where the log has put a record: in the segment that it was writing, or
/// in a new segment with the index `rotated_to`; at `offset` in that
/// segment, over `len` bytes.
#[derive(Clone, Copy, Debug, PartialEq, Eq, Structural)]
pub struct WalWrite {
    pub rotated_to: Option<u32>,
    pub offset: usize,
    pub len: usize,
}

/// Whether `k` is the first index from `start` on that is none of `taken`.
pub open spec fn first_free(taken: Seq<u32>, start: int, k: u32) -> bool {
    &&& start <= k
    &&& !taken.contains(k)
    &&& forall|j: u32| start <= j < k ==> #[trigger] taken.contains(j)
}

/// The largest of `files`, 0 where there are none.
pub open spec fn spec_newest(files: Seq<u32>) -> u32
    decreases files.len(),
{
    if files.len() == 0 {
        0
    } else if files.last() >= spec_newest(files.drop_last()) {
        files.last()
    } else {
        spec_newest(files.drop_last())
    }
}

/// The largest of `files`, 0 where there are none.
pub fn newest(files: &Vec<u32>) -> (r: u32)
    ensures
        r == spec_newest(files@),
{
    let mut best: u32 = 0;
    let mut i: usize = 0;
    while i < files.len()
        invariant
            i <= files@.len(),
            best == spec_newest(files@.take(i as int)),
        decreases files@.len() - i,
    {
        proof {
            assert(files@.take(i + 1).drop_last() =~= files@.take(i as int));
        }
        if files[i] >= best {
            best = files[i];
        }
        i += 1;
    }
    assert(files@.take(i as int) =~= files@);
    best
}

/// Whether `index` is one of `files`.
pub fn is_taken(files: &Vec<u32>, index: u32) -> (r: bool)
    ensures
        r == files@.contains(index),
{
    let mut i: usize = 0;
    while i < files.len()
        invariant
            i <= files@.len(),
            forall|k: int| 0 <= k < i ==> files@[k] != index,
        decreases files@.len() - i,
    {
        if files[i] == index {
            return true;
        }
        i += 1;
    }
    false
}

/// The first index from `start` on that is none of `taken`, where there is
/// one.
pub fn next_free(taken: &Vec<u32>, start: u64) -> (r: Option<u32>)
    ensures
        match r {
            Some(k) => first_free(taken@, start as int, k),
            None => forall|j: u32| start <= j ==> #[trigger] taken@.contains(j),
        },
{
    let mut index: u64 = start;
    while index <= 0xFFFF_FFFF
        invariant
            start <= index,
            forall|j: u32| start <= j < index ==> #[trigger] taken@.contains(j),
        decreases 0x1_0000_0000 - index,
    {
        if !is_taken(taken, index as u32) {
            return Some(index as u32);
        }
        index += 1;
    }
    None
}

/// The log: the segment that is written, the length that new segments get,
/// the indices of the segments that exist, and the index from which on the
/// next segment is looked for.
pub struct Wal {
    index: u64,
    file_size: usize,
    wal: WalFile,
    files: Vec<u32>,
}

impl Wal {
    /// The index from which on the next segment is looked for.
    pub closed spec fn spec_index(&self) -> u64 {
        self.index
    }

    /// The length that new segments get.
    pub closed spec fn spec_file_size(&self) -> usize {
        self.file_size
    }

    /// The segment that is written.
    pub closed spec fn segment(&self) -> WalFile {
        self.wal
    }

    /// The indices of the segments that exist.
    pub closed spec fn known(&self) -> Seq<u32> {
        self.files@
    }

    /// The invariant of the log: that of its segment.
    pub closed spec fn wf(&self) -> bool {
        self.wal.wf()
    }

    /// What starting the log comes to, where the segments `files` exist and
    /// `newest` holds the bytes of the one with the largest index, if it
    /// could be read.
    ///
    /// With such a segment the log goes on in it, behind the commands that
    /// it holds, and looks for the next segment from its index on. Without
    /// one the log starts a new segment at the first free index, which
    /// `created` names.
    pub open spec fn started(
        files: Seq<u32>,
        newest: Option<Vec<u8>>,
        file_size: usize,
        r: Result<(Wal, Option<u32>), WalError>,
    ) -> bool {
        if files.len() > 0 && newest is Some {
            &&& r matches Ok((wal, created))
            &&& created is None
            &&& wal.known() == files
            &&& wal.spec_file_size() == file_size
            &&& wal.spec_index() == spec_newest(files)
            &&& wal.segment().bytes() == newest->0@
            &&& stops_at(wal.segment().bytes(), wal.segment().spec_cursor() as int)
            &&& exists|msgs: Seq<EngineMessage>| #[trigger]
                holds(wal.segment().bytes(), 0, wal.segment().spec_cursor() as int, msgs)
        } else if forall|j: u32| #[trigger] files.contains(j) {
            r == Err::<(Wal, Option<u32>), WalError>(WalError::NoFreeIndex)
        } else {
            &&& r matches Ok((wal, created))
            &&& created matches Some(k)
            &&& first_free(files, 0, k)
            &&& wal.known() == files.push(k)
            &&& wal.spec_file_size() == file_size
            &&& wal.spec_index() == k + 1
            &&& wal.segment().spec_cursor() == 0
            &&& wal.segment().bytes().len() == file_size
            &&& blank_from(wal.segment().bytes(), 0)
        }
    }

    /// Starts the log in a directory in which the segments `files` exist;
    /// `newest` holds the bytes of the one with the largest index, if it
    /// could be read.
    pub fn new(files: Vec<u32>, newest: Option<Vec<u8>>, file_size: usize) -> (r: Result<
        (Wal, Option<u32>),
        WalError,
    >)
        ensures
            Self::started(files@, newest, file_size, r),
            r matches Ok((wal, _)) ==> wal.wf(),
    {
        if files.len() > 0 {
            if let Some(bytes) = newest {
                let index: u32 = self::newest(&files);
                let mut wal: WalFile = WalFile::open(bytes);
                let _ = wal.advance_to_end();
                return Ok((Wal { index: index as u64, file_size, wal, files }, None));
            }
        }
        let k: u32 = match next_free(&files, 0) {
            Some(k) => k,
            None => {
                return Err(WalError::NoFreeIndex);
            },
        };
        let mut files = files;
        let ghost listed = files@;
        proof {
            if forall|j: u32| #[trigger] listed.contains(j) {
                assert(listed.contains(k));
            }
        }
        files.push(k);
        Ok((Wal { index: k as u64 + 1, file_size, wal: WalFile::create(file_size), files }, Some(k)))
    }

    /// The segment that is written.
    pub fn current(&self) -> (r: &WalFile)
        ensures
            *r == self.segment(),
    {
        &self.wal
    }

    /// What moving on to a new segment and appending `entry` there comes
    /// to: the new segment is empty, has the first free index from the
    /// log's index on, and takes the record where the record fits into an
    /// empty segment. Where no index is free, nothing changes.
    pub open spec fn rotated(
        before: Wal,
        entry: EngineMessage,
        r: Result<WalWrite, WalError>,
        after: Wal,
    ) -> bool {
        let e = spec_encode(entry);
        if forall|j: u32| before.spec_index() <= j ==> #[trigger] before.known().contains(j) {
            &&& r == Err::<WalWrite, WalError>(WalError::NoFreeIndex)
            &&& after.segment().bytes() == before.segment().bytes()
            &&& after.segment().spec_cursor() == before.segment().spec_cursor()
            &&& after.spec_index() == before.spec_index()
            &&& after.known() == before.known()
        } else {
            &&& exists|k: u32| #[trigger]
                first_free(before.known(), before.spec_index() as int, k) && Self::moved_to(
                    before,
                    k,
                    after,
                ) && r == Self::retried(before, entry, k)
            &&& after.segment().bytes().len() == before.spec_file_size()
            &&& if e.len() <= before.spec_file_size() {
                &&& after.segment().spec_cursor() == e.len()
                &&& after.segment().bytes().subrange(0, e.len() as int) == e
                &&& blank_from(after.segment().bytes(), e.len() as int)
            } else {
                &&& after.segment().spec_cursor() == 0
                &&& blank_from(after.segment().bytes(), 0)
            }
        }
    }

    /// Whether the log `after` has the segment with the index `k` more than
    /// the log `before`, and looks for the next segment behind it.
    pub open spec fn moved_to(before: Wal, k: u32, after: Wal) -> bool {
        after.known() == before.known().push(k) && after.spec_index() == k + 1
    }

    /// What the second try of appending `entry`, in the new segment with
    /// the index `k`, comes to.
    pub open spec fn retried(before: Wal, entry: EngineMessage, k: u32) -> Result<
        WalWrite,
        WalError,
    > {
        if spec_encode(entry).len() <= before.spec_file_size() {
            Ok(WalWrite { rotated_to: Some(k), offset: 0, len: spec_encode(entry).len() as usize })
        } else {
            Err(WalError::RecordTooLarge { rotated_to: k })
        }
    }

    /// What appending `entry` to the log `before` comes to.
    ///
    /// Where the record fits into what is left of the segment, it goes
    /// there. Where it does not, the log moves on to a new, empty segment
    /// at the first free index and tries once more; a record that does not
    /// fit into an empty segment is turned down.
    pub open spec fn written(
        before: Wal,
        entry: EngineMessage,
        r: Result<WalWrite, WalError>,
        after: Wal,
    ) -> bool {
        let e = spec_encode(entry);
        let at = before.segment().spec_cursor();
        &&& after.spec_file_size() == before.spec_file_size()
        &&& if e.len() <= before.segment().bytes().len() - at {
            &&& r == Ok::<WalWrite, WalError>(
                WalWrite { rotated_to: None, offset: at as usize, len: e.len() as usize },
            )
            &&& WalFile::appended(before.segment(), entry, WriteResult::Success, after.segment())
            &&& after.spec_index() == before.spec_index()
            &&& after.known() == before.known()
        } else {
            Self::rotated(before, entry, r, after)
        }
    }

    /// Moves on to a new segment and appends `entry` there.
    fn rotate(&mut self, entry: &EngineMessage) -> (r: Result<WalWrite, WalError>)
        requires
            old(self).wf(),
        ensures
            final(self).wf(),
            final(self).spec_file_size() == old(self).spec_file_size(),
            Self::rotated(*old(self), *entry, r, *final(self)),
    {
        proof {
            lemma_encode_len(*entry);
        }
        let k: u32 = match next_free(&self.files, self.index) {
            Some(k) => k,
            None => {
                return Err(WalError::NoFreeIndex);
            },
        };
        proof {
            if forall|j: u32| self.index <= j ==> #[trigger] self.files@.contains(j) {
                assert(self.files@.contains(k));
            }
        }
        let mut fresh: WalFile = WalFile::create(self.file_size);
        let outcome: WriteResult = fresh.write_entry(entry);
        proof {
            let e = spec_encode(*entry);
            if outcome == WriteResult::Success {
                assert(fresh.bytes().subrange(0, e.len() as int) =~= e);
            }
        }
        let len: usize = fresh.cursor();
        self.wal = fresh;
        self.index = k as u64 + 1;
        self.files.push(k);
        let r: Result<WalWrite, WalError> = match outcome {
            WriteResult::Success => Ok(WalWrite { rotated_to: Some(k), offset: 0, len }),
            WriteResult::LogFull => Err(WalError::RecordTooLarge { rotated_to: k }),
        };
        proof {
            assert(first_free(old(self).known(), old(self).spec_index() as int, k));
            assert(Self::moved_to(*old(self), k, *self));
            assert(r == Self::retried(*old(self), *entry, k));
        }
        r
    }

    /// Appends `entry` to the log.
    pub fn write_entry(&mut self, entry: &EngineMessage) -> (r: Result<WalWrite, WalError>)
        requires
            old(self).wf(),
        ensures
            final(self).wf(),
            Self::written(*old(self), *entry, r, *final(self)),
    {
        proof {
            lemma_encode_len(*entry);
        }
        let offset: usize = self.wal.cursor();
        let outcome: WriteResult = self.wal.write_entry(entry);
        let ghost tried = *self;
        assert(WalFile::appended(old(self).segment(), *entry, outcome, tried.segment()));
        match outcome {
            WriteResult::Success => {
                let len: usize = self.wal.cursor() - offset;
                let r: Result<WalWrite, WalError> = Ok(
                    WalWrite { rotated_to: None, offset, len },
                );
                assert(Self::written(*old(self), *entry, r, *self));
                r
            },
            WriteResult::LogFull => {
                assert(tried.segment().bytes() == old(self).segment().bytes());
                assert(tried.segment().spec_cursor() == old(self).segment().spec_cursor());
                let r = self.rotate(entry);
                assert(Self::rotated(tried, *entry, r, *self));
                assert(tried.known() == old(self).known());
                assert(tried.spec_index() == old(self).spec_index());
                assert(tried.spec_file_size() == old(self).spec_file_size());
                assert(Self::rotated(*old(self), *entry, r, *self));
                r
            },
        }
    }
}

/// What a reader of a directory asks for or hands out next.
#[derive(Clone, Copy, Debug)]
pub enum ReaderStep {
    /// The next command.
    Entry(EngineMessage),
    /// The segment that was being read does not read on; the reader has
    /// left it.
    Failed(DecodeError),
    /// The reader needs the bytes of the segment with this index.
    Open(u32),
    /// Every segment has been read.
    Done,
}

/// Reads the commands of the segments of a directory, segment by segment in
/// the order given.
pub struct WalDirectoryReader {
    files: Vec<u32>,
    file_index: usize,
    reader: Option<WalFile>,
}

impl WalDirectoryReader {
    /// The indices of the segments to read.
    pub closed spec fn spec_files(&self) -> Seq<u32> {
        self.files@
    }

    /// The number of segments that the reader has been given.
    pub closed spec fn spec_position(&self) -> nat {
        self.file_index as nat
    }

    /// The segment that is being read, if one is.
    pub closed spec fn spec_reader(&self) -> Option<WalFile> {
        self.reader
    }

    /// The invariant of the reader.
    pub closed spec fn wf(&self) -> bool {
        &&& self.file_index <= self.files@.len()
        &&& self.reader matches Some(segment) ==> segment.wf()
    }

    /// A reader of the segments `files` that has read nothing yet.
    pub fn new(files: Vec<u32>) -> (r: Self)
        ensures
            r.wf(),
            r.spec_files() == files@,
            r.spec_position() == 0,
            r.spec_reader() is None,
    {
        WalDirectoryReader { files, file_index: 0usize, reader: None }
    }

    /// What the next step of the reader `before` comes to.
    ///
    /// While a segment is being read, its next command comes out; where it
    /// does not read on, the reason comes out and the segment is left.
    /// Where the segment has ended or none is being read, the reader asks
    /// for the next segment, or is done where none is left.
    pub open spec fn stepped(
        before: WalDirectoryReader,
        r: ReaderStep,
        after: WalDirectoryReader,
    ) -> bool {
        &&& after.spec_files() == before.spec_files()
        &&& after.spec_position() == before.spec_position()
        &&& match r {
            ReaderStep::Entry(m) => {
                &&& before.spec_reader() matches Some(segment)
                &&& after.spec_reader() matches Some(moved)
                &&& moved.bytes() == segment.bytes()
                &&& read_at(
                    segment.bytes(),
                    segment.spec_cursor() as int,
                    Some(Ok::<EngineMessage, DecodeError>(m)),
                    moved.spec_cursor() as int,
                )
            },
            ReaderStep::Failed(e) => {
                &&& before.spec_reader() matches Some(segment)
                &&& after.spec_reader() is None
                &&& read_at(
                    segment.bytes(),
                    segment.spec_cursor() as int,
                    Some(Err::<EngineMessage, DecodeError>(e)),
                    segment.spec_cursor() as int,
                )
            },
            ReaderStep::Open(index) => {
                &&& after.spec_reader() is None
                &&& before.ended()
                &&& before.spec_position() < before.spec_files().len()
                &&& index == before.spec_files()[before.spec_position() as int]
            },
            ReaderStep::Done => {
                &&& after.spec_reader() is None
                &&& before.ended()
                &&& before.spec_position() == before.spec_files().len()
            },
        }
    }

    /// Whether no segment is being read, or the one that is has ended.
    pub open spec fn ended(&self) -> bool {
        self.spec_reader() matches Some(segment) ==> read_at(
            segment.bytes(),
            segment.spec_cursor() as int,
            None::<Result<EngineMessage, DecodeError>>,
            segment.spec_cursor() as int,
        )
    }

    /// The next step: a command, a failure, the request for a segment, or
    /// the end.
    pub fn next(&mut self) -> (r: ReaderStep)
        requires
            old(self).wf(),
        ensures
            final(self).wf(),
            Self::stepped(*old(self), r, *final(self)),
    {
        let mut reader: Option<WalFile> = None;
        core::mem::swap(&mut reader, &mut self.reader);
        if let Some(mut segment) = reader {
            match segment.advance_entry() {
                Some(Ok(msg)) => {
                    self.reader = Some(segment);
                    return ReaderStep::Entry(msg);
                },
                Some(Err(e)) => {
                    return ReaderStep::Failed(e);
                },
                None => {},
            }
        }
        if self.file_index >= self.files.len() {
            return ReaderStep::Done;
        }
        ReaderStep::Open(self.files[self.file_index])
    }

    /// Hands the reader the bytes of the segment that it asked for.
    pub fn supply(&mut self, bytes: Vec<u8>)
        requires
            old(self).wf(),
            old(self).spec_position() < old(self).spec_files().len(),
        ensures
            final(self).wf(),
            final(self).spec_files() == old(self).spec_files(),
            final(self).spec_position() == old(self).spec_position() + 1,
            final(self).spec_reader() matches Some(segment) && segment.bytes() == bytes@
                && segment.spec_cursor() == 0,
    {
        let n: usize = self.files.len();
        self.reader = Some(WalFile::open(bytes));
        self.file_index = self.file_index + 1;
    }

    /// Passes over the segment that the reader asked for, where it cannot
    /// be had.
    pub fn skip(&mut self)
        requires
            old(self).wf(),
            old(self).spec_position() < old(self).spec_files().len(),
        ensures
            final(self).wf(),
            final(self).spec_files() == old(self).spec_files(),
            final(self).spec_position() == old(self).spec_position() + 1,
            final(self).spec_reader() is None,
    {
        let n: usize = self.files.len();
        self.reader = None;
        self.file_index = self.file_index + 1;
    }
}

} // verus!
