//! The value types that orders, executions and market data are made of.

use crate::text::{append_decimal, decimal_string, decimal_text};
use vstd::prelude::*;
use vstd::string::StringExecFns;
use vstd::string::StringSliceAdditionalSpecFns;

verus! {

/// The width of a symbol, in bytes.
pub const SYMBOL_MAX_LENGTH: usize = 8;

/// The number of price levels that a depth snapshot carries per side.
pub const L2_MD_DEPTH: usize = 5;

pub type UserId = u64;

/// A price, in whole ticks.
pub type Price = u64;

pub type Quantity = u32;

/// The quantity of a price level: a sum of order quantities.
pub type LevelQuantity = u64;

/// The largest symbol id that fits the 20 bits an identifier gives it.
pub const SYMBOL_MAX: u32 = 0xF_FFFF;

/// The largest metadata value that fits its 4 bits.
pub const METADATA_MAX: u8 = 0xF;

/// The largest sequence number that fits its 40 bits.
pub const SEQUENCE_MAX: u64 = 0xFF_FFFF_FFFF;

pub const TRADING_MD_TYPE_MASK: u8 = 1;

pub const TRADING_MD_TYPE_ORDER: u8 = 0;

pub const TRADING_MD_TYPE_EXEC: u8 = 1;

pub const ORDER_MD_SIDE_MASK: u8 = 2;

pub const ORDER_MD_SIDE_BUY: u8 = 2;

pub const ORDER_MD_SIDE_SELL: u8 = 0;

/// Two to the power 40: the weight of the metadata field in an identifier.
pub open spec fn metadata_unit() -> int {
    0x100_0000_0000
}

/// Two to the power 44: the weight of the symbol field in an identifier.
pub open spec fn symbol_unit() -> int {
    0x1000_0000_0000
}

/// The symbol id packed into the raw identifier `raw`: its top 20 bits.
pub open spec fn raw_symbol_id(raw: u64) -> int {
    raw as int / symbol_unit()
}

/// The metadata packed into the raw identifier `raw`: the 4 bits below the
/// symbol id.
pub open spec fn raw_metadata(raw: u64) -> int {
    (raw as int / metadata_unit()) % 16
}

/// The sequence number packed into the raw identifier `raw`: its low 40 bits.
pub open spec fn raw_sequence(raw: u64) -> int {
    raw as int % metadata_unit()
}

/// The raw identifier that packs the three fields.
pub open spec fn pack(symbol_id: int, metadata: int, seq: int) -> int {
    symbol_id * symbol_unit() + metadata * metadata_unit() + seq
}

/// Whether the identifier `raw` names an order: bit 0 of its metadata is 0.
pub open spec fn raw_is_order(raw: u64) -> bool {
    raw_metadata(raw) % 2 == 0
}

/// Whether the order identifier `raw` names a buy order: bit 1 of its
/// metadata is 1.
pub open spec fn raw_is_buy(raw: u64) -> bool {
    (raw_metadata(raw) / 2) % 2 == 1
}

/// Unpacking undoes packing, field by field.
pub proof fn lemma_pack_fields(symbol_id: int, metadata: int, seq: int)
    requires
        0 <= symbol_id <= SYMBOL_MAX,
        0 <= metadata <= METADATA_MAX,
        0 <= seq <= SEQUENCE_MAX,
    ensures
        0 <= pack(symbol_id, metadata, seq) <= u64::MAX,
        raw_symbol_id(pack(symbol_id, metadata, seq) as u64) == symbol_id,
        raw_metadata(pack(symbol_id, metadata, seq) as u64) == metadata,
        raw_sequence(pack(symbol_id, metadata, seq) as u64) == seq,
{
    let low = metadata * metadata_unit() + seq;
    assert(0 <= low < symbol_unit());
    assert(pack(symbol_id, metadata, seq) == symbol_id * symbol_unit() + low);
    assert(symbol_id * symbol_unit() <= 0xF_FFFF * symbol_unit()) by (nonlinear_arith)
        requires
            symbol_id <= 0xF_FFFF,
    ;
    vstd::arithmetic::div_mod::lemma_fundamental_div_mod_converse(
        pack(symbol_id, metadata, seq),
        symbol_unit(),
        symbol_id,
        low,
    );
    let high = symbol_id * 16 + metadata;
    assert(pack(symbol_id, metadata, seq) == high * metadata_unit() + seq) by (nonlinear_arith)
        requires
            pack(symbol_id, metadata, seq) == symbol_id * symbol_unit() + metadata * metadata_unit()
                + seq,
            high == symbol_id * 16 + metadata,
            symbol_unit() == 16 * metadata_unit(),
    ;
    vstd::arithmetic::div_mod::lemma_fundamental_div_mod_converse(
        pack(symbol_id, metadata, seq),
        metadata_unit(),
        high,
        seq,
    );
}

/// Packing the fields of an identifier gives the identifier back.
pub proof fn lemma_fields_pack(raw: u64)
    ensures
        0 <= raw_symbol_id(raw) <= SYMBOL_MAX,
        0 <= raw_metadata(raw) <= METADATA_MAX,
        0 <= raw_sequence(raw) <= SEQUENCE_MAX,
        pack(raw_symbol_id(raw), raw_metadata(raw), raw_sequence(raw)) == raw,
{
    let r = raw as int;
    let high = r / metadata_unit();
    assert(r == metadata_unit() * high + r % metadata_unit()) by {
        vstd::arithmetic::div_mod::lemma_fundamental_div_mod(r, metadata_unit());
    }
    assert(high == 16 * (high / 16) + high % 16) by {
        vstd::arithmetic::div_mod::lemma_fundamental_div_mod(high, 16);
    }
    assert(high / 16 == r / symbol_unit()) by {
        vstd::arithmetic::div_mod::lemma_div_denominator(r, metadata_unit(), 16);
    }
}

/// An opaque 64-bit identifier laid out as 20 bits of symbol id, 4 bits of
/// metadata and 40 bits of sequence number, from the top down.
#[derive(Clone, Copy, Debug, PartialEq, Eq, Hash, Structural)]
pub struct TradingId {
    val: u64,
}

impl TradingId {
    /// The identifier as a number.
    pub closed spec fn spec_raw(&self) -> u64 {
        self.val
    }

    pub open spec fn spec_symbol_id(&self) -> u32 {
        raw_symbol_id(self.spec_raw()) as u32
    }

    pub open spec fn spec_metadata(&self) -> u8 {
        raw_metadata(self.spec_raw()) as u8
    }

    pub open spec fn spec_sequence(&self) -> u64 {
        raw_sequence(self.spec_raw()) as u64
    }

    /// Two identifiers with the same number are the same identifier.
    pub proof fn lemma_raw_determines(a: TradingId, b: TradingId)
        requires
            a.spec_raw() == b.spec_raw(),
        ensures
            a == b,
    {
    }

    /// Packs the three fields, or says which of them is too large.
    pub fn new(symbol_id: u32, metadata: u8, seq: u64) -> (r: Result<Self, String>)
        ensures
            r is Ok <==> symbol_id <= SYMBOL_MAX && metadata <= METADATA_MAX && seq
                <= SEQUENCE_MAX,
            r matches Ok(id) ==> {
                &&& id.spec_raw() == pack(symbol_id as int, metadata as int, seq as int)
                &&& id.spec_symbol_id() == symbol_id
                &&& id.spec_metadata() == metadata
                &&& id.spec_sequence() == seq
            },
            r matches Err(e) ==> e@ == (if symbol_id > SYMBOL_MAX {
                "symbol ID too high"@
            } else if metadata > METADATA_MAX {
                "metadata value too high"@
            } else {
                "sequence number too high"@
            }),
    {
        if symbol_id > SYMBOL_MAX {
            return Err("symbol ID too high".to_owned());
        }
        if metadata > METADATA_MAX {
            return Err("metadata value too high".to_owned());
        }
        if seq > SEQUENCE_MAX {
            return Err("sequence number too high".to_owned());
        }
        let val: u64 = seq | ((metadata as u64) << 40) | ((symbol_id as u64) << 44);
        proof {
            let m: u64 = metadata as u64;
            let s: u64 = symbol_id as u64;
            assert(seq | (m << 40) | (s << 44) == s * 0x1000_0000_0000 + m * 0x100_0000_0000
                + seq) by (bit_vector)
                requires
                    seq <= 0xFF_FFFF_FFFF,
                    m <= 0xF,
                    s <= 0xF_FFFF,
            ;
            lemma_pack_fields(symbol_id as int, metadata as int, seq as int);
        }
        Ok(TradingId { val })
    }

    /// Takes any 64-bit value as an identifier.
    pub fn from_raw(raw: u64) -> (r: Self)
        ensures
            r.spec_raw() == raw,
    {
        TradingId { val: raw }
    }

    /// The identifier as text: its number in decimal digits.
    pub fn to_string(&self) -> (r: String)
        ensures
            r@ == decimal_text(self.spec_raw() as nat),
    {
        decimal_string(self.val)
    }

    #[verifier::when_used_as_spec(spec_raw)]
    pub fn raw(&self) -> (r: u64)
        ensures
            r == self.spec_raw(),
    {
        self.val
    }

    #[verifier::when_used_as_spec(spec_symbol_id)]
    pub fn symbol_id(&self) -> (r: u32)
        ensures
            r == self.spec_symbol_id(),
            r <= SYMBOL_MAX,
    {
        let v: u64 = self.val;
        proof {
            assert((v >> 44) & 0xF_FFFF == v / 0x1000_0000_0000) by (bit_vector);
            assert(v / 0x1000_0000_0000 <= 0xF_FFFF) by (bit_vector);
        }
        ((v >> 44) & 0xF_FFFF) as u32
    }

    #[verifier::when_used_as_spec(spec_metadata)]
    pub fn metadata(&self) -> (r: u8)
        ensures
            r == self.spec_metadata(),
            r <= METADATA_MAX,
    {
        let v: u64 = self.val;
        proof {
            assert((v >> 40) & 0xF == (v / 0x100_0000_0000) % 16) by (bit_vector);
        }
        ((v >> 40) & 0xF) as u8
    }

    #[verifier::when_used_as_spec(spec_sequence)]
    pub fn sequence(&self) -> (r: u64)
        ensures
            r == self.spec_sequence(),
            r <= SEQUENCE_MAX,
    {
        let v: u64 = self.val;
        proof {
            assert(v & 0xFF_FFFF_FFFF == v % 0x100_0000_0000) by (bit_vector);
        }
        v & 0xFF_FFFF_FFFF
    }
}

/// The side of the book that an order is on.
#[derive(Clone, Copy, Debug, PartialEq, Eq, Structural)]
pub enum OrderSide {
    Buy,
    Sell,
}

impl Default for OrderSide {
    fn default() -> (r: Self)
        ensures
            r == OrderSide::Buy,
    {
        OrderSide::Buy
    }
}

impl OrderSide {
    /// The other side.
    pub open spec fn spec_opposite(self) -> OrderSide {
        match self {
            OrderSide::Buy => OrderSide::Sell,
            OrderSide::Sell => OrderSide::Buy,
        }
    }

    #[verifier::when_used_as_spec(spec_opposite)]
    pub fn opposite(self) -> (r: OrderSide)
        ensures
            r == self.spec_opposite(),
    {
        match self {
            OrderSide::Buy => OrderSide::Sell,
            OrderSide::Sell => OrderSide::Buy,
        }
    }

    /// The name of the side.
    pub open spec fn spec_text(self) -> Seq<char> {
        match self {
            OrderSide::Buy => "Buy"@,
            OrderSide::Sell => "Sell"@,
        }
    }

    /// The name of the side.
    pub fn as_str(self) -> (r: &'static str)
        ensures
            r@ == self.spec_text(),
    {
        match self {
            OrderSide::Buy => "Buy",
            OrderSide::Sell => "Sell",
        }
    }

    /// The metadata bits that mark an order of this side.
    pub open spec fn metadata(self) -> u8 {
        match self {
            OrderSide::Buy => ORDER_MD_SIDE_BUY,
            OrderSide::Sell => ORDER_MD_SIDE_SELL,
        }
    }
}

/// The identifier of an order: a trading identifier whose metadata says
/// "order" in bit 0 and gives the side in bit 1.
#[derive(Clone, Copy, Debug, PartialEq, Eq, Hash, Structural)]
pub struct OrderId {
    id: TradingId,
}

impl OrderId {
    pub closed spec fn spec_raw(&self) -> u64 {
        self.id.spec_raw()
    }

    pub open spec fn spec_symbol_id(&self) -> u32 {
        raw_symbol_id(self.spec_raw()) as u32
    }

    pub open spec fn spec_side(&self) -> OrderSide {
        if raw_is_buy(self.spec_raw()) {
            OrderSide::Buy
        } else {
            OrderSide::Sell
        }
    }

    pub open spec fn spec_sequence(&self) -> u64 {
        raw_sequence(self.spec_raw()) as u64
    }

    /// Two order identifiers with the same number are the same identifier.
    pub proof fn lemma_raw_determines(a: OrderId, b: OrderId)
        requires
            a.spec_raw() == b.spec_raw(),
        ensures
            a == b,
    {
        TradingId::lemma_raw_determines(a.id, b.id);
    }

    /// The identifier of the order number `seq` of one side of one symbol.
    pub fn new(symbol_id: u32, side: OrderSide, seq: u64) -> (r: Result<Self, String>)
        ensures
            r is Ok <==> symbol_id <= SYMBOL_MAX && seq <= SEQUENCE_MAX,
            r matches Ok(id) ==> {
                &&& id.spec_raw() == pack(symbol_id as int, side.metadata() as int, seq as int)
                &&& raw_is_order(id.spec_raw())
                &&& id.spec_symbol_id() == symbol_id
                &&& id.spec_side() == side
                &&& id.spec_sequence() == seq
            },
            r matches Err(e) ==> e@ == (if symbol_id > SYMBOL_MAX {
                "symbol ID too high"@
            } else {
                "sequence number too high"@
            }),
    {
        let md: u8 = match side {
            OrderSide::Buy => ORDER_MD_SIDE_BUY,
            OrderSide::Sell => ORDER_MD_SIDE_SELL,
        };
        match TradingId::new(symbol_id, md, seq) {
            Ok(id) => Ok(OrderId { id }),
            Err(e) => Err(e),
        }
    }

    /// Takes a 64-bit value as an order identifier if its metadata says
    /// "order".
    pub fn from_raw(raw: u64) -> (r: Result<Self, String>)
        ensures
            r is Ok <==> raw_is_order(raw),
            r matches Ok(id) ==> id.spec_raw() == raw,
            r matches Err(e) ==> e@ == "id does not represent order"@,
    {
        let id = TradingId::from_raw(raw);
        let md: u8 = id.metadata();
        assert((md & 1 != 0) == (md % 2 != 0)) by (bit_vector);
        if (md & TRADING_MD_TYPE_MASK) != TRADING_MD_TYPE_ORDER {
            return Err("id does not represent order".to_owned());
        }
        Ok(OrderId { id })
    }

    #[verifier::when_used_as_spec(spec_raw)]
    pub fn raw(&self) -> (r: u64)
        ensures
            r == self.spec_raw(),
    {
        self.id.raw()
    }

    #[verifier::when_used_as_spec(spec_symbol_id)]
    pub fn symbol_id(&self) -> (r: u32)
        ensures
            r == self.spec_symbol_id(),
            r <= SYMBOL_MAX,
    {
        self.id.symbol_id()
    }

    /// The identifier as text: its number in decimal digits.
    pub fn to_string(&self) -> (r: String)
        ensures
            r@ == decimal_text(self.spec_raw() as nat),
    {
        self.id.to_string()
    }

    #[verifier::when_used_as_spec(spec_side)]
    pub fn side(&self) -> (r: OrderSide)
        ensures
            r == self.spec_side(),
    {
        let md: u8 = self.id.metadata();
        assert((md & 2 == 2) == ((md / 2) % 2 == 1)) by (bit_vector);
        if md & ORDER_MD_SIDE_MASK == ORDER_MD_SIDE_BUY {
            OrderSide::Buy
        } else {
            OrderSide::Sell
        }
    }

    #[verifier::when_used_as_spec(spec_sequence)]
    pub fn sequence(&self) -> (r: u64)
        ensures
            r == self.spec_sequence(),
            r <= SEQUENCE_MAX,
    {
        self.id.sequence()
    }
}

impl Default for OrderId {
    /// The last buy order identifier of the last symbol.
    fn default() -> (r: Self)
        ensures
            r.spec_raw() == pack(SYMBOL_MAX as int, ORDER_MD_SIDE_BUY as int, SEQUENCE_MAX as int),
            r.spec_side() == OrderSide::Buy,
    {
        Self::new(SYMBOL_MAX, OrderSide::Buy, SEQUENCE_MAX).unwrap()
    }
}

/// The identifier of an execution: a trading identifier whose metadata says
/// "execution" in bit 0.
#[derive(Clone, Copy, Debug, PartialEq, Eq, Hash, Structural)]
pub struct ExecutionId {
    id: TradingId,
}

impl ExecutionId {
    pub closed spec fn spec_raw(&self) -> u64 {
        self.id.spec_raw()
    }

    pub open spec fn spec_symbol_id(&self) -> u32 {
        raw_symbol_id(self.spec_raw()) as u32
    }

    pub open spec fn spec_sequence(&self) -> u64 {
        raw_sequence(self.spec_raw()) as u64
    }

    /// Two execution identifiers with the same number are the same
    /// identifier.
    pub proof fn lemma_raw_determines(a: ExecutionId, b: ExecutionId)
        requires
            a.spec_raw() == b.spec_raw(),
        ensures
            a == b,
    {
        TradingId::lemma_raw_determines(a.id, b.id);
    }

    /// The identifier of the execution number `seq` of one symbol.
    pub fn new(symbol_id: u32, seq: u64) -> (r: Result<Self, String>)
        ensures
            r is Ok <==> symbol_id <= SYMBOL_MAX && seq <= SEQUENCE_MAX,
            r matches Ok(id) ==> {
                &&& id.spec_raw() == pack(symbol_id as int, TRADING_MD_TYPE_EXEC as int, seq as int)
                &&& !raw_is_order(id.spec_raw())
                &&& id.spec_symbol_id() == symbol_id
                &&& id.spec_sequence() == seq
            },
            r matches Err(e) ==> e@ == (if symbol_id > SYMBOL_MAX {
                "symbol ID too high"@
            } else {
                "sequence number too high"@
            }),
    {
        match TradingId::new(symbol_id, TRADING_MD_TYPE_EXEC, seq) {
            Ok(id) => Ok(ExecutionId { id }),
            Err(e) => Err(e),
        }
    }

    /// Takes a 64-bit value as an execution identifier if its metadata says
    /// "execution".
    pub fn from_raw(raw: u64) -> (r: Result<Self, String>)
        ensures
            r is Ok <==> !raw_is_order(raw),
            r matches Ok(id) ==> id.spec_raw() == raw,
            r matches Err(e) ==> e@ == "id does not represent execution"@,
    {
        let id = TradingId::from_raw(raw);
        let md: u8 = id.metadata();
        assert((md & 1 != 1) == (md % 2 == 0)) by (bit_vector);
        if (md & TRADING_MD_TYPE_MASK) != TRADING_MD_TYPE_EXEC {
            return Err("id does not represent execution".to_owned());
        }
        Ok(ExecutionId { id })
    }

    #[verifier::when_used_as_spec(spec_raw)]
    pub fn raw(&self) -> (r: u64)
        ensures
            r == self.spec_raw(),
    {
        self.id.raw()
    }

    #[verifier::when_used_as_spec(spec_symbol_id)]
    pub fn symbol_id(&self) -> (r: u32)
        ensures
            r == self.spec_symbol_id(),
            r <= SYMBOL_MAX,
    {
        self.id.symbol_id()
    }

    #[verifier::when_used_as_spec(spec_sequence)]
    pub fn sequence(&self) -> (r: u64)
        ensures
            r == self.spec_sequence(),
            r <= SEQUENCE_MAX,
    {
        self.id.sequence()
    }
}

impl ExecutionId {
    /// The identifier as text: its number in decimal digits.
    pub fn to_string(&self) -> (r: String)
        ensures
            r@ == decimal_text(self.spec_raw() as nat),
    {
        self.id.to_string()
    }
}

impl Default for ExecutionId {
    /// The last execution identifier of the last symbol.
    fn default() -> (r: Self)
        ensures
            r.spec_raw() == pack(
                SYMBOL_MAX as int,
                TRADING_MD_TYPE_EXEC as int,
                SEQUENCE_MAX as int,
            ),
    {
        Self::new(SYMBOL_MAX, SEQUENCE_MAX).unwrap()
    }
}

/// A point in time: seconds since the epoch, and nanoseconds within the
/// second.
#[derive(Clone, Copy, Debug, PartialEq, Eq, Structural)]
pub struct OrderTime {
    pub sec: i64,
    pub nsec: i32,
}

impl OrderTime {
    /// Whether `self` is no later than `other`.
    pub open spec fn spec_not_after(&self, other: &OrderTime) -> bool {
        self.sec < other.sec || (self.sec == other.sec && self.nsec <= other.nsec)
    }

    #[verifier::when_used_as_spec(spec_not_after)]
    pub fn not_after(&self, other: &OrderTime) -> (r: bool)
        ensures
            r == self.spec_not_after(other),
    {
        self.sec < other.sec || (self.sec == other.sec && self.nsec <= other.nsec)
    }
}

/// Reads the clock through `time::now` and `Tm::to_timespec`. Which time
/// comes back is up to the clock; the nanoseconds are those of a
/// `Timespec`, at least 0 and less than a second.
#[verifier::external_body]
pub(crate) fn current_time() -> (t: OrderTime)
    ensures
        0 <= t.nsec < 1_000_000_000,
{
    let ts = time::now().to_timespec();
    OrderTime { sec: ts.sec, nsec: ts.nsec }
}

/// The name of an instrument: up to 8 bytes, followed by zero bytes up to
/// the width of 8. Its view is the 8 bytes.
#[derive(Clone, Copy, Debug, Eq, Hash)]
pub struct Symbol {
    pub s: [u8; SYMBOL_MAX_LENGTH],
}

impl View for Symbol {
    type V = Seq<u8>;

    open spec fn view(&self) -> Seq<u8> {
        self.s@
    }
}

impl PartialEq for Symbol {
    fn eq(&self, other: &Symbol) -> (r: bool) {
        let mut i: usize = 0;
        while i < SYMBOL_MAX_LENGTH
            invariant
                i <= SYMBOL_MAX_LENGTH,
                forall|j: int| 0 <= j < i ==> self.s@[j] == other.s@[j],
            decreases SYMBOL_MAX_LENGTH - i,
        {
            if self.s[i] != other.s[i] {
                return false;
            }
            i += 1;
        }
        assert(self.s@ =~= other.s@);
        true
    }
}

impl vstd::std_specs::cmp::PartialEqSpecImpl for Symbol {
    open spec fn obeys_eq_spec() -> bool {
        true
    }

    open spec fn eq_spec(&self, other: &Symbol) -> bool {
        self.s@ == other.s@
    }
}

/// `bytes`, followed by zero bytes up to the width of a symbol.
pub open spec fn padded(bytes: Seq<u8>) -> Seq<u8> {
    Seq::new(
        SYMBOL_MAX_LENGTH as nat,
        |i: int|
            if i < bytes.len() {
                bytes[i]
            } else {
                0u8
            },
    )
}

/// The number of bytes of `s` before its first zero byte.
pub open spec fn prefix_len(s: Seq<u8>) -> nat
    decreases s.len(),
{
    if s.len() == 0 || s[0] == 0 {
        0
    } else {
        1 + prefix_len(s.drop_first())
    }
}

/// Where the first `n` bytes of `s` are not zero and a zero byte or the end
/// of `s` follows, `n` is the number of bytes before the first zero byte.
pub proof fn lemma_prefix_len_is(s: Seq<u8>, n: nat)
    requires
        n <= s.len(),
        forall|j: int| 0 <= j < n ==> s[j] != 0,
        n < s.len() ==> s[n as int] == 0,
    ensures
        prefix_len(s) == n,
    decreases s.len(),
{
    if s.len() == 0 || s[0] == 0 {
    } else {
        let rest = s.drop_first();
        assert forall|j: int| 0 <= j < n - 1 implies rest[j] != 0 by {
            assert(rest[j] == s[j + 1]);
        }
        lemma_prefix_len_is(rest, (n - 1) as nat);
    }
}

/// Reads `bytes` as UTF-8 through `core::str::from_utf8`: a string with
/// these bytes where they are valid UTF-8, and nothing where they are not.
#[verifier::external_body]
fn str_from_utf8(bytes: &[u8]) -> (r: Option<&str>)
    ensures
        r is Some <==> vstd::utf8::valid_utf8(bytes@),
        r matches Some(text) ==> text.spec_bytes() == bytes@,
{
    core::str::from_utf8(bytes).ok()
}

impl Symbol {
    /// Two symbols with the same bytes are the same symbol.
    pub proof fn lemma_view_determines(a: Symbol, b: Symbol)
        requires
            a@ == b@,
        ensures
            a == b,
    {
        assert(a.s =~= b.s);
    }

    /// The symbol of 8 zero bytes.
    pub fn new() -> (r: Self)
        ensures
            r@ == padded(Seq::<u8>::empty()),
    {
        let r = Symbol { s: [0, 0, 0, 0, 0, 0, 0, 0] };
        assert(r@ =~= padded(Seq::<u8>::empty()));
        r
    }

    /// The symbol that starts with `bytes`; fails where they are more than
    /// 8.
    pub fn from_bytes(bytes: &[u8]) -> (r: Result<Self, ()>)
        ensures
            r is Ok <==> bytes@.len() <= SYMBOL_MAX_LENGTH,
            r matches Ok(sym) ==> sym@ == padded(bytes@),
    {
        let sym_len: usize = bytes.len();
        if sym_len > SYMBOL_MAX_LENGTH {
            return Err(());
        }
        let mut s: [u8; SYMBOL_MAX_LENGTH] = Self::new().s;
        let mut i: usize = 0;
        while i < sym_len
            invariant
                i <= sym_len <= SYMBOL_MAX_LENGTH,
                sym_len == bytes@.len(),
                forall|j: int| 0 <= j < i ==> s@[j] == bytes@[j],
                forall|j: int| i <= j < SYMBOL_MAX_LENGTH ==> s@[j] == 0,
            decreases sym_len - i,
        {
            s[i] = bytes[i];
            i += 1;
        }
        let sym = Symbol { s };
        assert(sym@ =~= padded(bytes@));
        Ok(sym)
    }

    /// The 8 bytes of the symbol.
    pub fn to_bytes(&self) -> (r: &[u8])
        ensures
            r@ == self@,
    {
        self.s.as_slice()
    }

    /// The symbol that starts with the bytes of `s`; fails where they are
    /// more than 8.
    pub fn from_str(s: &str) -> (r: Result<Self, ()>)
        ensures
            r is Ok <==> s.spec_bytes().len() <= SYMBOL_MAX_LENGTH,
            r matches Ok(sym) ==> sym@ == padded(s.spec_bytes()),
    {
        Self::from_bytes(s.as_bytes())
    }

    /// The printable form: the bytes before the first zero byte.
    pub open spec fn spec_prefix(&self) -> Seq<u8> {
        self@.take(prefix_len(self@) as int)
    }

    /// The printable form of the symbol as text: the bytes before the first
    /// zero byte, which have to be valid UTF-8.
    pub fn as_str(&self) -> (r: &str)
        requires
            vstd::utf8::valid_utf8(self.spec_prefix()),
        ensures
            r.spec_bytes() == self.spec_prefix(),
    {
        let mut n: usize = 0;
        while n < SYMBOL_MAX_LENGTH && self.s[n] != 0
            invariant
                n <= SYMBOL_MAX_LENGTH,
                forall|j: int| 0 <= j < n ==> self.s@[j] != 0,
            decreases SYMBOL_MAX_LENGTH - n,
        {
            n += 1;
        }
        proof {
            lemma_prefix_len_is(self@, n as nat);
        }
        let head: &[u8] = vstd::slice::slice_subrange(self.s.as_slice(), 0, n);
        assert(head@ =~= self.spec_prefix());
        str_from_utf8(head).unwrap()
    }
}

impl Symbol {
    /// The printable form of the symbol as text of its own.
    pub fn to_string(&self) -> (r: String)
        requires
            vstd::utf8::valid_utf8(self.spec_prefix()),
        ensures
            vstd::utf8::encode_utf8(r@) == self.spec_prefix(),
    {
        self.as_str().to_owned()
    }
}

impl Default for Symbol {
    fn default() -> (r: Self)
        ensures
            r@ == padded(Seq::<u8>::empty()),
    {
        Self::new()
    }
}

/// How a command ended.
#[derive(Clone, Copy, Debug, PartialEq, Eq, Structural)]
pub enum ErrorCode {
    Success,
    DuplicateId,
    Other,
}

impl ErrorCode {
    /// The name of the code.
    pub open spec fn spec_text(self) -> Seq<char> {
        match self {
            ErrorCode::Success => "Success"@,
            ErrorCode::DuplicateId => "DuplicateId"@,
            ErrorCode::Other => "Other"@,
        }
    }

    /// The name of the code.
    pub fn as_str(self) -> (r: &'static str)
        ensures
            r@ == self.spec_text(),
    {
        match self {
            ErrorCode::Success => "Success",
            ErrorCode::DuplicateId => "DuplicateId",
            ErrorCode::Other => "Other",
        }
    }
}

/// An error with the code that classifies it and a description.
#[derive(Debug)]
pub struct Error {
    code: ErrorCode,
    desc: String,
}

impl Error {
    pub closed spec fn spec_code(&self) -> ErrorCode {
        self.code
    }

    pub closed spec fn spec_description(&self) -> Seq<char> {
        self.desc@
    }

    pub fn new(code: ErrorCode, desc: String) -> (r: Self)
        ensures
            r.spec_code() == code,
            r.spec_description() == desc@,
    {
        Error { code, desc }
    }

    #[verifier::when_used_as_spec(spec_code)]
    pub fn code(&self) -> (r: ErrorCode)
        ensures
            r == self.spec_code(),
    {
        self.code
    }

    pub fn description(&self) -> (r: &str)
        ensures
            r@ == self.spec_description(),
    {
        self.desc.as_str()
    }

    /// The error as text: the name of its code, a colon and the
    /// description.
    pub fn to_string(&self) -> (r: String)
        ensures
            r@ == self.spec_code().spec_text() + ": "@ + self.spec_description(),
    {
        let mut r: String = self.code.as_str().to_owned();
        r.append(": ");
        r.append(self.desc.as_str());
        r
    }
}

/// Reads `bytes` as a UUID through `uuid::Uuid::from_slice` and hands out
/// its 16 bytes: the bytes that were given, where they are 16, and nothing
/// where they are more or fewer.
#[verifier::external_body]
fn uuid_from_slice(bytes: &[u8]) -> (r: Option<[u8; 16]>)
    ensures
        r is Some <==> bytes@.len() == 16,
        r matches Some(id) ==> id@ == bytes@,
{
    uuid::Uuid::from_slice(bytes).ok().map(|id| id.into_bytes())
}

/// What `read_uuid` says of bytes that are no UUID.
pub open spec fn uuid_length_text(len: nat) -> Seq<char> {
    "invalid byte length "@ + decimal_text(len)
}

/// Reads the 16 bytes of a UUID; any other number of bytes is an error that
/// names the number.
pub fn read_uuid(bytes: &[u8]) -> (r: Result<[u8; 16], Error>)
    ensures
        r is Ok <==> bytes@.len() == 16,
        r matches Ok(id) ==> id@ == bytes@,
        r matches Err(e) ==> e.spec_code() == ErrorCode::Other && e.spec_description()
            == uuid_length_text(bytes@.len()),
{
    match uuid_from_slice(bytes) {
        Some(id) => Ok(id),
        None => {
            let mut desc: String = "invalid byte length ".to_owned();
            append_decimal(&mut desc, bytes.len() as u64);
            Err(Error::new(ErrorCode::Other, desc))
        },
    }
}

/// A price level: a price and the quantity on offer at it.
#[derive(Clone, Copy, Debug, PartialEq, Eq, Structural)]
pub struct MdEntry {
    pub price: Price,
    pub quantity: LevelQuantity,
}

impl MdEntry {
    /// The entry that stands for "nothing there".
    pub open spec fn zero() -> MdEntry {
        MdEntry { price: 0, quantity: 0 }
    }
}

impl Default for MdEntry {
    fn default() -> (r: Self)
        ensures
            r == MdEntry::zero(),
    {
        MdEntry { price: 0, quantity: 0 }
    }
}

/// An order as it rests on a book or comes in.
#[derive(Clone, Copy, Debug)]
pub struct Order {
    pub id: OrderId,
    pub user: UserId,
    pub symbol: Symbol,
    pub side: OrderSide,
    pub price: Price,
    pub quantity: Quantity,
    pub update: OrderTime,
}

impl Order {
    /// The order that `Default` gives, updated at `now`.
    pub open spec fn spec_default_at(this: Order, now: OrderTime) -> bool {
        &&& this.id.spec_raw() == pack(
            SYMBOL_MAX as int,
            ORDER_MD_SIDE_BUY as int,
            SEQUENCE_MAX as int,
        )
        &&& this.user == 0
        &&& this.symbol@ == padded(Seq::<u8>::empty())
        &&& this.side == OrderSide::Buy
        &&& this.price == 0
        &&& this.quantity == 0
        &&& this.update == now
    }

    /// The order that `Default` gives, updated at `now`.
    pub fn default_at(now: OrderTime) -> (r: Order)
        ensures
            Order::spec_default_at(r, now),
    {
        Order {
            id: OrderId::default(),
            user: 0,
            symbol: Symbol::default(),
            side: OrderSide::default(),
            price: 0,
            quantity: 0,
            update: now,
        }
    }

    /// Whether the identifier of the order names the side that the order is
    /// on.
    pub open spec fn consistent(&self) -> bool {
        self.id.spec_side() == self.side
    }
}

/// An order as text, where `symbol` is the text of its symbol.
pub open spec fn order_text(o: Order, symbol: Seq<char>) -> Seq<char> {
    "Order "@ + decimal_text(o.id.spec_raw() as nat) + ": "@ + o.side.spec_text() + " "@
        + decimal_text(o.quantity as nat) + " shares of "@ + symbol + " @ "@ + decimal_text(
        o.price as nat,
    )
}

impl Order {
    /// The order as text: its identifier, side, quantity, symbol and price.
    pub fn to_string(&self) -> (r: String)
        requires
            vstd::utf8::valid_utf8(self.symbol.spec_prefix()),
        ensures
            exists|symbol: Seq<char>| #[trigger]
                vstd::utf8::encode_utf8(symbol) == self.symbol.spec_prefix() && r@ == order_text(
                    *self,
                    symbol,
                ),
    {
        let symbol: &str = self.symbol.as_str();
        let mut r: String = "Order ".to_owned();
        append_decimal(&mut r, self.id.raw());
        r.append(": ");
        r.append(self.side.as_str());
        r.append(" ");
        append_decimal(&mut r, self.quantity as u64);
        r.append(" shares of ");
        r.append(symbol);
        r.append(" @ ");
        append_decimal(&mut r, self.price);
        assert(vstd::utf8::encode_utf8(symbol@) == self.symbol.spec_prefix());
        assert(r@ =~= order_text(*self, symbol@));
        r
    }
}

impl Default for Order {
    /// An order of no quantity, updated now.
    fn default() -> (r: Self)
        ensures
            Order::spec_default_at(r, r.update),
    {
        Order::default_at(current_time())
    }
}

impl PartialEq for Order {
    fn eq(&self, other: &Order) -> (r: bool) {
        self.id == other.id
    }
}

impl Eq for Order {

}

impl vstd::std_specs::cmp::PartialEqSpecImpl for Order {
    open spec fn obeys_eq_spec() -> bool {
        true
    }

    open spec fn eq_spec(&self, other: &Order) -> bool {
        self.id == other.id
    }
}

/// A trade between a buy order and a sell order.
#[derive(Clone, Copy, Debug)]
pub struct Execution {
    pub id: ExecutionId,
    pub ts: OrderTime,
    pub buy_order: OrderId,
    pub buy_user: UserId,
    pub sell_order: OrderId,
    pub sell_user: UserId,
    pub symbol: Symbol,
    pub price: Price,
    pub quantity: Quantity,
}

/// An execution as text, where `symbol` is the text of its symbol.
pub open spec fn execution_text(e: Execution, symbol: Seq<char>) -> Seq<char> {
    "Execution "@ + decimal_text(e.id.spec_raw() as nat) + ": "@ + decimal_text(
        e.buy_order.spec_raw() as nat,
    ) + " bought "@ + decimal_text(e.quantity as nat) + " shares of "@ + symbol + " from "@
        + decimal_text(e.sell_order.spec_raw() as nat) + " @ "@ + decimal_text(e.price as nat)
}

impl Execution {
    /// The execution as text: its identifier, the two orders, the
    /// quantity, the symbol and the price.
    pub fn to_string(&self) -> (r: String)
        requires
            vstd::utf8::valid_utf8(self.symbol.spec_prefix()),
        ensures
            exists|symbol: Seq<char>| #[trigger]
                vstd::utf8::encode_utf8(symbol) == self.symbol.spec_prefix() && r@
                    == execution_text(*self, symbol),
    {
        let symbol: &str = self.symbol.as_str();
        let mut r: String = "Execution ".to_owned();
        append_decimal(&mut r, self.id.raw());
        r.append(": ");
        append_decimal(&mut r, self.buy_order.raw());
        r.append(" bought ");
        append_decimal(&mut r, self.quantity as u64);
        r.append(" shares of ");
        r.append(symbol);
        r.append(" from ");
        append_decimal(&mut r, self.sell_order.raw());
        r.append(" @ ");
        append_decimal(&mut r, self.price);
        assert(vstd::utf8::encode_utf8(symbol@) == self.symbol.spec_prefix());
        assert(r@ =~= execution_text(*self, symbol@));
        r
    }
}

/// A trade as market data shows it.
#[derive(Clone, Copy, Debug)]
pub struct MdExecution {
    pub symbol: Symbol,
    pub price: Price,
    pub quantity: Quantity,
    pub ts: OrderTime,
}

impl From<Execution> for MdExecution {
    fn from(e: Execution) -> (r: Self) {
        MdExecution { symbol: e.symbol, price: e.price, quantity: e.quantity, ts: e.ts }
    }
}

impl vstd::std_specs::convert::FromSpecImpl<Execution> for MdExecution {
    open spec fn obeys_from_spec() -> bool {
        true
    }

    open spec fn from_spec(e: Execution) -> MdExecution {
        MdExecution { symbol: e.symbol, price: e.price, quantity: e.quantity, ts: e.ts }
    }
}

/// The top of a book: the best bid, the best ask and the last trade, each
/// where there is one.
#[derive(Clone, Copy, Debug)]
pub struct L1Md {
    pub symbol: Symbol,
    pub bid: Option<MdEntry>,
    pub ask: Option<MdEntry>,
    pub last: Option<MdExecution>,
}

/// One side of a depth snapshot: the first `n_entry` of `entries` are its
/// price levels, best first.
#[derive(Clone, Copy, Debug)]
pub struct L2MdSide {
    pub entries: [MdEntry; L2_MD_DEPTH],
    pub n_entry: usize,
}

/// The first 5 of `levels`, followed by zero entries up to the number of 5.
pub open spec fn padded_levels(levels: Seq<MdEntry>) -> Seq<MdEntry> {
    Seq::new(
        L2_MD_DEPTH as nat,
        |i: int|
            if i < levels.len() {
                levels[i]
            } else {
                MdEntry::zero()
            },
    )
}

impl L2MdSide {
    /// Whether `self` holds the first 5 of `levels`.
    pub open spec fn holds(&self, levels: Seq<MdEntry>) -> bool {
        &&& self.entries@ == padded_levels(levels)
        &&& self.n_entry == (if levels.len() <= L2_MD_DEPTH {
            levels.len()
        } else {
            L2_MD_DEPTH as nat
        })
    }

    /// The price levels, best first.
    pub open spec fn spec_levels(&self) -> Seq<MdEntry> {
        self.entries@.take(self.n_entry as int)
    }

    /// The side that holds the first 5 of `levels`.
    pub fn from_levels(levels: &Vec<MdEntry>) -> (r: Self)
        ensures
            r.holds(levels@),
    {
        let size: usize = if levels.len() < L2_MD_DEPTH {
            levels.len()
        } else {
            L2_MD_DEPTH
        };
        let zero = MdEntry { price: 0, quantity: 0 };
        let mut entries: [MdEntry; L2_MD_DEPTH] = [zero, zero, zero, zero, zero];
        let mut i: usize = 0;
        while i < size
            invariant
                i <= size <= L2_MD_DEPTH,
                size <= levels@.len(),
                forall|j: int| 0 <= j < i ==> entries@[j] == levels@[j],
                forall|j: int| i <= j < L2_MD_DEPTH ==> entries@[j] == MdEntry::zero(),
            decreases size - i,
        {
            entries[i] = levels[i];
            i += 1;
        }
        let r = L2MdSide { entries, n_entry: size };
        assert(r.entries@ =~= padded_levels(levels@));
        r
    }

    /// The price levels, best first.
    pub fn iter(&self) -> (r: Vec<MdEntry>)
        requires
            self.n_entry <= L2_MD_DEPTH,
        ensures
            r@ == self.spec_levels(),
    {
        let mut r: Vec<MdEntry> = Vec::new();
        let mut i: usize = 0;
        while i < self.n_entry
            invariant
                i <= self.n_entry <= L2_MD_DEPTH,
                r@ =~= self.entries@.take(i as int),
            decreases self.n_entry - i,
        {
            r.push(self.entries[i]);
            i += 1;
        }
        r
    }
}

impl From<Vec<MdEntry>> for L2MdSide {
    fn from(entry_vec: Vec<MdEntry>) -> (r: Self) {
        let r = L2MdSide::from_levels(&entry_vec);
        proof {
            let c = choose|side: L2MdSide| side.holds(entry_vec@);
            assert(c.entries@ =~= r.entries@);
            assert(c.entries == r.entries);
        }
        r
    }
}

impl vstd::std_specs::convert::FromSpecImpl<Vec<MdEntry>> for L2MdSide {
    open spec fn obeys_from_spec() -> bool {
        true
    }

    open spec fn from_spec(entry_vec: Vec<MdEntry>) -> L2MdSide {
        choose|side: L2MdSide| side.holds(entry_vec@)
    }
}

/// The depth of a book: up to 5 price levels per side and the last trade.
#[derive(Clone, Copy, Debug)]
pub struct L2Md {
    pub symbol: Symbol,
    pub bids: L2MdSide,
    pub asks: L2MdSide,
    pub last: Option<MdExecution>,
}

} // verus!
