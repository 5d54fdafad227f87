//! The router: the symbols of the venue, the order identifiers that it
//! hands out, and how it keeps them fresh when a log is played back.

use crate::messages::{EngineMessage, NewOrderMessage};
use crate::order::trade_types::{OrderId, OrderSide, Symbol, SEQUENCE_MAX, SYMBOL_MAX};
use vstd::prelude::*;

verus! {

/// Why the router turns something down.
#[derive(Clone, Copy, Debug, PartialEq, Eq, Structural)]
pub enum RouterError {
    /// A symbol occurs twice among the symbols of the venue.
    DuplicateSymbol,
    /// The venue has more symbols than identifiers can number.
    TooManySymbols,
    /// The venue does not have the symbol.
    InvalidSymbol,
    /// The symbol has used up its sequence numbers.
    SequenceExhausted,
}

/// The symbols of the venue; the place of a symbol is its id.
pub struct SymbolLookup {
    symbols: Vec<Symbol>,
}

impl View for SymbolLookup {
    type V = Seq<Symbol>;

    closed spec fn view(&self) -> Seq<Symbol> {
        self.symbols@
    }
}

impl SymbolLookup {
    /// The invariant of the symbols: no symbol occurs twice, and every id
    /// fits an identifier.
    pub closed spec fn wf(&self) -> bool {
        &&& self.symbols@.len() <= SYMBOL_MAX + 1
        &&& forall|i: int, j: int|
            0 <= i < j < self.symbols@.len() ==> (#[trigger] self.symbols@[i])@
                != (#[trigger] self.symbols@[j])@
    }

    /// What the invariant says in terms of the view.
    pub proof fn lemma_invariant(&self)
        requires
            self.wf(),
        ensures
            self@.len() <= SYMBOL_MAX + 1,
            forall|i: int, j: int|
                0 <= i < j < self@.len() ==> (#[trigger] self@[i])@ != (#[trigger] self@[j])@,
    {
    }

    /// The symbols `symbols`, numbered in their order; fails where one
    /// occurs twice or where they are more than identifiers can number.
    pub fn new(symbols: &Vec<Symbol>) -> (r: Result<Self, RouterError>)
        ensures
            r is Ok <==> symbols@.len() <= SYMBOL_MAX + 1 && forall|i: int, j: int|
                0 <= i < j < symbols@.len() ==> (#[trigger] symbols@[i])@
                    != (#[trigger] symbols@[j])@,
            r matches Ok(lookup) ==> lookup.wf() && lookup@ == symbols@,
            r matches Err(e) ==> e == (if symbols@.len() > SYMBOL_MAX + 1 {
                RouterError::TooManySymbols
            } else {
                RouterError::DuplicateSymbol
            }),
    {
        if symbols.len() > SYMBOL_MAX as usize + 1 {
            return Err(RouterError::TooManySymbols);
        }
        let mut mine: Vec<Symbol> = Vec::new();
        let mut i: usize = 0;
        while i < symbols.len()
            invariant
                i <= symbols@.len() <= SYMBOL_MAX + 1,
                mine@ == symbols@.take(i as int),
                forall|a: int, b: int|
                    0 <= a < b < i ==> (#[trigger] symbols@[a])@ != (#[trigger] symbols@[b])@,
            decreases symbols@.len() - i,
        {
            let mut j: usize = 0;
            while j < i
                invariant
                    j <= i < symbols@.len() <= SYMBOL_MAX + 1,
                    forall|a: int| 0 <= a < j ==> (#[trigger] symbols@[a])@ != symbols@[i as int]@,
                decreases i - j,
            {
                if symbols[j] == symbols[i] {
                    return Err(RouterError::DuplicateSymbol);
                }
                j += 1;
            }
            mine.push(symbols[i]);
            assert(mine@ =~= symbols@.take(i + 1));
            i += 1;
        }
        assert(symbols@.take(i as int) =~= symbols@);
        Ok(SymbolLookup { symbols: mine })
    }

    /// The symbol with the id `id`.
    pub fn get_symbol(&self, id: usize) -> (r: Result<Symbol, ()>)
        ensures
            r is Ok <==> id < self@.len(),
            r matches Ok(symbol) ==> symbol == self@[id as int],
    {
        if id >= self.symbols.len() {
            Err(())
        } else {
            Ok(self.symbols[id])
        }
    }

    /// The id of `symbol`.
    pub fn get_symbol_id(&self, symbol: &Symbol) -> (r: Result<usize, ()>)
        ensures
            match r {
                Ok(id) => id < self@.len() && self@[id as int]@ == symbol@,
                Err(_) => forall|i: int| 0 <= i < self@.len() ==> (#[trigger] self@[i])@ != symbol@,
            },
    {
        let mut i: usize = 0;
        while i < self.symbols.len()
            invariant
                i <= self.symbols@.len(),
                forall|a: int| 0 <= a < i ==> (#[trigger] self.symbols@[a])@ != symbol@,
            decreases self.symbols@.len() - i,
        {
            if self.symbols[i] == *symbol {
                return Ok(i);
            }
            i += 1;
        }
        Err(())
    }

    /// The number of symbols.
    pub fn len(&self) -> (r: usize)
        ensures
            r == self@.len(),
    {
        self.symbols.len()
    }
}

/// Hands out order identifiers and says which engine a command goes to.
pub trait OrderRouter {
    /// The number of engines.
    spec fn engines(&self) -> u32;

    /// The number of engines.
    fn n_engine(&self) -> (n: u32)
        ensures
            n == self.engines(),
            n >= 1,
    ;

    /// The engine that the command `msg` goes to.
    fn route_order(&self, msg: &EngineMessage) -> (engine: u32)
        ensures
            engine < self.engines(),
    ;
}

/// The router of a venue with one engine for all symbols.
pub struct SingleRouter {
    symbols: SymbolLookup,
    seq_list: Vec<u64>,
}

impl SingleRouter {
    /// The symbols of the venue.
    pub closed spec fn spec_symbols(&self) -> Seq<Symbol> {
        self.symbols@
    }

    /// The sequence number of the next order of the symbol with the id `i`.
    pub closed spec fn spec_next(&self, i: int) -> u64 {
        self.seq_list@[i]
    }

    /// The invariant of the router: one counter for every symbol.
    pub closed spec fn wf(&self) -> bool {
        &&& self.symbols.wf()
        &&& self.seq_list@.len() == self.symbols@.len()
    }

    /// Whether `self` has the symbols of `other` and, but for the symbol
    /// with the id `i`, its counters.
    pub open spec fn same_but(&self, other: &SingleRouter, i: int) -> bool {
        &&& self.spec_symbols() == other.spec_symbols()
        &&& forall|j: int|
            0 <= j < self.spec_symbols().len() && j != i ==> #[trigger] self.spec_next(j)
                == other.spec_next(j)
    }

    /// What the invariant says of the symbols.
    pub proof fn lemma_invariant(&self)
        requires
            self.wf(),
        ensures
            self.spec_symbols().len() <= SYMBOL_MAX + 1,
            forall|i: int, j: int|
                0 <= i < j < self.spec_symbols().len() ==> (#[trigger] self.spec_symbols()[i])@
                    != (#[trigger] self.spec_symbols()[j])@,
    {
        self.symbols.lemma_invariant();
    }

    /// A router for `symbols` that has handed out no identifier yet.
    pub fn new(symbols: SymbolLookup) -> (r: Self)
        requires
            symbols.wf(),
        ensures
            r.wf(),
            r.spec_symbols() == symbols@,
            forall|i: int| 0 <= i < symbols@.len() ==> #[trigger] r.spec_next(i) == 0,
    {
        let len: usize = symbols.len();
        let mut seq_list: Vec<u64> = Vec::new();
        let mut i: usize = 0;
        while i < len
            invariant
                i <= len,
                seq_list@.len() == i,
                forall|k: int| 0 <= k < i ==> seq_list@[k] == 0,
            decreases len - i,
        {
            seq_list.push(0u64);
            i += 1;
        }
        SingleRouter { symbols, seq_list }
    }

    /// What asking for an order identifier comes to: the next identifier
    /// of the symbol and side, with the sequence number that the symbol's
    /// counter shows, and the counter one further. The venue has to have
    /// the symbol, and the symbol a sequence number left.
    pub open spec fn created(
        before: SingleRouter,
        symbol: Symbol,
        side: OrderSide,
        r: Result<OrderId, RouterError>,
        after: SingleRouter,
    ) -> bool {
        if forall|i: int|
            0 <= i < before.spec_symbols().len() ==> (#[trigger] before.spec_symbols()[i])@
                != symbol@ {
            r == Err::<OrderId, RouterError>(RouterError::InvalidSymbol) && after.same_but(
                &before,
                -1,
            )
        } else {
            let i = choose|i: int|
                0 <= i < before.spec_symbols().len() && (#[trigger] before.spec_symbols()[i])@
                    == symbol@;
            if before.spec_next(i) > SEQUENCE_MAX {
                r == Err::<OrderId, RouterError>(RouterError::SequenceExhausted)
                    && after.same_but(&before, -1)
            } else {
                &&& r matches Ok(id)
                &&& id.spec_symbol_id() == i
                &&& id.spec_side() == side
                &&& id.spec_sequence() == before.spec_next(i)
                &&& after.same_but(&before, i)
                &&& after.spec_next(i) == before.spec_next(i) + 1
            }
        }
    }

    /// The identifier of the next order of `symbol` on `side`.
    pub fn create_order_id(&mut self, symbol: &Symbol, side: &OrderSide) -> (r: Result<
        OrderId,
        RouterError,
    >)
        requires
            old(self).wf(),
        ensures
            final(self).wf(),
            Self::created(*old(self), *symbol, *side, r, *final(self)),
    {
        proof {
            self.symbols.lemma_invariant();
        }
        let sym_id: usize = match self.symbols.get_symbol_id(symbol) {
            Ok(id) => id,
            Err(_) => {
                return Err(RouterError::InvalidSymbol);
            },
        };
        proof {
            let i = choose|i: int|
                0 <= i < self.spec_symbols().len() && (#[trigger] self.spec_symbols()[i])@
                    == symbol@;
            if i < sym_id {
                assert(self.spec_symbols()[i]@ != self.spec_symbols()[sym_id as int]@);
            } else if sym_id < i {
                assert(self.spec_symbols()[sym_id as int]@ != self.spec_symbols()[i]@);
            }
        }
        let seq: u64 = self.seq_list[sym_id];
        let order_id: OrderId = match OrderId::new(sym_id as u32, *side, seq) {
            Ok(id) => id,
            Err(_) => {
                return Err(RouterError::SequenceExhausted);
            },
        };
        self.seq_list[sym_id] = seq + 1;
        Ok(order_id)
    }

    /// What playing a command back comes to: a new order moves the counter
    /// of its symbol behind its own sequence number, unless the counter is
    /// there already; any other command changes nothing. The venue has to
    /// have the symbol of a new order.
    pub open spec fn replayed(
        before: SingleRouter,
        msg: EngineMessage,
        r: Result<(), RouterError>,
        after: SingleRouter,
    ) -> bool {
        match msg {
            EngineMessage::NewOrder(n) => if forall|i: int|
                0 <= i < before.spec_symbols().len() ==> (#[trigger] before.spec_symbols()[i])@
                    != n.symbol@ {
                r == Err::<(), RouterError>(RouterError::InvalidSymbol) && after.same_but(
                    &before,
                    -1,
                )
            } else {
                let i = choose|i: int|
                    0 <= i < before.spec_symbols().len() && (#[trigger] before.spec_symbols()[i])@
                        == n.symbol@;
                &&& r is Ok
                &&& after.same_but(&before, i)
                &&& after.spec_next(i) == (if n.order_id.spec_sequence() >= before.spec_next(i) {
                    (n.order_id.spec_sequence() + 1) as u64
                } else {
                    before.spec_next(i)
                })
            },
            _ => r is Ok && after.same_but(&before, -1),
        }
    }

    /// Takes note of a command that is played back from the log, so that
    /// no identifier is handed out twice.
    pub fn replay_message(&mut self, msg: &EngineMessage) -> (r: Result<(), RouterError>)
        requires
            old(self).wf(),
        ensures
            final(self).wf(),
            Self::replayed(*old(self), *msg, r, *final(self)),
    {
        proof {
            self.symbols.lemma_invariant();
        }
        if let EngineMessage::NewOrder(new_order) = msg {
            let sym_id: usize = match self.symbols.get_symbol_id(&new_order.symbol) {
                Ok(id) => id,
                Err(_) => {
                    return Err(RouterError::InvalidSymbol);
                },
            };
            proof {
                let i = choose|i: int|
                    0 <= i < self.spec_symbols().len() && (#[trigger] self.spec_symbols()[i])@
                        == new_order.symbol@;
                if i < sym_id {
                    assert(self.spec_symbols()[i]@ != self.spec_symbols()[sym_id as int]@);
                } else if sym_id < i {
                    assert(self.spec_symbols()[sym_id as int]@ != self.spec_symbols()[i]@);
                }
            }
            let order_seq: u64 = new_order.order_id.sequence();
            if order_seq >= self.seq_list[sym_id] {
                self.seq_list[sym_id] = order_seq + 1;
            }
        }
        Ok(())
    }

    /// After a new order has been played back, the next identifier of its
    /// symbol has a larger sequence number than the order: no identifier is
    /// used twice.
    pub proof fn lemma_replay_keeps_ids_fresh(
        before: SingleRouter,
        n: NewOrderMessage,
        mid: SingleRouter,
        side: OrderSide,
        r: Result<OrderId, RouterError>,
        after: SingleRouter,
    )
        requires
            before.wf(),
            Self::replayed(before, EngineMessage::NewOrder(n), Ok(()), mid),
            Self::created(mid, n.symbol, side, r, after),
        ensures
            r matches Ok(id) ==> id.spec_sequence() > n.order_id.spec_sequence(),
    {
        before.lemma_invariant();
        assert(mid.spec_symbols() == before.spec_symbols());
    }

    /// The number of symbols.
    pub fn n_symbols(&self) -> (r: usize)
        ensures
            r == self.spec_symbols().len(),
    {
        self.symbols.len()
    }
}

impl OrderRouter for SingleRouter {
    open spec fn engines(&self) -> u32 {
        1
    }

    fn n_engine(&self) -> (n: u32) {
        1u32
    }

    fn route_order(&self, msg: &EngineMessage) -> (engine: u32)
        ensures
            engine == 0,
    {
        0u32
    }
}

} // verus!
