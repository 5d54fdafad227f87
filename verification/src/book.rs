//! Price-time priority order books: the two sides of a book, the order in
//! which resting orders trade, and the matcher that crosses a new order
//! against them.

use crate::heap::{Comparer, HeapHandle, HeapIterator, TreeHeap};
use crate::order::trade_types::{
    current_time, ErrorCode, Execution, ExecutionId, L1Md, L2Md, L2MdSide, LevelQuantity,
    MdEntry, MdExecution, Order, OrderId, OrderSide, OrderTime, Price, Quantity, Symbol,
    L2_MD_DEPTH, SEQUENCE_MAX, SYMBOL_MAX, TRADING_MD_TYPE_EXEC, pack,
};
use std::cmp::Ordering;
use std::collections::HashMap;
use vstd::prelude::*;
use vstd::std_specs::convert::FromSpec;

verus! {

/// The number of orders that one side of a book has room for.
pub const BOOK_SIDE_CAPACITY: usize = 1024;

/// The order in which the resting orders of one side trade, and what a new
/// order of the other side does when it meets one of them.
pub trait OrderComparer: Comparer<Order> {
    /// Whether the prices of `new_order` and of the resting `book_order`
    /// overlap, so that the two can trade.
    spec fn crosses(new_order: Order, book_order: Order) -> bool;

    /// The trade of `quantity` between `new_order` and the resting
    /// `book_order`, made at `ts` under the identifier `id`.
    spec fn execution(
        id: ExecutionId,
        new_order: Order,
        book_order: Order,
        quantity: Quantity,
        ts: OrderTime,
    ) -> Execution;

    /// The identifier of the resting order of a trade.
    spec fn passive(e: Execution) -> OrderId;

    fn does_cross(new_order: &Order, book_order: &Order) -> (r: bool)
        ensures
            r == Self::crosses(*new_order, *book_order),
    ;

    fn create_execution(
        id: ExecutionId,
        new_order: &Order,
        book_order: &Order,
        quantity: Quantity,
        ts: OrderTime,
    ) -> (e: Execution)
        ensures
            e == Self::execution(id, *new_order, *book_order, quantity, ts),
    ;

    /// Where a resting order can trade with a new order, so can every
    /// resting order that ranks at least as high.
    proof fn law_better_crosses(new_order: Order, a: Order, b: Order)
        requires
            Self::not_less(a, b),
            Self::crosses(new_order, b),
        ensures
            Self::crosses(new_order, a),
    ;

    /// A trade is made at the price of the resting order, between the two
    /// orders and for the symbol of the resting order.
    proof fn law_execution(
        id: ExecutionId,
        new_order: Order,
        book_order: Order,
        quantity: Quantity,
        ts: OrderTime,
    )
        ensures
            Self::execution(id, new_order, book_order, quantity, ts).id == id,
            Self::execution(id, new_order, book_order, quantity, ts).ts == ts,
            Self::execution(id, new_order, book_order, quantity, ts).price == book_order.price,
            Self::execution(id, new_order, book_order, quantity, ts).quantity == quantity,
            Self::execution(id, new_order, book_order, quantity, ts).symbol == book_order.symbol,
            Self::passive(Self::execution(id, new_order, book_order, quantity, ts))
                == book_order.id,
    ;
}

/// Ranks resting buy orders: the higher price first, and of equal prices the
/// earlier order.
#[derive(Debug)]
pub struct BuyComparer;

/// Ranks resting sell orders: the lower price first, and of equal prices the
/// earlier order.
#[derive(Debug)]
pub struct SellComparer;

impl Comparer<Order> for BuyComparer {
    open spec fn not_less(x: Order, y: Order) -> bool {
        x.price > y.price || (x.price == y.price && x.update.spec_not_after(&y.update))
    }

    fn compare(x: &Order, y: &Order) -> (o: Ordering) {
        if x.price > y.price {
            Ordering::Greater
        } else if x.price < y.price {
            Ordering::Less
        } else if x.update == y.update {
            Ordering::Equal
        } else if x.update.not_after(&y.update) {
            Ordering::Greater
        } else {
            Ordering::Less
        }
    }

    proof fn law_total(x: Order, y: Order) {
    }

    proof fn law_transitive(x: Order, y: Order, z: Order) {
    }
}

impl OrderComparer for BuyComparer {
    open spec fn crosses(new_order: Order, book_order: Order) -> bool {
        book_order.price >= new_order.price
    }

    open spec fn execution(
        id: ExecutionId,
        new_order: Order,
        book_order: Order,
        quantity: Quantity,
        ts: OrderTime,
    ) -> Execution {
        Execution {
            symbol: book_order.symbol,
            ts,
            id,
            buy_user: book_order.user,
            buy_order: book_order.id,
            sell_user: new_order.user,
            sell_order: new_order.id,
            price: book_order.price,
            quantity,
        }
    }

    open spec fn passive(e: Execution) -> OrderId {
        e.buy_order
    }

    fn does_cross(new_order: &Order, book_order: &Order) -> (r: bool) {
        book_order.price >= new_order.price
    }

    fn create_execution(
        id: ExecutionId,
        new_order: &Order,
        book_order: &Order,
        quantity: Quantity,
        ts: OrderTime,
    ) -> (e: Execution) {
        Execution {
            symbol: book_order.symbol,
            ts,
            id,
            buy_user: book_order.user,
            buy_order: book_order.id,
            sell_user: new_order.user,
            sell_order: new_order.id,
            price: book_order.price,
            quantity,
        }
    }

    proof fn law_better_crosses(new_order: Order, a: Order, b: Order) {
    }

    proof fn law_execution(
        id: ExecutionId,
        new_order: Order,
        book_order: Order,
        quantity: Quantity,
        ts: OrderTime,
    ) {
    }
}

impl Comparer<Order> for SellComparer {
    open spec fn not_less(x: Order, y: Order) -> bool {
        x.price < y.price || (x.price == y.price && x.update.spec_not_after(&y.update))
    }

    fn compare(x: &Order, y: &Order) -> (o: Ordering) {
        if x.price < y.price {
            Ordering::Greater
        } else if x.price > y.price {
            Ordering::Less
        } else if x.update == y.update {
            Ordering::Equal
        } else if x.update.not_after(&y.update) {
            Ordering::Greater
        } else {
            Ordering::Less
        }
    }

    proof fn law_total(x: Order, y: Order) {
    }

    proof fn law_transitive(x: Order, y: Order, z: Order) {
    }
}

impl OrderComparer for SellComparer {
    open spec fn crosses(new_order: Order, book_order: Order) -> bool {
        book_order.price <= new_order.price
    }

    open spec fn execution(
        id: ExecutionId,
        new_order: Order,
        book_order: Order,
        quantity: Quantity,
        ts: OrderTime,
    ) -> Execution {
        Execution {
            symbol: book_order.symbol,
            ts,
            id,
            buy_user: new_order.user,
            buy_order: new_order.id,
            sell_user: book_order.user,
            sell_order: book_order.id,
            price: book_order.price,
            quantity,
        }
    }

    open spec fn passive(e: Execution) -> OrderId {
        e.sell_order
    }

    fn does_cross(new_order: &Order, book_order: &Order) -> (r: bool) {
        book_order.price <= new_order.price
    }

    fn create_execution(
        id: ExecutionId,
        new_order: &Order,
        book_order: &Order,
        quantity: Quantity,
        ts: OrderTime,
    ) -> (e: Execution) {
        Execution {
            symbol: book_order.symbol,
            ts,
            id,
            buy_user: new_order.user,
            buy_order: new_order.id,
            sell_user: book_order.user,
            sell_order: book_order.id,
            price: book_order.price,
            quantity,
        }
    }

    proof fn law_better_crosses(new_order: Order, a: Order, b: Order) {
    }

    proof fn law_execution(
        id: ExecutionId,
        new_order: Order,
        book_order: Order,
        quantity: Quantity,
        ts: OrderTime,
    ) {
    }
}

/// Of two resting buy orders, the one with the higher price ranks strictly
/// first, and of equal prices the one updated earlier: the other is never on
/// top of a side that holds both.
pub proof fn lemma_buy_priority(a: Order, b: Order)
    requires
        a.price > b.price || (a.price == b.price && a.update.spec_not_after(&b.update)
            && a.update != b.update),
    ensures
        BuyComparer::not_less(a, b),
        !BuyComparer::not_less(b, a),
{
}

/// Of two resting sell orders, the one with the lower price ranks strictly
/// first, and of equal prices the one updated earlier: the other is never on
/// top of a side that holds both.
pub proof fn lemma_sell_priority(a: Order, b: Order)
    requires
        a.price < b.price || (a.price == b.price && a.update.spec_not_after(&b.update)
            && a.update != b.update),
    ensures
        SellComparer::not_less(a, b),
        !SellComparer::not_less(b, a),
{
}

/// The buy order on top of a side has the highest price of the side, and
/// of the orders at that price the earliest update.
pub proof fn lemma_top_buy(m: Map<u64, Order>, k: u64, j: u64)
    requires
        is_top::<BuyComparer>(m, k),
        m.contains_key(j),
    ensures
        m[j].price <= m[k].price,
        m[j].price == m[k].price ==> m[k].update.spec_not_after(&m[j].update),
{
}

/// The sell order on top of a side has the lowest price of the side, and
/// of the orders at that price the earliest update.
pub proof fn lemma_top_sell(m: Map<u64, Order>, k: u64, j: u64)
    requires
        is_top::<SellComparer>(m, k),
        m.contains_key(j),
    ensures
        m[j].price >= m[k].price,
        m[j].price == m[k].price ==> m[k].update.spec_not_after(&m[j].update),
{
}

/// Hands out the execution identifiers of one symbol, in sequence.
pub struct ExecutionIdGenerator {
    symbol_id: u32,
    seq: u64,
}

impl ExecutionIdGenerator {
    pub closed spec fn spec_symbol_id(&self) -> u32 {
        self.symbol_id
    }

    /// The sequence number of the identifier that comes next.
    pub closed spec fn spec_seq(&self) -> u64 {
        self.seq
    }

    pub fn new(symbol_id: u32) -> (r: Self)
        ensures
            r.spec_symbol_id() == symbol_id,
            r.spec_seq() == 0,
    {
        ExecutionIdGenerator { symbol_id, seq: 0u64 }
    }

    /// The number of identifiers that are left.
    pub fn remaining(&self) -> (r: u64)
        ensures
            r == (if self.spec_seq() <= SEQUENCE_MAX {
                SEQUENCE_MAX - self.spec_seq() + 1
            } else {
                0
            }),
    {
        if self.seq <= SEQUENCE_MAX {
            SEQUENCE_MAX - self.seq + 1
        } else {
            0
        }
    }

    /// The next identifier of the symbol.
    pub fn next_id(&mut self) -> (id: ExecutionId)
        requires
            old(self).spec_symbol_id() <= SYMBOL_MAX,
            old(self).spec_seq() <= SEQUENCE_MAX,
        ensures
            id.spec_raw() == pack(
                old(self).spec_symbol_id() as int,
                TRADING_MD_TYPE_EXEC as int,
                old(self).spec_seq() as int,
            ),
            id.spec_symbol_id() == old(self).spec_symbol_id(),
            id.spec_sequence() == old(self).spec_seq(),
            final(self).spec_symbol_id() == old(self).spec_symbol_id(),
            final(self).spec_seq() == old(self).spec_seq() + 1,
    {
        let id = ExecutionId::new(self.symbol_id, self.seq).unwrap();
        self.seq = self.seq + 1;
        id
    }
}

/// Whether the order under `k` is one that no order of `m` ranks above.
pub open spec fn is_top<C: OrderComparer>(m: Map<u64, Order>, k: u64) -> bool {
    &&& m.contains_key(k)
    &&& forall|j: u64| #[trigger] m.contains_key(j) ==> C::not_less(m[k], m[j])
}

/// One side of a book: its resting orders, ranked by `C`.
///
/// Its view maps the number of each resting order's identifier to the order.
pub struct BookSide<C: OrderComparer> {
    orders: TreeHeap<Order, C>,
    lookup: HashMap<u64, HeapHandle>,
}

impl<C: OrderComparer> View for BookSide<C> {
    type V = Map<u64, Order>;

    closed spec fn view(&self) -> Map<u64, Order> {
        Map::new(
            |k: u64| self.lookup@.contains_key(k),
            |k: u64| self.orders@[self.lookup@[k]@],
        )
    }
}

impl<C: OrderComparer> BookSide<C> {
    /// The invariant of a side: the index by identifier and the heap hold
    /// the same orders, each under its own identifier, and every resting
    /// order has something left to trade.
    pub closed spec fn wf(&self) -> bool {
        &&& self.orders.wf()
        &&& self.orders.spec_capacity() == BOOK_SIDE_CAPACITY
        &&& forall|k: u64| #[trigger]
            self.lookup@.contains_key(k) ==> {
                &&& self.orders@.dom().contains(self.lookup@[k]@)
                &&& self.orders@[self.lookup@[k]@].id.spec_raw() == k
            }
        &&& forall|h: int| #[trigger]
            self.orders@.dom().contains(h) ==> {
                &&& self.lookup@.contains_key(self.orders@[h].id.spec_raw())
                &&& self.lookup@[self.orders@[h].id.spec_raw()]@ == h
                &&& self.orders@[h].quantity > 0
            }
    }

    /// The number of resting orders.
    pub closed spec fn spec_len(&self) -> nat {
        self.orders.spec_len()
    }

    /// The number of the identifier of the order on top, where the side is
    /// not empty.
    pub closed spec fn spec_top_id(&self) -> u64 {
        self.orders@[self.orders.spec_top()].id.spec_raw()
    }

    /// What the invariant says in terms of the view.
    pub proof fn lemma_invariant(&self)
        requires
            self.wf(),
        ensures
            self@.dom().finite(),
            self@.dom().len() == self.spec_len(),
            self.spec_len() <= BOOK_SIDE_CAPACITY,
            forall|k: u64| #[trigger]
                self@.contains_key(k) ==> self@[k].id.spec_raw() == k && self@[k].quantity > 0,
            self.spec_len() > 0 ==> is_top::<C>(self@, self.spec_top_id()),
    {
        broadcast use vstd::std_specs::hash::group_hash_axioms;

        self.orders.lemma_invariant();
        let f = |k: u64| self.lookup@[k]@;
        assert(self@.dom() =~= self.lookup@.dom());
        assert(self@.dom().map(f) =~= self.orders@.dom()) by {
            assert forall|h: int| self.orders@.dom().contains(h) implies self@.dom().map(
                f,
            ).contains(h) by {
                let k = self.orders@[h].id.spec_raw();
                assert(self@.dom().contains(k) && f(k) == h);
            }
        }
        assert(vstd::relations::injective_on(f, self@.dom()));
        vstd::set_lib::lemma_map_size(self@.dom(), self.orders@.dom(), f);
        if self.spec_len() > 0 {
            self.lemma_top();
        }
    }

    /// The order on top of the heap is on top of the side.
    proof fn lemma_top(&self)
        requires
            self.wf(),
            self.orders@.dom().contains(self.orders.spec_top()),
            forall|k: int| #[trigger]
                self.orders@.dom().contains(k) ==> C::not_less(
                    self.orders@[self.orders.spec_top()],
                    self.orders@[k],
                ),
        ensures
            is_top::<C>(self@, self.spec_top_id()),
            self@[self.spec_top_id()] == self.orders@[self.orders.spec_top()],
    {
    }

    /// An empty side.
    pub fn new() -> (r: BookSide<C>)
        ensures
            r.wf(),
            r@ =~= Map::<u64, Order>::empty(),
            r.spec_len() == 0,
    {
        BookSide { orders: TreeHeap::new(BOOK_SIDE_CAPACITY), lookup: HashMap::new() }
    }

    /// The number of resting orders.
    pub fn len(&self) -> (r: usize)
        requires
            self.wf(),
        ensures
            r == self.spec_len(),
            r <= BOOK_SIDE_CAPACITY,
    {
        proof {
            self.orders.lemma_invariant();
        }
        self.orders.len()
    }

    /// Whether an order with the identifier `order_id` rests on the side.
    pub fn has_order(&self, order_id: OrderId) -> (r: bool)
        requires
            self.wf(),
        ensures
            r == self@.contains_key(order_id.spec_raw()),
    {
        broadcast use vstd::std_specs::hash::group_hash_axioms;

        let key: u64 = order_id.raw();
        self.lookup.contains_key(&key)
    }

    /// The resting order with the identifier `order`, where there is one.
    pub fn get_order(&self, order: OrderId) -> (r: Option<&Order>)
        requires
            self.wf(),
        ensures
            r is Some <==> self@.contains_key(order.spec_raw()),
            r matches Some(o) ==> *o == self@[order.spec_raw()],
    {
        broadcast use vstd::std_specs::hash::group_hash_axioms;

        let key: u64 = order.raw();
        match self.lookup.get(&key) {
            Some(h) => Some(self.orders.get(*h)),
            None => None,
        }
    }

    /// Takes the order with the identifier `order` off the side, where it
    /// rests there.
    pub fn remove_order(&mut self, order: OrderId)
        requires
            old(self).wf(),
        ensures
            final(self).wf(),
            final(self)@ =~= old(self)@.remove(order.spec_raw()),
            final(self).spec_len() == old(self).spec_len() - (if old(self)@.contains_key(
                order.spec_raw(),
            ) {
                1int
            } else {
                0int
            }),
    {
        broadcast use vstd::std_specs::hash::group_hash_axioms;

        let key: u64 = order.raw();
        if let Some(h) = self.lookup.remove(&key) {
            self.orders.remove(h);
        }
    }

    /// Rests `new_order` on the side.
    pub fn add_order(&mut self, new_order: Order) -> (handle: HeapHandle)
        requires
            old(self).wf(),
            !old(self)@.contains_key(new_order.id.spec_raw()),
            old(self).spec_len() < BOOK_SIDE_CAPACITY,
            new_order.quantity > 0,
        ensures
            final(self).wf(),
            final(self)@ =~= old(self)@.insert(new_order.id.spec_raw(), new_order),
            final(self).spec_len() == old(self).spec_len() + 1,
    {
        broadcast use vstd::std_specs::hash::group_hash_axioms;

        let order_id: OrderId = new_order.id;
        let handle: HeapHandle = self.orders.insert(new_order).unwrap();
        self.lookup.insert(order_id.raw(), handle);
        handle
    }

    /// The row of the side's heap that lies `depth` below its top.
    pub closed spec fn spec_row(&self, depth: nat) -> Seq<Option<Order>> {
        self.orders.spec_row(depth)
    }

    /// The number of rows of the side's heap.
    pub closed spec fn spec_height(&self) -> nat {
        self.orders.spec_height()
    }

    /// The heap of the side row by row, from the top down, with a gap for
    /// every child that an order lacks; no row where the side is empty.
    pub fn rows(&self) -> (r: Vec<Vec<Option<Order>>>)
        requires
            self.wf(),
        ensures
            r@.len() == (if self.spec_len() == 0 {
                0
            } else {
                self.spec_height() + 1
            }),
            forall|d: int| 0 <= d < r@.len() ==> (#[trigger] r@[d])@ == self.spec_row(d as nat),
    {
        self.orders.rows()
    }

    /// The order on top, where the side is not empty.
    pub fn peek_order(&self) -> (r: Option<Order>)
        requires
            self.wf(),
        ensures
            r is None <==> self.spec_len() == 0,
            r is None <==> self@.dom() =~= Set::<u64>::empty(),
            r matches Some(o) ==> o == self@[self.spec_top_id()] && is_top::<C>(
                self@,
                self.spec_top_id(),
            ),
    {
        match self.orders.peek() {
            None => {
                proof {
                    self.lemma_invariant();
                }
                None
            },
            Some(h) => {
                proof {
                    self.lemma_top();
                }
                Some(*self.orders.get(h))
            },
        }
    }

    /// The price and quantity of the order on top; the zero entry where the
    /// side is empty.
    pub fn top_order(&self) -> (r: MdEntry)
        requires
            self.wf(),
        ensures
            r == (if self.spec_len() == 0 {
                MdEntry::zero()
            } else {
                MdEntry {
                    price: self@[self.spec_top_id()].price,
                    quantity: self@[self.spec_top_id()].quantity as u64,
                }
            }),
            self.spec_len() > 0 ==> is_top::<C>(self@, self.spec_top_id()),
    {
        match self.peek_order() {
            None => MdEntry { price: 0, quantity: 0 },
            Some(order) => MdEntry { price: order.price, quantity: order.quantity as u64 },
        }
    }
}

/// Whether `s` lists the orders of `m`, each once and none before an order
/// that ranks above it.
pub open spec fn arranged<C: OrderComparer>(m: Map<u64, Order>, s: Seq<Order>) -> bool {
    &&& s.len() == m.dom().len()
    &&& forall|i: int|
        0 <= i < s.len() ==> m.contains_key((#[trigger] s[i]).id.spec_raw()) && m[s[i].id.spec_raw()]
            == s[i]
    &&& forall|i: int, j: int|
        0 <= i < j < s.len() ==> (#[trigger] s[i]).id != (#[trigger] s[j]).id && C::not_less(
            s[i],
            s[j],
        )
}

/// The price levels of the orders `s`, in their order: orders that follow
/// one another at one price make one level, with the sum of their
/// quantities.
pub open spec fn levels(s: Seq<Order>) -> Seq<MdEntry>
    decreases s.len(),
{
    if s.len() == 0 {
        Seq::empty()
    } else {
        let head = levels(s.drop_last());
        let o = s.last();
        if head.len() > 0 && head.last().price == o.price {
            head.drop_last().push(
                MdEntry { price: o.price, quantity: (head.last().quantity + o.quantity) as u64 },
            )
        } else {
            head.push(MdEntry { price: o.price, quantity: o.quantity as u64 })
        }
    }
}

/// The first `depth` of the price levels of `s`, or all of them where they
/// are fewer.
pub open spec fn first_levels(s: Seq<Order>, depth: nat) -> Seq<MdEntry> {
    if depth < levels(s).len() {
        levels(s).take(depth as int)
    } else {
        levels(s)
    }
}

/// There are no more levels than orders, and no level holds more than all
/// orders could hold together.
pub proof fn lemma_levels_bound(s: Seq<Order>)
    ensures
        levels(s).len() <= s.len(),
        forall|k: int|
            0 <= k < levels(s).len() ==> (#[trigger] levels(s)[k]).quantity <= s.len()
                * 0xFFFF_FFFF,
    decreases s.len(),
{
    if s.len() > 0 {
        lemma_levels_bound(s.drop_last());
        let head = levels(s.drop_last());
        assert((s.len() - 1) * 0xFFFF_FFFF + 0xFFFF_FFFF == s.len() * 0xFFFF_FFFF)
            by (nonlinear_arith);
        assert forall|k: int| 0 <= k < levels(s).len() implies (#[trigger] levels(
            s,
        )[k]).quantity <= s.len() * 0xFFFF_FFFF by {
            if k < head.len() {
                assert(head[k].quantity <= (s.len() - 1) * 0xFFFF_FFFF);
            }
        }
    }
}

impl<C: OrderComparer> BookSide<C> {
    /// The resting orders, each once and none before an order that ranks
    /// above it.
    pub fn orders(&self) -> (r: Vec<Order>)
        requires
            self.wf(),
        ensures
            arranged::<C>(self@, r@),
            r@.len() == self.spec_len(),
    {
        let mut out: Vec<Order> = Vec::new();
        let mut it = HeapIterator::new(&self.orders);
        let ghost mut slots: Seq<int> = Seq::empty();
        proof {
            self.orders.lemma_invariant();
            self.lemma_invariant();
        }
        loop
            invariant
                self.wf(),
                it.wf(),
                it.source() == self.orders@,
                it.remaining().subset_of(self.orders@.dom()),
                self.orders@.dom().finite(),
                out@.len() == slots.len(),
                out@.len() + it.remaining().len() == self.orders@.dom().len(),
                forall|i: int|
                    0 <= i < slots.len() ==> {
                        &&& self.orders@.dom().contains(#[trigger] slots[i])
                        &&& !it.remaining().contains(slots[i])
                        &&& out@[i] == self.orders@[slots[i]]
                    },
                forall|i: int, j: int|
                    0 <= i < j < slots.len() ==> #[trigger] slots[i] != #[trigger] slots[j],
                forall|i: int, k: int|
                    0 <= i < out@.len() && #[trigger] it.remaining().contains(k) ==> C::not_less(
                        #[trigger] out@[i],
                        self.orders@[k],
                    ),
                forall|i: int, j: int|
                    0 <= i < j < out@.len() ==> C::not_less(#[trigger] out@[i], #[trigger] out@[j]),
            ensures
                it.remaining() =~= Set::<int>::empty(),
            decreases it.remaining().len(),
        {
            let ghost before = it.remaining();
            let ghost slot = it.spec_next();
            proof {
                vstd::set_lib::lemma_set_subset_finite(self.orders@.dom(), before);
            }
            match it.next() {
                None => {
                    break ;
                },
                Some(v) => {
                    out.push(v);
                    proof {
                        slots = slots.push(slot);
                    }
                },
            }
        }
        proof {
            let m = self@;
            let s = out@;
            assert forall|i: int, j: int| 0 <= i < j < s.len() implies (#[trigger] s[i]).id != (
            #[trigger] s[j]).id by {
                assert(self.orders@.dom().contains(slots[i]));
                assert(self.orders@.dom().contains(slots[j]));
            }
            assert forall|i: int| 0 <= i < s.len() implies m.contains_key(
                (#[trigger] s[i]).id.spec_raw(),
            ) && m[s[i].id.spec_raw()] == s[i] by {
                assert(self.orders@.dom().contains(slots[i]));
            }
        }
        out
    }

    /// The first `depth` price levels of the side, best first: every price
    /// with the quantity that rests at it.
    pub fn get_l2_data(&self, depth: usize) -> (r: Vec<MdEntry>)
        requires
            self.wf(),
        ensures
            exists|s: Seq<Order>| #[trigger] arranged::<C>(self@, s) && r@ == first_levels(s, depth as nat),
    {
        let list: Vec<Order> = self.orders();
        let mut results: Vec<MdEntry> = Vec::new();
        let mut i: usize = 0;
        proof {
            self.lemma_invariant();
        }
        while i < list.len()
            invariant
                i <= list@.len() <= BOOK_SIDE_CAPACITY,
                results@ == levels(list@.take(i as int)),
            decreases list@.len() - i,
        {
            let o: Order = list[i];
            let n: usize = results.len();
            proof {
                lemma_levels_bound(list@.take(i as int));
                assert(list@.take(i + 1).drop_last() =~= list@.take(i as int));
                assert(i * 0xFFFF_FFFF <= 1024 * 0xFFFF_FFFF) by (nonlinear_arith)
                    requires
                        i <= 1024,
                ;
            }
            if n > 0 && results[n - 1].price == o.price {
                let sum: u64 = results[n - 1].quantity + o.quantity as u64;
                results.set(n - 1, MdEntry { price: o.price, quantity: sum });
                assert(results@ =~= levels(list@.take(i + 1)));
            } else {
                results.push(MdEntry { price: o.price, quantity: o.quantity as u64 });
                assert(results@ =~= levels(list@.take(i + 1)));
            }
            i += 1;
        }
        assert(list@.take(i as int) =~= list@);
        if depth < results.len() {
            results.truncate(depth);
        }
        assert(results@ == first_levels(list@, depth as nat));
        results
    }
}

/// The smaller of two quantities.
pub open spec fn spec_min(a: Quantity, b: Quantity) -> Quantity {
    if a <= b {
        a
    } else {
        b
    }
}

/// `o` with `q` less to trade.
pub open spec fn reduced(o: Order, q: Quantity) -> Order {
    Order { quantity: (o.quantity - q) as u32, ..o }
}

/// `o` with `q` less to trade.
pub fn reduce_order(o: Order, q: Quantity) -> (r: Order)
    requires
        o.quantity >= q,
    ensures
        r == reduced(o, q),
{
    let mut r: Order = o;
    r.quantity = o.quantity - q;
    r
}

/// One cross: the new order `incoming` meets the resting order of the
/// execution `e`, which is on top of the side `before` and whose price it
/// overlaps. The two trade the smaller of their quantities in `e`, made at
/// `now` under the identifier number `id_raw`. That leaves `residual` of
/// the new order and the side `after`, on which the resting order has that
/// much less, or is gone where nothing is left of it.
pub open spec fn crossed<C: OrderComparer>(
    before: Map<u64, Order>,
    incoming: Order,
    after: Map<u64, Order>,
    residual: Order,
    e: Execution,
    id_raw: int,
    now: OrderTime,
) -> bool {
    let resting_id = C::passive(e).spec_raw();
    let resting = before[resting_id];
    let q = spec_min(incoming.quantity, resting.quantity);
    &&& is_top::<C>(before, resting_id)
    &&& C::crosses(incoming, resting)
    &&& incoming.quantity > 0
    &&& e.id.spec_raw() == id_raw
    &&& e == C::execution(e.id, incoming, resting, q, now)
    &&& residual == reduced(incoming, q)
    &&& after == (if resting.quantity == q {
        before.remove(resting_id)
    } else {
        before.insert(resting_id, reduced(resting, q))
    })
}

/// The number of the `n`th execution identifier of the symbol `symbol_id`
/// from the sequence number `first_seq` on.
pub open spec fn nth_id(symbol_id: int, first_seq: int, n: nat) -> int {
    pack(symbol_id, TRADING_MD_TYPE_EXEC as int, first_seq + n - 1)
}

/// A run of crosses: starting from the side `before` and the new order
/// `incoming`, the executions `execs` follow one another, numbered from
/// `first_seq` on for the symbol `symbol_id`, and leave the side `after` and
/// `residual` of the new order.
pub open spec fn matched<C: OrderComparer>(
    before: Map<u64, Order>,
    incoming: Order,
    first_seq: int,
    symbol_id: int,
    now: OrderTime,
    execs: Seq<Execution>,
    after: Map<u64, Order>,
    residual: Order,
) -> bool
    decreases execs.len(),
{
    if execs.len() == 0 {
        after == before && residual == incoming
    } else {
        exists|mid: Map<u64, Order>, mid_order: Order|
            {
                &&& matched::<C>(
                    before,
                    incoming,
                    first_seq,
                    symbol_id,
                    now,
                    execs.drop_last(),
                    mid,
                    mid_order,
                )
                &&& #[trigger] crossed::<C>(
                    mid,
                    mid_order,
                    after,
                    residual,
                    execs.last(),
                    nth_id(symbol_id, first_seq, execs.len()),
                    now,
                )
            }
    }
}

/// Whether nothing is left to cross: the new order is used up, or no order
/// of the side overlaps its price.
pub open spec fn settled<C: OrderComparer>(side: Map<u64, Order>, residual: Order) -> bool {
    residual.quantity == 0 || forall|k: u64| #[trigger]
        side.contains_key(k) ==> !C::crosses(residual, side[k])
}

/// The sum of the quantities of `execs`.
pub open spec fn total_quantity(execs: Seq<Execution>) -> int
    decreases execs.len(),
{
    if execs.len() == 0 {
        0
    } else {
        total_quantity(execs.drop_last()) + execs.last().quantity
    }
}

/// The sum of the quantities of those of `execs` whose resting order has
/// the identifier number `resting_id`.
pub open spec fn filled_against<C: OrderComparer>(execs: Seq<Execution>, resting_id: u64) -> int
    decreases execs.len(),
{
    if execs.len() == 0 {
        0
    } else {
        filled_against::<C>(execs.drop_last(), resting_id) + (if C::passive(
            execs.last(),
        ).spec_raw() == resting_id {
            execs.last().quantity as int
        } else {
            0
        })
    }
}

/// What is left of the order under `k` on `side`: nothing where it no
/// longer rests there.
pub open spec fn resting_quantity(side: Map<u64, Order>, k: u64) -> int {
    if side.contains_key(k) {
        side[k].quantity as int
    } else {
        0
    }
}

/// A run of crosses goes on by one cross.
pub proof fn lemma_matched_step<C: OrderComparer>(
    before: Map<u64, Order>,
    incoming: Order,
    first_seq: int,
    symbol_id: int,
    now: OrderTime,
    execs: Seq<Execution>,
    mid: Map<u64, Order>,
    mid_order: Order,
    e: Execution,
    after: Map<u64, Order>,
    residual: Order,
)
    requires
        matched::<C>(before, incoming, first_seq, symbol_id, now, execs, mid, mid_order),
        crossed::<C>(
            mid,
            mid_order,
            after,
            residual,
            e,
            nth_id(symbol_id, first_seq, execs.len() + 1),
            now,
        ),
    ensures
        matched::<C>(before, incoming, first_seq, symbol_id, now, execs.push(e), after, residual),
{
    let more = execs.push(e);
    assert(more.drop_last() =~= execs);
    assert(more.last() == e);
    assert(crossed::<C>(
        mid,
        mid_order,
        after,
        residual,
        more.last(),
        nth_id(symbol_id, first_seq, more.len()),
        now,
    ));
}

/// Every execution of a run of crosses trades the smaller of what the new
/// order and the resting order had left just before it, at the resting
/// order's price, and that resting order was on top of its side then.
pub proof fn lemma_execution_terms<C: OrderComparer>(
    before: Map<u64, Order>,
    incoming: Order,
    after: Map<u64, Order>,
    residual: Order,
    e: Execution,
    id_raw: int,
    now: OrderTime,
)
    requires
        crossed::<C>(before, incoming, after, residual, e, id_raw, now),
    ensures
        is_top::<C>(before, C::passive(e).spec_raw()),
        e.quantity == spec_min(
            incoming.quantity,
            before[C::passive(e).spec_raw()].quantity,
        ),
        e.price == before[C::passive(e).spec_raw()].price,
        e.ts == now,
        C::passive(e) == before[C::passive(e).spec_raw()].id,
{
    let resting = before[C::passive(e).spec_raw()];
    C::law_execution(e.id, incoming, resting, spec_min(incoming.quantity, resting.quantity), now);
}

/// What a run of crosses trades is what the new order loses: never more
/// than it came with. Nothing but its quantity changes.
pub proof fn lemma_matched_incoming<C: OrderComparer>(
    before: Map<u64, Order>,
    incoming: Order,
    first_seq: int,
    symbol_id: int,
    now: OrderTime,
    execs: Seq<Execution>,
    after: Map<u64, Order>,
    residual: Order,
)
    requires
        matched::<C>(before, incoming, first_seq, symbol_id, now, execs, after, residual),
    ensures
        total_quantity(execs) + residual.quantity == incoming.quantity,
        residual == (Order { quantity: residual.quantity, ..incoming }),
    decreases execs.len(),
{
    if execs.len() > 0 {
        let (mid, mid_order) = choose|mid: Map<u64, Order>, mid_order: Order|
            {
                &&& matched::<C>(
                    before,
                    incoming,
                    first_seq,
                    symbol_id,
                    now,
                    execs.drop_last(),
                    mid,
                    mid_order,
                )
                &&& #[trigger] crossed::<C>(
                    mid,
                    mid_order,
                    after,
                    residual,
                    execs.last(),
                    nth_id(symbol_id, first_seq, execs.len()),
                    now,
                )
            };
        lemma_matched_incoming::<C>(
            before,
            incoming,
            first_seq,
            symbol_id,
            now,
            execs.drop_last(),
            mid,
            mid_order,
        );
        lemma_execution_terms::<C>(
            mid,
            mid_order,
            after,
            residual,
            execs.last(),
            nth_id(symbol_id, first_seq, execs.len()),
            now,
        );
    }
}

/// What a run of crosses trades against a resting order is what that order
/// loses: never more than it had. The side gains no order, and the orders
/// that stay keep everything but their quantity.
pub proof fn lemma_matched_resting<C: OrderComparer>(
    before: Map<u64, Order>,
    incoming: Order,
    first_seq: int,
    symbol_id: int,
    now: OrderTime,
    execs: Seq<Execution>,
    after: Map<u64, Order>,
    residual: Order,
    k: u64,
)
    requires
        matched::<C>(before, incoming, first_seq, symbol_id, now, execs, after, residual),
        forall|j: u64| #[trigger] before.contains_key(j) ==> before[j].id.spec_raw() == j,
    ensures
        filled_against::<C>(execs, k) + resting_quantity(after, k) == resting_quantity(before, k),
        after.contains_key(k) ==> before.contains_key(k) && after[k] == (Order {
            quantity: after[k].quantity,
            ..before[k]
        }),
        forall|j: u64| #[trigger] after.contains_key(j) ==> after[j].id.spec_raw() == j,
    decreases execs.len(),
{
    if execs.len() > 0 {
        let (mid, mid_order) = choose|mid: Map<u64, Order>, mid_order: Order|
            {
                &&& matched::<C>(
                    before,
                    incoming,
                    first_seq,
                    symbol_id,
                    now,
                    execs.drop_last(),
                    mid,
                    mid_order,
                )
                &&& #[trigger] crossed::<C>(
                    mid,
                    mid_order,
                    after,
                    residual,
                    execs.last(),
                    nth_id(symbol_id, first_seq, execs.len()),
                    now,
                )
            };
        lemma_matched_resting::<C>(
            before,
            incoming,
            first_seq,
            symbol_id,
            now,
            execs.drop_last(),
            mid,
            mid_order,
            k,
        );
        assert forall|j: u64| #[trigger] after.contains_key(j) implies after[j].id.spec_raw()
            == j by {
            lemma_matched_resting::<C>(
                before,
                incoming,
                first_seq,
                symbol_id,
                now,
                execs.drop_last(),
                mid,
                mid_order,
                j,
            );
        }
        lemma_execution_terms::<C>(
            mid,
            mid_order,
            after,
            residual,
            execs.last(),
            nth_id(symbol_id, first_seq, execs.len()),
            now,
        );
    }
}

impl<C: OrderComparer> BookSide<C> {
    /// Crosses `new_order` against the side for as long as something is left
    /// of it and the order on top overlaps its price. Every cross trades
    /// with the order on top, at that order's price and at the time `now`;
    /// the executions come back in the order in which they were made, and
    /// `new_order` keeps what is left of it.
    pub fn match_order(
        &mut self,
        new_order: &mut Order,
        id_gen: &mut ExecutionIdGenerator,
        now: OrderTime,
    ) -> (execs: Vec<Execution>)
        requires
            old(self).wf(),
            old(id_gen).spec_symbol_id() <= SYMBOL_MAX,
            old(id_gen).spec_seq() + old(self).spec_len() <= SEQUENCE_MAX + 1,
        ensures
            final(self).wf(),
            matched::<C>(
                old(self)@,
                *old(new_order),
                old(id_gen).spec_seq() as int,
                old(id_gen).spec_symbol_id() as int,
                now,
                execs@,
                final(self)@,
                *final(new_order),
            ),
            settled::<C>(final(self)@, *final(new_order)),
            final(id_gen).spec_symbol_id() == old(id_gen).spec_symbol_id(),
            final(id_gen).spec_seq() == old(id_gen).spec_seq() + execs@.len(),
            final(self).spec_len() + execs@.len() <= old(self).spec_len() + 1,
            final(self).spec_len() <= old(self).spec_len(),
            execs@.len() <= old(self).spec_len(),
    {
        broadcast use vstd::std_specs::hash::group_hash_axioms;

        let mut execs: Vec<Execution> = Vec::new();
        loop
            invariant_except_break
                self.spec_len() + execs@.len() <= old(self).spec_len(),
            invariant
                self.wf(),
                id_gen.spec_symbol_id() == old(id_gen).spec_symbol_id(),
                id_gen.spec_symbol_id() <= SYMBOL_MAX,
                id_gen.spec_seq() == old(id_gen).spec_seq() + execs@.len(),
                old(id_gen).spec_seq() + old(self).spec_len() <= SEQUENCE_MAX + 1,
                matched::<C>(
                    old(self)@,
                    *old(new_order),
                    old(id_gen).spec_seq() as int,
                    old(id_gen).spec_symbol_id() as int,
                    now,
                    execs@,
                    self@,
                    *new_order,
                ),
            ensures
                self.wf(),
                id_gen.spec_symbol_id() == old(id_gen).spec_symbol_id(),
                id_gen.spec_seq() == old(id_gen).spec_seq() + execs@.len(),
                self.spec_len() + execs@.len() <= old(self).spec_len() + 1,
                self.spec_len() <= old(self).spec_len(),
                execs@.len() <= old(self).spec_len(),
                matched::<C>(
                    old(self)@,
                    *old(new_order),
                    old(id_gen).spec_seq() as int,
                    old(id_gen).spec_symbol_id() as int,
                    now,
                    execs@,
                    self@,
                    *new_order,
                ),
                settled::<C>(self@, *new_order),
            decreases self.spec_len(),
        {
            if new_order.quantity == 0 {
                break ;
            }
            let handle: HeapHandle = match self.orders.peek() {
                Some(h) => h,
                None => {
                    proof {
                        self.lemma_invariant();
                    }
                    break ;
                },
            };
            let book_order: Order = *self.orders.get(handle);
            let ghost side = self@;
            let ghost incoming = *new_order;
            let ghost resting_id = book_order.id.spec_raw();
            proof {
                self.lemma_top();
                self.orders.lemma_invariant();
            }
            if !C::does_cross(new_order, &book_order) {
                proof {
                    assert forall|k: u64| #[trigger] side.contains_key(k) implies !C::crosses(
                        incoming,
                        side[k],
                    ) by {
                        if C::crosses(incoming, side[k]) {
                            C::law_better_crosses(incoming, book_order, side[k]);
                        }
                    }
                }
                break ;
            }
            let cross_quantity: Quantity = if new_order.quantity <= book_order.quantity {
                new_order.quantity
            } else {
                book_order.quantity
            };
            let exec_id: ExecutionId = id_gen.next_id();
            let ex: Execution = C::create_execution(
                exec_id,
                new_order,
                &book_order,
                cross_quantity,
                now,
            );
            new_order.quantity = new_order.quantity - cross_quantity;
            let ghost heap_before = self.orders@;
            let reduce = |o: Order| -> (r: Order)
                requires
                    o.quantity >= cross_quantity,
                ensures
                    r == reduced(o, cross_quantity),
                { reduce_order(o, cross_quantity) };
            self.orders.update(handle, reduce);
            let rem_quantity: Quantity = self.orders.get(handle).quantity;
            if rem_quantity == 0 {
                let key: u64 = book_order.id.raw();
                self.lookup.remove(&key);
                self.orders.remove(handle);
            }
            proof {
                C::law_execution(exec_id, incoming, book_order, cross_quantity, now);
                assert(self.orders@.dom().contains(handle@) ==> self.orders@[handle@] == reduced(
                    book_order,
                    cross_quantity,
                ));
                let after = if book_order.quantity == cross_quantity {
                    side.remove(resting_id)
                } else {
                    side.insert(resting_id, reduced(book_order, cross_quantity))
                };
                assert(self@ =~= after);
                lemma_matched_step::<C>(
                    old(self)@,
                    *old(new_order),
                    old(id_gen).spec_seq() as int,
                    old(id_gen).spec_symbol_id() as int,
                    now,
                    execs@,
                    side,
                    incoming,
                    ex,
                    self@,
                    *new_order,
                );
            }
            execs.push(ex);
            if new_order.quantity == 0 {
                break ;
            }
        }
        execs
    }
}

/// The book of one symbol: its resting buy orders, its resting sell orders,
/// the generator of its execution identifiers and its last trade.
pub struct OrderBook {
    symbol: Symbol,
    buys: BookSide<BuyComparer>,
    sells: BookSide<SellComparer>,
    id_gen: ExecutionIdGenerator,
    last: Option<MdExecution>,
}

impl OrderBook {
    /// The resting buy orders, by the number of their identifier.
    pub closed spec fn bids(&self) -> Map<u64, Order> {
        self.buys@
    }

    /// The resting sell orders, by the number of their identifier.
    pub closed spec fn asks(&self) -> Map<u64, Order> {
        self.sells@
    }

    /// The resting orders of one side.
    pub open spec fn side(&self, side: OrderSide) -> Map<u64, Order> {
        match side {
            OrderSide::Buy => self.bids(),
            OrderSide::Sell => self.asks(),
        }
    }

    /// The symbol that the book is for.
    pub closed spec fn spec_symbol(&self) -> Symbol {
        self.symbol
    }

    /// The symbol id under which the book numbers its executions.
    pub closed spec fn spec_symbol_id(&self) -> u32 {
        self.id_gen.spec_symbol_id()
    }

    /// The sequence number of the book's next execution.
    pub closed spec fn spec_exec_seq(&self) -> u64 {
        self.id_gen.spec_seq()
    }

    /// The last trade on the book, where there was one.
    pub closed spec fn spec_last(&self) -> Option<MdExecution> {
        self.last
    }

    /// The invariant of a book: both sides meet theirs, every resting order
    /// is on the side that it and its identifier name, and the symbol id
    /// fits an identifier.
    pub closed spec fn wf(&self) -> bool {
        &&& self.buys.wf()
        &&& self.sells.wf()
        &&& self.id_gen.spec_symbol_id() <= SYMBOL_MAX
        &&& self.id_gen.spec_seq() <= SEQUENCE_MAX + 1
        &&& forall|k: u64| #[trigger]
            self.buys@.contains_key(k) ==> self.buys@[k].side == OrderSide::Buy
                && self.buys@[k].consistent()
        &&& forall|k: u64| #[trigger]
            self.sells@.contains_key(k) ==> self.sells@[k].side == OrderSide::Sell
                && self.sells@[k].consistent()
    }

    /// The resting order with the identifier `id`, looked up on the side
    /// that `id` names.
    pub open spec fn spec_get(&self, id: OrderId) -> Option<Order> {
        if self.side(id.spec_side()).contains_key(id.spec_raw()) {
            Some(self.side(id.spec_side())[id.spec_raw()])
        } else {
            None
        }
    }

    /// Whether `o` rests on the book.
    pub open spec fn rests(&self, o: Order) -> bool {
        self.side(o.side).contains_key(o.id.spec_raw()) && self.side(o.side)[o.id.spec_raw()]
            == o
    }

    /// Whether the book has room to take `order`: the order's identifier
    /// names the order's side, that side has a free place, and there are
    /// execution identifiers left for every order that `order` could trade
    /// with.
    pub open spec fn accepts(&self, order: Order) -> bool {
        &&& order.consistent()
        &&& self.side(order.side).dom().len() < BOOK_SIDE_CAPACITY
        &&& self.spec_exec_seq() + self.side(order.side.spec_opposite()).dom().len()
            <= SEQUENCE_MAX + 1
    }

    /// What the invariant says of the resting orders.
    pub proof fn lemma_invariant(&self)
        requires
            self.wf(),
        ensures
            self.spec_symbol_id() <= SYMBOL_MAX,
            self.bids().dom().finite(),
            self.asks().dom().finite(),
            self.bids().dom().len() <= BOOK_SIDE_CAPACITY,
            self.asks().dom().len() <= BOOK_SIDE_CAPACITY,
            forall|side: OrderSide, k: u64| #[trigger]
                self.side(side).contains_key(k) ==> {
                    &&& self.side(side)[k].id.spec_raw() == k
                    &&& self.side(side)[k].quantity > 0
                    &&& self.side(side)[k].side == side
                    &&& self.side(side)[k].consistent()
                },
    {
        self.buys.lemma_invariant();
        self.sells.lemma_invariant();
    }

    /// Every resting order has something left to trade and is found under
    /// its identifier.
    pub proof fn lemma_resting_order(&self, o: Order)
        requires
            self.wf(),
            self.rests(o),
        ensures
            o.quantity > 0,
            self.spec_get(o.id) == Some(o),
    {
        self.lemma_invariant();
        assert(self.side(o.side).contains_key(o.id.spec_raw()));
    }

    /// An empty book for `symbol`, which numbers its executions under
    /// `symbol_id`.
    pub fn new(symbol: Symbol, symbol_id: u32) -> (book: OrderBook)
        requires
            symbol_id <= SYMBOL_MAX,
        ensures
            book.wf(),
            book.spec_symbol() == symbol,
            book.spec_symbol_id() == symbol_id,
            book.spec_exec_seq() == 0,
            book.spec_last() == None::<MdExecution>,
            book.bids() =~= Map::<u64, Order>::empty(),
            book.asks() =~= Map::<u64, Order>::empty(),
    {
        OrderBook {
            symbol,
            buys: BookSide::new(),
            sells: BookSide::new(),
            id_gen: ExecutionIdGenerator::new(symbol_id),
            last: None,
        }
    }

    /// The symbol that the book is for.
    #[verifier::when_used_as_spec(spec_symbol)]
    pub fn symbol(&self) -> (r: Symbol)
        ensures
            r == self.spec_symbol(),
    {
        self.symbol
    }

    /// The resting order with the identifier `order`, where there is one on
    /// the side that the identifier names.
    pub fn get_order(&self, order: OrderId) -> (r: Option<&Order>)
        requires
            self.wf(),
        ensures
            r is Some <==> self.spec_get(order) is Some,
            r matches Some(o) ==> self.spec_get(order) == Some(*o),
    {
        match order.side() {
            OrderSide::Buy => self.buys.get_order(order),
            OrderSide::Sell => self.sells.get_order(order),
        }
    }

    /// The row of the heap of one side that lies `depth` below its top.
    pub closed spec fn spec_row(&self, side: OrderSide, depth: nat) -> Seq<Option<Order>> {
        match side {
            OrderSide::Buy => self.buys.spec_row(depth),
            OrderSide::Sell => self.sells.spec_row(depth),
        }
    }

    /// The number of rows that `rows` gives for one side.
    pub closed spec fn spec_rows_len(&self, side: OrderSide) -> nat {
        match side {
            OrderSide::Buy => if self.buys.spec_len() == 0 {
                0
            } else {
                self.buys.spec_height() + 1
            },
            OrderSide::Sell => if self.sells.spec_len() == 0 {
                0
            } else {
                self.sells.spec_height() + 1
            },
        }
    }

    /// The heap of one side row by row, from the top down.
    pub fn rows(&self, side: OrderSide) -> (r: Vec<Vec<Option<Order>>>)
        requires
            self.wf(),
        ensures
            r@.len() == self.spec_rows_len(side),
            forall|d: int|
                0 <= d < r@.len() ==> (#[trigger] r@[d])@ == self.spec_row(side, d as nat),
    {
        match side {
            OrderSide::Buy => self.buys.rows(),
            OrderSide::Sell => self.sells.rows(),
        }
    }

    /// Whether the book has room to take `order`.
    pub fn can_accept(&self, order: &Order) -> (r: bool)
        requires
            self.wf(),
        ensures
            r == self.accepts(*order),
    {
        proof {
            self.buys.lemma_invariant();
            self.sells.lemma_invariant();
        }
        let own: usize = match order.side {
            OrderSide::Buy => self.buys.len(),
            OrderSide::Sell => self.sells.len(),
        };
        let other: usize = match order.side {
            OrderSide::Buy => self.sells.len(),
            OrderSide::Sell => self.buys.len(),
        };
        let named: OrderSide = order.id.side();
        named == order.side && own < BOOK_SIDE_CAPACITY && other as u64
            <= self.id_gen.remaining()
    }

    /// All resting orders: the buy orders and then the sell orders, each
    /// side in the order in which it trades.
    pub fn orders(&self) -> (r: Vec<Order>)
        requires
            self.wf(),
        ensures
            r@.len() == self.bids().dom().len() + self.asks().dom().len(),
            arranged::<BuyComparer>(self.bids(), r@.take(self.bids().dom().len() as int)),
            arranged::<SellComparer>(self.asks(), r@.skip(self.bids().dom().len() as int)),
    {
        proof {
            self.buys.lemma_invariant();
            self.sells.lemma_invariant();
        }
        let mut all: Vec<Order> = self.buys.orders();
        let mut asks: Vec<Order> = self.sells.orders();
        let ghost first = all@;
        let ghost second = asks@;
        all.append(&mut asks);
        assert(all@.take(first.len() as int) =~= first);
        assert(all@.skip(first.len() as int) =~= second);
        all
    }
}

/// What the matcher reports of a new order: the executions in the order in
/// which they were made, and then the code of the acknowledgement.
pub struct Matched {
    pub executions: Vec<Execution>,
    pub status: ErrorCode,
}

/// The top of a book and its depth.
pub struct MarketData {
    pub l1: L1Md,
    pub l2: L2Md,
}

/// Receives what the matcher reports.
pub trait ExecutionHandler {
    fn ack_order(&self, order_id: OrderId, status: ErrorCode);

    fn handle_match(&self, execution: Execution);

    fn handle_market_data_l1(&self, md: L1Md);

    fn handle_market_data_l2(&self, md: L2Md);
}

/// A matching policy.
pub trait OrderMatcher {
    /// Takes a new order to the book and reports the executions and then
    /// the acknowledgement to `handler`.
    fn add_order<T: ExecutionHandler>(&mut self, book: &mut OrderBook, order: Order, handler: &T)
        requires
            old(book).wf(),
            old(book).accepts(order),
        ensures
            final(book).wf(),
    ;

    /// Takes the order with the identifier `order` off the book.
    fn cancel_order<T: ExecutionHandler>(
        &mut self,
        book: &mut OrderBook,
        order: OrderId,
        handler: &T,
    )
        requires
            old(book).wf(),
        ensures
            final(book).wf(),
    ;

    /// Reports the top and the depth of the book to `handler`.
    fn publish_md<T: ExecutionHandler>(&self, book: &OrderBook, handler: &T)
        requires
            book.wf(),
    ;
}

/// The matcher for limit orders in price-time priority.
#[derive(Clone, Copy)]
pub struct BasicMatcher;

/// The order that rests when `residual` is left of a new order at `now`.
pub open spec fn rested(residual: Order, now: OrderTime) -> Order {
    Order { update: now, ..residual }
}

/// What is left of `order` after the executions `execs`.
pub open spec fn residual_of(order: Order, execs: Seq<Execution>) -> Order {
    Order { quantity: (order.quantity - total_quantity(execs)) as u32, ..order }
}

impl BasicMatcher {
    /// What taking `order` to the book `before` at `now` comes to.
    ///
    /// An order whose identifier already rests on the book is turned down
    /// with `DuplicateId`, and nothing changes. Any other order is crossed
    /// against the other side for as long as something is left of it and the
    /// order on top overlaps its price; what is left then rests on the
    /// order's own side, updated at `now`. The executions are numbered on
    /// from the book's sequence number, and the last of them is the book's
    /// last trade.
    pub open spec fn added(
        before: OrderBook,
        order: Order,
        now: OrderTime,
        r: Matched,
        after: OrderBook,
    ) -> bool {
        let own = order.side;
        let other = order.side.spec_opposite();
        let key = order.id.spec_raw();
        let residual = residual_of(order, r.executions@);
        &&& after.spec_symbol() == before.spec_symbol()
        &&& after.spec_symbol_id() == before.spec_symbol_id()
        &&& if before.bids().contains_key(key) || before.asks().contains_key(key) {
            &&& r.status == ErrorCode::DuplicateId
            &&& r.executions@ == Seq::<Execution>::empty()
            &&& after.bids() == before.bids()
            &&& after.asks() == before.asks()
            &&& after.spec_exec_seq() == before.spec_exec_seq()
            &&& after.spec_last() == before.spec_last()
        } else {
            &&& r.status == ErrorCode::Success
            &&& total_quantity(r.executions@) <= order.quantity
            &&& match own {
                OrderSide::Buy => matched::<SellComparer>(
                    before.asks(),
                    order,
                    before.spec_exec_seq() as int,
                    before.spec_symbol_id() as int,
                    now,
                    r.executions@,
                    after.asks(),
                    residual,
                ) && settled::<SellComparer>(after.asks(), residual),
                OrderSide::Sell => matched::<BuyComparer>(
                    before.bids(),
                    order,
                    before.spec_exec_seq() as int,
                    before.spec_symbol_id() as int,
                    now,
                    r.executions@,
                    after.bids(),
                    residual,
                ) && settled::<BuyComparer>(after.bids(), residual),
            }
            &&& after.side(own) == (if residual.quantity > 0 {
                before.side(own).insert(key, rested(residual, now))
            } else {
                before.side(own)
            })
            &&& after.spec_exec_seq() == before.spec_exec_seq() + r.executions@.len()
            &&& after.spec_last() == (if r.executions@.len() > 0 {
                Some(MdExecution::from_spec(r.executions@.last()))
            } else {
                before.spec_last()
            })
        }
    }

    /// Takes the new order `order` to the book at the time `now`.
    pub fn add_order_at(book: &mut OrderBook, order: Order, now: OrderTime) -> (r: Matched)
        requires
            old(book).wf(),
            old(book).accepts(order),
        ensures
            final(book).wf(),
            Self::added(*old(book), order, now, r, *final(book)),
    {
        proof {
            book.buys.lemma_invariant();
            book.sells.lemma_invariant();
        }
        if book.buys.has_order(order.id) || book.sells.has_order(order.id) {
            return Matched { executions: Vec::new(), status: ErrorCode::DuplicateId };
        }
        let mut o: Order = order;
        let executions: Vec<Execution> = match order.side {
            OrderSide::Buy => book.sells.match_order(&mut o, &mut book.id_gen, now),
            OrderSide::Sell => book.buys.match_order(&mut o, &mut book.id_gen, now),
        };
        proof {
            match order.side {
                OrderSide::Buy => {
                    lemma_matched_incoming::<SellComparer>(
                        old(book).sells@,
                        order,
                        old(book).id_gen.spec_seq() as int,
                        old(book).id_gen.spec_symbol_id() as int,
                        now,
                        executions@,
                        book.sells@,
                        o,
                    );
                    assert forall|k: u64| #[trigger]
                        book.sells@.contains_key(k) implies book.sells@[k].side
                        == OrderSide::Sell && book.sells@[k].consistent() by {
                        lemma_matched_resting::<SellComparer>(
                            old(book).sells@,
                            order,
                            old(book).id_gen.spec_seq() as int,
                            old(book).id_gen.spec_symbol_id() as int,
                            now,
                            executions@,
                            book.sells@,
                            o,
                            k,
                        );
                    }
                },
                OrderSide::Sell => {
                    lemma_matched_incoming::<BuyComparer>(
                        old(book).buys@,
                        order,
                        old(book).id_gen.spec_seq() as int,
                        old(book).id_gen.spec_symbol_id() as int,
                        now,
                        executions@,
                        book.buys@,
                        o,
                    );
                    assert forall|k: u64| #[trigger]
                        book.buys@.contains_key(k) implies book.buys@[k].side == OrderSide::Buy
                        && book.buys@[k].consistent() by {
                        lemma_matched_resting::<BuyComparer>(
                            old(book).buys@,
                            order,
                            old(book).id_gen.spec_seq() as int,
                            old(book).id_gen.spec_symbol_id() as int,
                            now,
                            executions@,
                            book.buys@,
                            o,
                            k,
                        );
                    }
                },
            }
            assert(o == residual_of(order, executions@));
        }
        if o.quantity > 0 {
            o.update = now;
            match order.side {
                OrderSide::Buy => {
                    book.buys.add_order(o);
                },
                OrderSide::Sell => {
                    book.sells.add_order(o);
                },
            }
        }
        let n: usize = executions.len();
        if n > 0 {
            book.last = Some(MdExecution::from(executions[n - 1]));
        }
        Matched { executions, status: ErrorCode::Success }
    }

    /// What taking the order with the identifier `order` off the book
    /// `before` comes to: it no longer rests on the side that the
    /// identifier names, and nothing else changes.
    pub open spec fn cancelled(before: OrderBook, order: OrderId, after: OrderBook) -> bool {
        &&& after.spec_symbol() == before.spec_symbol()
        &&& after.spec_symbol_id() == before.spec_symbol_id()
        &&& after.spec_exec_seq() == before.spec_exec_seq()
        &&& after.spec_last() == before.spec_last()
        &&& after.side(order.spec_side()) == before.side(order.spec_side()).remove(
            order.spec_raw(),
        )
        &&& after.side(order.spec_side().spec_opposite()) == before.side(
            order.spec_side().spec_opposite(),
        )
    }

    /// Takes the order with the identifier `order` off the side that the
    /// identifier names; nothing changes where it does not rest there.
    pub fn cancel_order_in(book: &mut OrderBook, order: OrderId)
        requires
            old(book).wf(),
        ensures
            final(book).wf(),
            Self::cancelled(*old(book), order, *final(book)),
            old(book).spec_get(order) is None ==> final(book).bids() == old(book).bids()
                && final(book).asks() == old(book).asks(),
            final(book).spec_get(order) is None,
    {
        match order.side() {
            OrderSide::Buy => book.buys.remove_order(order),
            OrderSide::Sell => book.sells.remove_order(order),
        }
        proof {
            let side = order.spec_side();
            assert(book.side(side) =~= old(book).side(side).remove(order.spec_raw()));
            if old(book).spec_get(order) is None {
                assert(book.side(side) =~= old(book).side(side));
            }
        }
    }

    /// Whether `l1` shows the top of `book`: the symbol, the last trade,
    /// and on each side the price and quantity of an order on top, or
    /// nothing where the side is empty.
    pub open spec fn shown_l1(book: OrderBook, l1: L1Md) -> bool {
        &&& l1.symbol == book.spec_symbol()
        &&& l1.last == book.spec_last()
        &&& l1.bid is None <==> book.bids().dom() =~= Set::<u64>::empty()
        &&& l1.ask is None <==> book.asks().dom() =~= Set::<u64>::empty()
        &&& l1.bid matches Some(bid) ==> exists|k: u64| #[trigger]
            is_top::<BuyComparer>(book.bids(), k) && bid == (MdEntry {
                price: book.bids()[k].price,
                quantity: book.bids()[k].quantity as u64,
            })
        &&& l1.ask matches Some(ask) ==> exists|k: u64| #[trigger]
            is_top::<SellComparer>(book.asks(), k) && ask == (MdEntry {
                price: book.asks()[k].price,
                quantity: book.asks()[k].quantity as u64,
            })
    }

    /// Whether `l2` shows the depth of `book`: the symbol, the last trade,
    /// and on each side the first 5 price levels, best first.
    pub open spec fn shown_l2(book: OrderBook, l2: L2Md) -> bool {
        &&& l2.symbol == book.spec_symbol()
        &&& l2.last == book.spec_last()
        &&& exists|s: Seq<Order>| #[trigger]
            arranged::<BuyComparer>(book.bids(), s) && l2.bids.holds(
                first_levels(s, L2_MD_DEPTH as nat),
            )
        &&& exists|s: Seq<Order>| #[trigger]
            arranged::<SellComparer>(book.asks(), s) && l2.asks.holds(
                first_levels(s, L2_MD_DEPTH as nat),
            )
    }

    /// The top of the book and its first 5 price levels per side.
    pub fn market_data(book: &OrderBook) -> (md: MarketData)
        requires
            book.wf(),
        ensures
            Self::shown_l1(*book, md.l1),
            Self::shown_l2(*book, md.l2),
    {
        proof {
            book.buys.lemma_invariant();
            book.sells.lemma_invariant();
        }
        let bid: Option<MdEntry> = if book.buys.len() == 0 {
            None
        } else {
            Some(book.buys.top_order())
        };
        let ask: Option<MdEntry> = if book.sells.len() == 0 {
            None
        } else {
            Some(book.sells.top_order())
        };
        let l2_bids: Vec<MdEntry> = book.buys.get_l2_data(L2_MD_DEPTH);
        let l2_asks: Vec<MdEntry> = book.sells.get_l2_data(L2_MD_DEPTH);
        let bids: L2MdSide = L2MdSide::from_levels(&l2_bids);
        let asks: L2MdSide = L2MdSide::from_levels(&l2_asks);
        proof {
            if bid is Some {
                assert(is_top::<BuyComparer>(book.bids(), book.buys.spec_top_id()));
            }
            if ask is Some {
                assert(is_top::<SellComparer>(book.asks(), book.sells.spec_top_id()));
            }
            let s = choose|s: Seq<Order>| #[trigger]
                arranged::<BuyComparer>(book.buys@, s) && l2_bids@ == first_levels(
                    s,
                    L2_MD_DEPTH as nat,
                );
            assert(arranged::<BuyComparer>(book.bids(), s));
            let t = choose|s: Seq<Order>| #[trigger]
                arranged::<SellComparer>(book.sells@, s) && l2_asks@ == first_levels(
                    s,
                    L2_MD_DEPTH as nat,
                );
            assert(arranged::<SellComparer>(book.asks(), t));
        }
        MarketData {
            l1: L1Md { symbol: book.symbol, bid, ask, last: book.last },
            l2: L2Md { symbol: book.symbol, bids, asks, last: book.last },
        }
    }
}

impl OrderMatcher for BasicMatcher {
    fn add_order<T: ExecutionHandler>(&mut self, book: &mut OrderBook, order: Order, handler: &T)
        ensures
            exists|now: OrderTime, r: Matched| #[trigger]
                BasicMatcher::added(*old(book), order, now, r, *final(book)),
    {
        let now: OrderTime = current_time();
        let r: Matched = BasicMatcher::add_order_at(book, order, now);
        let mut i: usize = 0;
        while i < r.executions.len()
            invariant
                i <= r.executions@.len(),
            decreases r.executions@.len() - i,
        {
            handler.handle_match(r.executions[i]);
            i += 1;
        }
        handler.ack_order(order.id, r.status);
    }

    fn cancel_order<T: ExecutionHandler>(
        &mut self,
        book: &mut OrderBook,
        order: OrderId,
        handler: &T,
    )
        ensures
            BasicMatcher::cancelled(*old(book), order, *final(book)),
    {
        BasicMatcher::cancel_order_in(book, order);
    }

    fn publish_md<T: ExecutionHandler>(&self, book: &OrderBook, handler: &T) {
        let md: MarketData = BasicMatcher::market_data(book);
        handler.handle_market_data_l1(md.l1);
        handler.handle_market_data_l2(md.l2);
    }
}

} // verus!
