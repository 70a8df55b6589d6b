//! The front door of the engine: one book per symbol, one source of order
//! ids, and the routing of each request to the book it names.

use vstd::prelude::*;
use crate::ladder::{
    best_price, ladder_insert, ladder_volume, lemma_count_le_volume, lemma_fresh_id, marketable,
    queue_volume,
};
use crate::matching::{execution_events, lemma_match_left, run_match, taker_of};
use crate::orderbook::{created_event, Orderbook};
use crate::symbol_table::{Symbol, SymbolTable};
use crate::types::{
    Event, LimitOrder, OrderbookError, Side,
};

verus! {

/// Hands out ids 1, 2, 3, ... in turn.
#[derive(Debug, Clone, Copy)]
pub struct IdGenerator {
    current: u64,
}

impl IdGenerator {
    /// The id that was handed out last, 0 before the first.
    pub closed spec fn issued(&self) -> u64 {
        self.current
    }

    /// A generator that has handed out nothing yet.
    pub fn new() -> (g: IdGenerator)
        ensures
            g.issued() == 0,
    {
        IdGenerator { current: 0 }
    }

    /// The id that was handed out last, 0 before the first.
    pub fn last(&self) -> (id: u64)
        ensures
            id == self.issued(),
    {
        self.current
    }

    /// The next id: one more than the last.
    pub fn next_id(&mut self) -> (id: u64)
        requires
            old(self).issued() < u64::MAX,
        ensures
            id == old(self).issued() + 1,
            final(self).issued() == id,
    {
        self.current = self.current + 1;
        self.current
    }
}

/// A request to trade, in ticks and lots. A price of 0 asks for a market order.
#[derive(Debug, Clone, Copy, PartialEq, Eq, Structural)]
pub struct Order {
    pub size: u64,
    pub price: u64,
    pub side: Side,
}

/// 10 to the power `p`.
pub open spec fn ten_to(p: nat) -> nat
    decreases p,
{
    if p == 0 {
        1
    } else {
        10 * ten_to((p - 1) as nat)
    }
}

/// The most decimal places a price or a size can have.
pub const MAX_PRECISION: u8 = 9;

/// How a symbol's prices and sizes are scaled to ticks and lots.
#[derive(Debug, Clone)]
pub struct SymbolMetadata {
    pub symbol: String,
    pub price_precision: u8,
    pub size_precision: u8,
}

/// The factor that turns a number with `precision` decimal places into an integer.
pub fn scale_factor(precision: u8) -> (f: u32)
    requires
        precision <= MAX_PRECISION,
    ensures
        f == ten_to(precision as nat),
{
    proof {
        reveal_with_fuel(ten_to, 10);
    }
    match precision {
        0 => 1,
        1 => 10,
        2 => 100,
        3 => 1_000,
        4 => 10_000,
        5 => 100_000,
        6 => 1_000_000,
        7 => 10_000_000,
        8 => 100_000_000,
        _ => 1_000_000_000,
    }
}

impl SymbolMetadata {
    /// Both precisions are within the supported range.
    pub open spec fn valid(&self) -> bool {
        self.price_precision <= MAX_PRECISION && self.size_precision <= MAX_PRECISION
    }

    /// Ticks per unit of price.
    pub fn price_scale(&self) -> (f: u32)
        requires
            self.valid(),
        ensures
            f == ten_to(self.price_precision as nat),
    {
        scale_factor(self.price_precision)
    }

    /// Lots per unit of size.
    pub fn size_scale(&self) -> (f: u32)
        requires
            self.valid(),
        ensures
            f == ten_to(self.size_precision as nat),
    {
        scale_factor(self.size_precision)
    }
}

/// Failure of a request to the matcher.
#[derive(Debug, Clone, Copy, PartialEq, Eq, Structural)]
pub enum MatcherError {
    /// No book is registered for the symbol.
    SymbolNotFound(Symbol),
    /// A book is already registered for the symbol.
    SymbolExists(Symbol),
    /// The symbol's book refused the request.
    Orderbook(OrderbookError),
}

/// A symbol's book and how its numbers are scaled.
pub struct SymbolEntry {
    ob: Orderbook,
    metadata: SymbolMetadata,
}

/// The order that rests for request `order` under id `id` when `residual`
/// of its lots are still to be filled.
pub open spec fn resting_order(id: u64, order: Order, residual: u64) -> LimitOrder {
    LimitOrder {
        order_id: id,
        price: order.price,
        size: residual,
        cum_filled_size: (order.size - residual) as u64,
        side: order.side,
    }
}

/// Lots of a limit order that are sent to execution: as many as it has, but
/// no more than rest at the best price of the other side.
pub open spec fn crossing_size(opposite: Seq<Seq<LimitOrder>>, order: Order) -> u64 {
    if queue_volume(opposite[0]) <= order.size {
        queue_volume(opposite[0]) as u64
    } else {
        order.size
    }
}

/// How book `after` follows from book `before` when request `order` is
/// taken under id `id`.
///
/// A market order is executed for its whole size and never rests. A limit
/// order whose price reaches the best price of the other side is executed
/// against that best level; what is then left of it rests. Any other limit
/// order rests whole.
pub open spec fn order_applied(before: Orderbook, after: Orderbook, id: u64, order: Order) -> bool {
    let t = taker_of(before.id(), id, order.side);
    let own = before.ladder(order.side);
    let opposite = before.ladder(order.side.opposite());
    &&& after.id() == before.id()
    &&& if order.price == 0 {
        &&& after.ladder(order.side) == own
        &&& after.ladder(order.side.opposite()) == run_match(t, opposite, order.size).ladder
        &&& after.pending() == before.pending() + execution_events(t, opposite, order.size, true)
    } else if opposite.len() > 0 && marketable(order.side, order.price, best_price(opposite)) {
        let r = run_match(t, opposite, crossing_size(opposite, order));
        let residual = (order.size - (crossing_size(opposite, order) - r.left)) as u64;
        &&& after.ladder(order.side.opposite()) == r.ladder
        &&& if residual > 0 {
            &&& after.ladder(order.side) == ladder_insert(own, resting_order(id, order, residual))
            &&& after.pending() == (before.pending() + r.events).push(
                Event::Order {
                    id: before.id(),
                    event: created_event(resting_order(id, order, residual)),
                },
            )
        } else {
            &&& after.ladder(order.side) == own
            &&& after.pending() == before.pending() + r.events
        }
    } else {
        &&& after.ladder(order.side) == ladder_insert(own, resting_order(id, order, order.size))
        &&& after.ladder(order.side.opposite()) == opposite
        &&& after.pending() == before.pending().push(
            Event::Order {
                id: before.id(),
                event: created_event(resting_order(id, order, order.size)),
            },
        )
    }
}

/// Whether a taker of `side` at `price` can trade against `resting`.
pub fn is_marketable(side: Side, price: u64, resting: u64) -> (r: bool)
    ensures
        r == marketable(side, price, resting),
{
    match side {
        Side::Bid => resting <= price,
        Side::Ask => resting >= price,
    }
}

/// Order matching engine for several symbols. All requests pass through
/// one matcher in turn.
pub struct Matcher {
    table: SymbolTable,
    books: Vec<SymbolEntry>,
    order_id_gen: IdGenerator,
}

impl Matcher {
    /// Whether a book is registered for `symbol`.
    pub closed spec fn has_symbol(&self, symbol: Symbol) -> bool {
        self.table.entries().contains_key(symbol.0)
    }

    /// The book of `symbol`.
    pub closed spec fn book(&self, symbol: Symbol) -> Orderbook
        recommends
            self.has_symbol(symbol),
    {
        self.books@[self.table.entries()[symbol.0] as int].ob
    }

    /// The metadata of `symbol`.
    pub closed spec fn metadata(&self, symbol: Symbol) -> SymbolMetadata
        recommends
            self.has_symbol(symbol),
    {
        self.books@[self.table.entries()[symbol.0] as int].metadata
    }

    /// The numbers of the registered symbols, in the order of registration.
    pub closed spec fn symbols(&self) -> Seq<u64> {
        Seq::new(self.books@.len(), |i: int| self.books@[i].ob.id())
    }

    /// The order id that was handed out last.
    pub closed spec fn issued(&self) -> u64 {
        self.order_id_gen.issued()
    }

    /// The table and the books agree, every book is well formed, and no
    /// resting order has an id that has not been handed out yet.
    pub closed spec fn wf(&self) -> bool {
        &&& forall|k: u64| #[trigger]
            self.table.entries().contains_key(k) ==> self.table.entries()[k] < self.books@.len()
                && self.books@[self.table.entries()[k] as int].ob.id() == k
        &&& forall|i: int|
            0 <= i < self.books@.len() ==> {
                &&& (#[trigger] self.books@[i]).ob.wf()
                &&& self.books@[i].metadata.valid()
                &&& self.table.entries().contains_key(self.books@[i].ob.id())
                &&& self.table.entries()[self.books@[i].ob.id()] == i
                &&& self.books@[i].ob.all_ids_below(self.order_id_gen.issued())
            }
    }

    /// Nothing that can be observed of the matcher differs from `before`.
    pub open spec fn unchanged_from(&self, before: Matcher) -> bool {
        &&& self.issued() == before.issued()
        &&& self.symbols() == before.symbols()
        &&& forall|s: Symbol| #[trigger] self.has_symbol(s) == before.has_symbol(s)
        &&& forall|s: Symbol|
            before.has_symbol(s) ==> #[trigger] self.book(s) == before.book(s) && self.metadata(s)
                == before.metadata(s)
    }

    /// In a well-formed matcher every registered book is well formed, carries
    /// its symbol's number and holds no order id beyond the last one issued.
    pub proof fn lemma_books(&self, symbol: Symbol)
        requires
            self.wf(),
            self.has_symbol(symbol),
        ensures
            self.book(symbol).wf(),
            self.book(symbol).id() == symbol.0,
            self.book(symbol).all_ids_below(self.issued()),
            self.metadata(symbol).valid(),
            self.symbols().contains(symbol.0),
    {
        let i = self.table.entries()[symbol.0] as int;
        assert(self.symbols()[i] == symbol.0);
    }

    /// A matcher without symbols that has issued no id.
    pub fn new() -> (m: Matcher)
        ensures
            m.wf(),
            m.issued() == 0,
            m.symbols() == Seq::<u64>::empty(),
            forall|s: Symbol| !m.has_symbol(s),
    {
        let m = Matcher {
            table: SymbolTable::new(),
            books: Vec::new(),
            order_id_gen: IdGenerator::new(),
        };
        assert(m.symbols() =~= Seq::<u64>::empty());
        m
    }

    /// The order id that was handed out last, 0 before the first.
    pub fn last_order_id(&self) -> (id: u64)
        ensures
            id == self.issued(),
    {
        self.order_id_gen.last()
    }

    /// Registers `symbol` with an empty book that carries the symbol's
    /// number. A symbol is registered once: a second registration fails and
    /// changes nothing.
    pub fn add_symbol(&mut self, symbol: Symbol, metadata: SymbolMetadata) -> (r: Result<
        (),
        MatcherError,
    >)
        requires
            old(self).wf(),
            metadata.valid(),
            old(self).symbols().len() < usize::MAX,
        ensures
            final(self).wf(),
            final(self).issued() == old(self).issued(),
            old(self).has_symbol(symbol) ==> r == Err::<(), MatcherError>(
                MatcherError::SymbolExists(symbol),
            ) && final(self).unchanged_from(*old(self)),
            !old(self).has_symbol(symbol) ==> {
                &&& r.is_ok()
                &&& final(self).has_symbol(symbol)
                &&& final(self).symbols() == old(self).symbols().push(symbol.0)
                &&& final(self).metadata(symbol) == metadata
                &&& final(self).book(symbol).id() == symbol.0
                &&& final(self).book(symbol).ladder(Side::Bid) == Seq::<Seq<LimitOrder>>::empty()
                &&& final(self).book(symbol).ladder(Side::Ask) == Seq::<Seq<LimitOrder>>::empty()
                &&& final(self).book(symbol).pending() == Seq::<Event>::empty()
                &&& forall|s: Symbol|
                    s != symbol ==> final(self).has_symbol(s) == old(self).has_symbol(s) && (
                    old(self).has_symbol(s) ==> #[trigger] final(self).book(s) == old(self).book(s))
            },
    {
        if self.table.get(symbol).is_some() {
            return Err(MatcherError::SymbolExists(symbol));
        }
        let ob = Orderbook::new().with_id(symbol.0);
        let slot = self.books.len();
        self.books.push(SymbolEntry { ob, metadata });
        self.table.insert(symbol, slot);
        proof {
            assert(self.symbols() =~= old(self).symbols().push(symbol.0));
            assert forall|i: int| 0 <= i < self.books@.len() implies {
                &&& (#[trigger] self.books@[i]).ob.wf()
                &&& self.books@[i].metadata.valid()
                &&& self.table.entries().contains_key(self.books@[i].ob.id())
                &&& self.table.entries()[self.books@[i].ob.id()] == i
                &&& self.books@[i].ob.all_ids_below(self.order_id_gen.issued())
            } by {
                if i < slot {
                    assert(self.books@[i] == old(self).books@[i]);
                }
            }
        }
        Ok(())
    }

    /// The book of `symbol`, if one is registered.
    pub fn get_orderbook(&self, symbol: Symbol) -> (r: Option<&Orderbook>)
        requires
            self.wf(),
        ensures
            r.is_some() == self.has_symbol(symbol),
            r.is_some() ==> *r.unwrap() == self.book(symbol),
    {
        match self.table.get(symbol) {
            None => None,
            Some(slot) => Some(&self.books[slot].ob),
        }
    }

    /// The registered symbols in the order of registration, each with its
    /// number and its metadata.
    pub fn get_symbol_table(&self) -> (v: Vec<(u64, &SymbolMetadata)>)
        requires
            self.wf(),
        ensures
            v@.len() == self.symbols().len(),
            forall|i: int|
                0 <= i < v@.len() ==> (#[trigger] v@[i]).0 == self.symbols()[i] && self.has_symbol(
                    Symbol(v@[i].0),
                ) && *v@[i].1 == self.metadata(Symbol(v@[i].0)),
    {
        let mut v: Vec<(u64, &SymbolMetadata)> = Vec::new();
        let mut i: usize = 0;
        while i < self.books.len()
            invariant
                self.wf(),
                i <= self.books@.len(),
                v@.len() == i,
                forall|k: int|
                    0 <= k < i ==> (#[trigger] v@[k]).0 == self.symbols()[k] && self.has_symbol(
                        Symbol(v@[k].0),
                    ) && *v@[k].1 == self.metadata(Symbol(v@[k].0)),
            decreases self.books.len() - i,
        {
            let id = self.books[i].ob.book_id();
            v.push((id, &self.books[i].metadata));
            i += 1;
        }
        v
    }

    /// Hands over the events that the book of `symbol` caused since the
    /// last call, oldest first.
    pub fn take_events(&mut self, symbol: Symbol) -> (r: Result<Vec<Event>, MatcherError>)
        requires
            old(self).wf(),
        ensures
            final(self).wf(),
            final(self).issued() == old(self).issued(),
            final(self).symbols() == old(self).symbols(),
            forall|s: Symbol| final(self).has_symbol(s) == old(self).has_symbol(s),
            forall|s: Symbol|
                s != symbol && old(self).has_symbol(s) ==> #[trigger] final(self).book(s) == old(self).book(s),
            !old(self).has_symbol(symbol) ==> r == Err::<Vec<Event>, MatcherError>(
                MatcherError::SymbolNotFound(symbol),
            ) && final(self).unchanged_from(*old(self)),
            old(self).has_symbol(symbol) ==> {
                &&& r.is_ok()
                &&& r.unwrap()@ == old(self).book(symbol).pending()
                &&& final(self).book(symbol).pending() == Seq::<Event>::empty()
                &&& final(self).book(symbol).ladder(Side::Bid) == old(self).book(symbol).ladder(
                    Side::Bid,
                )
                &&& final(self).book(symbol).ladder(Side::Ask) == old(self).book(symbol).ladder(
                    Side::Ask,
                )
            },
    {
        let slot = match self.table.get(symbol) {
            None => {
                return Err(MatcherError::SymbolNotFound(symbol));
            },
            Some(slot) => slot,
        };
        let v = self.books[slot].ob.take_events();
        proof {
            self.lemma_step(*old(self), slot as int);
        }
        Ok(v)
    }

    /// Cancels the resting order `order_id` of `symbol`.
    pub fn cancel(&mut self, symbol: Symbol, order_id: u64) -> (r: Result<(), MatcherError>)
        requires
            old(self).wf(),
        ensures
            final(self).wf(),
            final(self).issued() == old(self).issued(),
            final(self).symbols() == old(self).symbols(),
            forall|s: Symbol| final(self).has_symbol(s) == old(self).has_symbol(s),
            forall|s: Symbol|
                s != symbol && old(self).has_symbol(s) ==> #[trigger] final(self).book(s) == old(self).book(s),
            !old(self).has_symbol(symbol) ==> r == Err::<(), MatcherError>(
                MatcherError::SymbolNotFound(symbol),
            ),
            old(self).has_symbol(symbol) && !old(self).book(symbol).has_order(order_id) ==> r
                == Err::<(), MatcherError>(MatcherError::Orderbook(OrderbookError::OrderNotFound)),
            r.is_err() ==> final(self).unchanged_from(*old(self)),
            old(self).has_symbol(symbol) && old(self).book(symbol).has_order(order_id) ==> r.is_ok()
                && cancel_applied(old(self).book(symbol), final(self).book(symbol), order_id),
    {
        let slot = match self.table.get(symbol) {
            None => {
                return Err(MatcherError::SymbolNotFound(symbol));
            },
            Some(slot) => slot,
        };
        let r = self.books[slot].ob.cancel(order_id);
        proof {
            self.lemma_step(*old(self), slot as int);
        }
        match r {
            Ok(()) => Ok(()),
            Err(e) => {
                assert(self.book(symbol) == old(self).book(symbol));
                Err(MatcherError::Orderbook(e))
            },
        }
    }

    /// Gives the resting order `order_id` of `symbol` the total size `size`.
    pub fn amend_size(&mut self, symbol: Symbol, order_id: u64, size: u64) -> (r: Result<
        (),
        MatcherError,
    >)
        requires
            old(self).wf(),
            old(self).has_symbol(symbol) && old(self).book(symbol).has_order(order_id)
                ==> ladder_volume(
                old(self).book(symbol).ladder(old(self).book(symbol).side_of(order_id)),
            ) + size <= u64::MAX,
        ensures
            final(self).wf(),
            final(self).issued() == old(self).issued(),
            final(self).symbols() == old(self).symbols(),
            forall|s: Symbol| final(self).has_symbol(s) == old(self).has_symbol(s),
            forall|s: Symbol|
                s != symbol && old(self).has_symbol(s) ==> #[trigger] final(self).book(s) == old(self).book(s),
            !old(self).has_symbol(symbol) ==> r == Err::<(), MatcherError>(
                MatcherError::SymbolNotFound(symbol),
            ),
            old(self).has_symbol(symbol) && !old(self).book(symbol).has_order(order_id) ==> r
                == Err::<(), MatcherError>(MatcherError::Orderbook(OrderbookError::OrderNotFound)),
            old(self).has_symbol(symbol) && old(self).book(symbol).has_order(order_id) && size
                <= old(self).book(symbol).order_of(order_id).cum_filled_size ==> r == Err::<
                (),
                MatcherError,
            >(MatcherError::Orderbook(OrderbookError::InvalidOrderSize)),
            r.is_err() ==> final(self).unchanged_from(*old(self)),
            old(self).has_symbol(symbol) && old(self).book(symbol).has_order(order_id) && size
                > old(self).book(symbol).order_of(order_id).cum_filled_size ==> r.is_ok()
                && amend_applied(old(self).book(symbol), final(self).book(symbol), order_id, size),
    {
        let slot = match self.table.get(symbol) {
            None => {
                return Err(MatcherError::SymbolNotFound(symbol));
            },
            Some(slot) => slot,
        };
        let r = self.books[slot].ob.amend_size(order_id, size);
        proof {
            self.lemma_step(*old(self), slot as int);
        }
        match r {
            Ok(()) => Ok(()),
            Err(e) => {
                assert(self.book(symbol) == old(self).book(symbol));
                Err(MatcherError::Orderbook(e))
            },
        }
    }

    /// Takes `order` for `symbol` under the next order id.
    ///
    /// A price of 0 makes it a market order: it is executed for its whole
    /// size and never rests. Otherwise it is a limit order. If its price
    /// reaches the best price of the other side, it is executed against that
    /// best level, for as many lots as it has and the level holds; what is
    /// then left of it rests in the book. If not, it rests whole.
    pub fn order(&mut self, symbol: Symbol, order: Order) -> (r: Result<(), MatcherError>)
        requires
            old(self).wf(),
            order.size > 0,
            old(self).issued() < u64::MAX,
            old(self).has_symbol(symbol) && order.price > 0 ==> ladder_volume(
                old(self).book(symbol).ladder(order.side),
            ) + order.size <= u64::MAX,
        ensures
            final(self).wf(),
            final(self).symbols() == old(self).symbols(),
            forall|s: Symbol| final(self).has_symbol(s) == old(self).has_symbol(s),
            forall|s: Symbol|
                s != symbol && old(self).has_symbol(s) ==> #[trigger] final(self).book(s) == old(self).book(s),
            !old(self).has_symbol(symbol) ==> r == Err::<(), MatcherError>(
                MatcherError::SymbolNotFound(symbol),
            ) && final(self).unchanged_from(*old(self)),
            old(self).has_symbol(symbol) ==> !old(self).book(symbol).has_order(
                (old(self).issued() + 1) as u64,
            ),
            old(self).has_symbol(symbol) ==> r.is_ok() && final(self).issued() == old(self).issued()
                + 1 && order_applied(
                old(self).book(symbol),
                final(self).book(symbol),
                final(self).issued(),
                order,
            ),
            old(self).has_symbol(symbol) && old(self).book(symbol).uncrossed() && (order.price == 0
                || !final(self).book(symbol).order_crosses(
                resting_order(final(self).issued(), order, order.size),
            )) ==> final(self).book(symbol).uncrossed(),
    {
        let slot = match self.table.get(symbol) {
            None => {
                return Err(MatcherError::SymbolNotFound(symbol));
            },
            Some(slot) => slot,
        };
        let ghost before = self.books@[slot as int].ob;
        let ghost opposite = before.ladder(order.side.opposite());
        let ghost bound = self.order_id_gen.issued();
        let order_id = self.order_id_gen.next_id();
        let ghost t = taker_of(before.id(), order_id, order.side);
        proof {
            before.lemma_ladders_ok();
            assert(before.all_ids_below(bound));
            lemma_fresh_id(before.ladder(Side::Bid), bound, order_id);
            lemma_fresh_id(before.ladder(Side::Ask), bound, order_id);
        }
        if order.price == 0 {
            self.books[slot].ob.execute(order_id, order.side, order.size, order.size, true);
        } else {
            let best = self.books[slot].ob.best(order.side.inverse());
            let mut residual: u64 = order.size;
            match best {
                Some(level) => {
                    if is_marketable(order.side, order.price, level.price) {
                        proof {
                            lemma_count_le_volume(opposite, order.side.opposite());
                            assert(queue_volume(opposite[0]) <= ladder_volume(opposite));
                        }
                        let wanted: u64 = if level.volume <= order.size {
                            level.volume
                        } else {
                            order.size
                        };
                        assert(wanted == crossing_size(opposite, order));
                        let left = self.books[slot].ob.execute(
                            order_id,
                            order.side,
                            order.size,
                            wanted,
                            false,
                        );
                        proof {
                            lemma_match_left(t, opposite, wanted);
                        }
                        residual = order.size - (wanted - left);
                    }
                },
                None => {},
            }
            if residual > 0 {
                let ghost mid = self.books@[slot as int].ob;
                proof {
                    assert(mid.all_ids_below(bound));
                    lemma_fresh_id(mid.ladder(Side::Bid), bound, order_id);
                    lemma_fresh_id(mid.ladder(Side::Ask), bound, order_id);
                    assert(mid.all_ids_below(order_id));
                }
                self.books[slot].ob.limit(
                    LimitOrder {
                        order_id,
                        price: order.price,
                        size: residual,
                        cum_filled_size: order.size - residual,
                        side: order.side,
                    },
                );
            }
        }
        proof {
            assert(self.books@[slot as int].ob.all_ids_below(order_id));
            self.lemma_step(*old(self), slot as int);
        }
        Ok(())
    }

    /// A matcher stays well formed when one of its books took a step that
    /// kept the book well formed, its id and the bound on its order ids.
    proof fn lemma_step(&self, before: Matcher, slot: int)
        requires
            before.wf(),
            0 <= slot < before.books@.len(),
            self.table == before.table,
            self.order_id_gen.issued() >= before.order_id_gen.issued(),
            self.books@.len() == before.books@.len(),
            forall|i: int|
                0 <= i < self.books@.len() && i != slot ==> #[trigger] self.books@[i]
                    == before.books@[i],
            self.books@[slot].metadata == before.books@[slot].metadata,
            self.books@[slot].ob.wf(),
            self.books@[slot].ob.id() == before.books@[slot].ob.id(),
            self.books@[slot].ob.all_ids_below(self.order_id_gen.issued()),
        ensures
            self.wf(),
            self.symbols() == before.symbols(),
            forall|s: Symbol| self.has_symbol(s) == before.has_symbol(s),
            forall|s: Symbol|
                before.has_symbol(s) && s.0 != before.books@[slot].ob.id() ==> #[trigger] self.book(
                    s,
                ) == before.book(s),
            forall|s: Symbol| before.has_symbol(s) ==> #[trigger] self.metadata(s) == before.metadata(s),
            forall|s: Symbol|
                before.has_symbol(s) && s.0 == before.books@[slot].ob.id() ==> #[trigger] self.book(
                    s,
                ) == self.books@[slot].ob,
    {
        assert(self.symbols() =~= before.symbols());
        assert forall|i: int| 0 <= i < self.books@.len() implies {
            &&& (#[trigger] self.books@[i]).ob.wf()
            &&& self.books@[i].metadata.valid()
            &&& self.table.entries().contains_key(self.books@[i].ob.id())
            &&& self.table.entries()[self.books@[i].ob.id()] == i
            &&& self.books@[i].ob.all_ids_below(self.order_id_gen.issued())
        } by {
            if i != slot {
                assert(self.books@[i] == before.books@[i]);
                assert(before.books@[i].ob.all_ids_below(before.order_id_gen.issued()));
            }
        }
    }
}

/// How book `after` follows from book `before` when the resting order `id`
/// is cancelled.
pub open spec fn cancel_applied(before: Orderbook, after: Orderbook, id: u64) -> bool {
    let side = before.side_of(id);
    &&& after.id() == before.id()
    &&& after.ladder(side) == crate::ladder::ladder_cancel(before.ladder(side), id)
    &&& after.ladder(side.opposite()) == before.ladder(side.opposite())
    &&& after.pending() == before.pending().push(
        Event::Order {
            id: before.id(),
            event: crate::orderbook::cancelled_event(before.order_of(id)),
        },
    )
}

/// How book `after` follows from book `before` when the resting order `id`
/// takes the total size `size`.
pub open spec fn amend_applied(before: Orderbook, after: Orderbook, id: u64, size: u64) -> bool {
    let side = before.side_of(id);
    &&& after.id() == before.id()
    &&& after.ladder(side) == crate::ladder::ladder_amend(before.ladder(side), id, size)
    &&& after.ladder(side.opposite()) == before.ladder(side.opposite())
    &&& after.pending() == before.pending()
}

} // verus!
