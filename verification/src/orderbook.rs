//! The book of one symbol: a bid side, an ask side and the queue of events
//! that its mutations caused and that nobody has collected yet.

use std::collections::HashMap;
use vstd::prelude::*;
use crate::ladder::{
    best_price, disjoint_ids, flatten, id_free, ids_below, ladder_amend, ladder_best, ladder_cancel,
    ladder_count, ladder_find, ladder_get, ladder_has, ladder_insert, ladder_ok, ladder_volume,
    lemma_amend_at, lemma_amend_at_ids, lemma_has_or_free, lemma_insert, lemma_insert_ids,
    indexed, lemma_amend_keeps, lemma_flatten, lemma_insert_keeps, lemma_insert_orders,
    lemma_remove_keeps, lemma_ladder_find, lemma_queue_find, lemma_remove_at,
    lemma_remove_at_ids, lemma_unique_get, level_of, locator_of, marketable, order_ok, queue_find,
    queue_volume, sum, unique_ids, valid_pos,
};
use crate::matching::{
    execution_events, lemma_filled_gone, lemma_match_ids, lemma_match_keeps, lemma_match_ladder,
    lemma_match_left, none_filled, reports_filled, run_match, taker_event, taker_of,
};
use crate::sidebook::SideBook;
use crate::types::{
    Event, Level, LimitOrder, Locator, OrderEvent, OrderStatus, OrderbookError, RejectReason, Side,
};

verus! {

broadcast use vstd::std_specs::hash::group_hash_axioms;

/// The event that reports that `o` came to rest. What was filled of it on
/// its way into the book is reported as filled by this step.
pub open spec fn created_event(o: LimitOrder) -> OrderEvent {
    OrderEvent {
        status: OrderStatus::Created,
        order_id: o.order_id,
        filled_size: o.cum_filled_size,
        cum_filled_size: o.cum_filled_size,
        remaining_size: o.size,
        price: o.price,
        side: o.side,
        reject_reason: RejectReason::NoError,
    }
}

/// The event that reports that the resting order `o` was cancelled.
pub open spec fn cancelled_event(o: LimitOrder) -> OrderEvent {
    OrderEvent {
        status: if o.cum_filled_size > 0 {
            OrderStatus::PartiallyFilledCancelled
        } else {
            OrderStatus::Cancelled
        },
        order_id: o.order_id,
        filled_size: 0,
        cum_filled_size: o.cum_filled_size,
        remaining_size: o.size,
        price: o.price,
        side: o.side,
        reject_reason: RejectReason::NoError,
    }
}

/// Every id that `index` knows rests on one of the two ladders.
pub open spec fn tight(
    index: Map<u64, Locator>,
    bids: Seq<Seq<LimitOrder>>,
    asks: Seq<Seq<LimitOrder>>,
) -> bool {
    forall|k: u64| #[trigger] index.contains_key(k) ==> !id_free(bids, k) || !id_free(asks, k)
}

/// Matching state of one symbol.
pub struct Orderbook {
    id: u64,
    bid: SideBook,
    ask: SideBook,
    /// Finds a resting order by its id.
    index: HashMap<u64, Locator>,
    events: Vec<Event>,
}

impl Orderbook {
    /// The id that the book's events carry.
    pub closed spec fn id(&self) -> u64 {
        self.id
    }

    /// The levels of `side` in walk order, each as its queue of orders.
    pub closed spec fn ladder(&self, side: Side) -> Seq<Seq<LimitOrder>> {
        match side {
            Side::Bid => self.bid.ladder(),
            Side::Ask => self.ask.ladder(),
        }
    }

    /// The order index: the locator of each order it knows, by order id.
    pub closed spec fn index(&self) -> Map<u64, Locator> {
        self.index@
    }

    /// The events caused so far and not yet collected, oldest first.
    pub closed spec fn pending(&self) -> Seq<Event> {
        self.events@
    }

    /// Both sides are well formed and hold the orders of their own side, and
    /// no two resting orders share an id.
    pub closed spec fn wf(&self) -> bool {
        &&& self.bid.wf()
        &&& self.bid.side() == Side::Bid
        &&& self.ask.wf()
        &&& self.ask.side() == Side::Ask
        &&& unique_ids(self.bid.ladder())
        &&& unique_ids(self.ask.ladder())
        &&& disjoint_ids(self.bid.ladder(), self.ask.ladder())
        &&& indexed(self.bid.ladder(), self.index@)
        &&& indexed(self.ask.ladder(), self.index@)
        &&& tight(self.index@, self.bid.ladder(), self.ask.ladder())
    }

    /// Whether an order with id `id` rests in the book.
    pub open spec fn has_order(&self, id: u64) -> bool {
        ladder_has(self.ladder(Side::Bid), id) || ladder_has(self.ladder(Side::Ask), id)
    }

    /// The side on which a request that names `id` finds its order: bids are
    /// searched first.
    pub open spec fn side_of(&self, id: u64) -> Side {
        if ladder_has(self.ladder(Side::Bid), id) {
            Side::Bid
        } else {
            Side::Ask
        }
    }

    /// The resting order that a request that names `id` finds.
    pub open spec fn order_of(&self, id: u64) -> LimitOrder
        recommends
            self.has_order(id),
    {
        ladder_get(self.ladder(self.side_of(id)), id)
    }

    /// The best bid is below the best ask, where both exist.
    pub open spec fn uncrossed(&self) -> bool {
        self.ladder(Side::Bid).len() > 0 && self.ladder(Side::Ask).len() > 0 ==> self.ladder(
            Side::Bid,
        )[0][0].price < self.ladder(Side::Ask)[0][0].price
    }

    /// Every resting order has an id of at most `bound`.
    pub open spec fn all_ids_below(&self, bound: u64) -> bool {
        ids_below(self.ladder(Side::Bid), bound) && ids_below(self.ladder(Side::Ask), bound)
    }

    /// Whether `order` could trade at once: the other side has a best price
    /// and the order's price reaches it.
    pub open spec fn order_crosses(&self, order: LimitOrder) -> bool {
        self.ladder(order.side.opposite()).len() > 0 && marketable(
            order.side,
            order.price,
            best_price(self.ladder(order.side.opposite())),
        )
    }

    /// Volume cached for `side`.
    pub closed spec fn cached_volume(&self, side: Side) -> nat {
        match side {
            Side::Bid => self.bid.cached_volume(),
            Side::Ask => self.ask.cached_volume(),
        }
    }

    /// Volume cached for the level at `i` of `side`.
    pub closed spec fn cached_level_volume(&self, side: Side, i: int) -> nat {
        match side {
            Side::Bid => self.bid.cached_level_volume(i),
            Side::Ask => self.ask.cached_level_volume(i),
        }
    }

    /// The volume kept for a side is the sum of the volumes kept for its
    /// levels, and that is the sum of the remaining sizes of the orders that
    /// rest on the side; the volume kept for a level is the sum of the
    /// remaining sizes of its orders.
    pub proof fn lemma_volume_sums(&self, side: Side)
        requires
            self.wf(),
        ensures
            self.cached_volume(side) == sum(
                Seq::new(self.ladder(side).len(), |i: int| self.cached_level_volume(side, i)),
            ),
            self.cached_volume(side) == queue_volume(flatten(self.ladder(side))),
            forall|i: int|
                0 <= i < self.ladder(side).len() ==> #[trigger] self.cached_level_volume(side, i)
                    == queue_volume(self.ladder(side)[i]),
    {
        self.bid.lemma_volumes();
        self.ask.lemma_volumes();
        lemma_flatten(self.ladder(side));
        match side {
            Side::Bid => {
                assert(Seq::new(
                    self.ladder(side).len(),
                    |i: int| self.cached_level_volume(side, i),
                ) =~= Seq::new(self.bid.ladder().len(), |i: int| self.bid.cached_level_volume(i)));
            },
            Side::Ask => {
                assert(Seq::new(
                    self.ladder(side).len(),
                    |i: int| self.cached_level_volume(side, i),
                ) =~= Seq::new(self.ask.ladder().len(), |i: int| self.ask.cached_level_volume(i)));
            },
        }
    }

    /// Each ladder of a well-formed book is well formed.
    pub proof fn lemma_ladders_ok(&self)
        requires
            self.wf(),
        ensures
            ladder_ok(self.ladder(Side::Bid), Side::Bid),
            ladder_ok(self.ladder(Side::Ask), Side::Ask),
            ladder_volume(self.ladder(Side::Bid)) <= u64::MAX,
            ladder_volume(self.ladder(Side::Ask)) <= u64::MAX,
    {
        self.bid.lemma_volumes();
        self.ask.lemma_volumes();
    }

    /// In a well-formed book no two resting orders share an id, and the
    /// index knows an id exactly if an order rests under it, with the
    /// order's side and price.
    pub proof fn lemma_ids(&self)
        requires
            self.wf(),
        ensures
            unique_ids(self.ladder(Side::Bid)),
            unique_ids(self.ladder(Side::Ask)),
            disjoint_ids(self.ladder(Side::Bid), self.ladder(Side::Ask)),
            indexed(self.ladder(Side::Bid), self.index()),
            indexed(self.ladder(Side::Ask), self.index()),
            forall|k: u64| #[trigger] self.index().contains_key(k) <==> self.has_order(k),
    {
        assert forall|k: u64| #[trigger] self.index().contains_key(k) <==> self.has_order(k) by {
            lemma_has_or_free(self.ladder(Side::Bid), k);
            lemma_has_or_free(self.ladder(Side::Ask), k);
            if !id_free(self.ladder(Side::Bid), k) {
                let (a, b) = choose|a: int, b: int|
                    valid_pos(self.ladder(Side::Bid), a, b) && (#[trigger] self.ladder(
                        Side::Bid,
                    )[a][b]).order_id == k;
            }
            if !id_free(self.ladder(Side::Ask), k) {
                let (a, b) = choose|a: int, b: int|
                    valid_pos(self.ladder(Side::Ask), a, b) && (#[trigger] self.ladder(
                        Side::Ask,
                    )[a][b]).order_id == k;
            }
        }
    }

    /// An empty book with id 0.
    pub fn new() -> (ob: Orderbook)
        ensures
            ob.wf(),
            ob.id() == 0,
            ob.ladder(Side::Bid) == Seq::<Seq<LimitOrder>>::empty(),
            ob.ladder(Side::Ask) == Seq::<Seq<LimitOrder>>::empty(),
            ob.pending() == Seq::<Event>::empty(),
    {
        Orderbook {
            id: 0,
            bid: SideBook::new(Side::Bid),
            ask: SideBook::new(Side::Ask),
            index: HashMap::new(),
            events: Vec::new(),
        }
    }

    /// The same book under the id `id`.
    pub fn with_id(self, id: u64) -> (ob: Orderbook)
        ensures
            ob.id() == id,
            ob.wf() == self.wf(),
            ob.ladder(Side::Bid) == self.ladder(Side::Bid),
            ob.ladder(Side::Ask) == self.ladder(Side::Ask),
            ob.pending() == self.pending(),
    {
        let mut ob = self;
        ob.id = id;
        ob
    }

    /// The id that the book's events carry.
    pub fn book_id(&self) -> (id: u64)
        ensures
            id == self.id(),
    {
        self.id
    }

    /// Snapshot of the best level of `side`: the highest bid or the lowest
    /// ask, with its volume and number of orders.
    pub fn best(&self, side: Side) -> (r: Option<Level>)
        requires
            self.wf(),
        ensures
            r == ladder_best(self.ladder(side)),
    {
        match side {
            Side::Bid => self.bid.best(),
            Side::Ask => self.ask.best(),
        }
    }

    /// Snapshots of the first `n` levels of `side` in walk order, bids from
    /// the highest price down and asks from the lowest up.
    pub fn top_n(&self, side: Side, n: u32) -> (v: Vec<Level>)
        requires
            self.wf(),
        ensures
            v@.len() == if n <= self.ladder(side).len() {
                n as int
            } else {
                self.ladder(side).len() as int
            },
            forall|k: int| 0 <= k < v@.len() ==> #[trigger] v@[k] == level_of(self.ladder(side)[k]),
    {
        match side {
            Side::Bid => self.bid.top_n(n),
            Side::Ask => self.ask.top_n(n),
        }
    }

    /// Number of orders resting on `side`.
    pub fn size(&self, side: Side) -> (n: u64)
        requires
            self.wf(),
        ensures
            n == ladder_count(self.ladder(side)),
    {
        match side {
            Side::Bid => self.bid.size(),
            Side::Ask => self.ask.size(),
        }
    }

    /// Sum of the remaining sizes of the orders resting on `side`.
    pub fn volume(&self, side: Side) -> (v: u64)
        requires
            self.wf(),
        ensures
            v == ladder_volume(self.ladder(side)),
            v == self.cached_volume(side),
    {
        proof {
            self.bid.lemma_volumes();
            self.ask.lemma_volumes();
        }
        match side {
            Side::Bid => self.bid.volume(),
            Side::Ask => self.ask.volume(),
        }
    }

    /// Whether an order with id `order_id` rests in the book.
    pub fn contains(&self, order_id: u64) -> (r: bool)
        requires
            self.wf(),
        ensures
            r == self.has_order(order_id),
    {
        proof {
            self.lemma_ids();
        }
        self.index.contains_key(&order_id)
    }

    /// Where the order `order_id` rests: its side, its level and its place
    /// in the level's queue. The index names side and price; the level is
    /// found by the price and the order in the level's queue.
    fn find(&self, order_id: u64) -> (r: Option<(Side, usize, usize)>)
        requires
            self.wf(),
        ensures
            r.is_some() == self.has_order(order_id),
            r.is_some() ==> {
                let (side, i, j) = r.unwrap();
                &&& side == self.side_of(order_id)
                &&& i == ladder_find(self.ladder(side), order_id)
                &&& j == queue_find(self.ladder(side)[i as int], order_id)
                &&& valid_pos(self.ladder(side), i as int, j as int)
                &&& self.ladder(side)[i as int][j as int].order_id == order_id
            },
    {
        let ghost bids = self.bid.ladder();
        let ghost asks = self.ask.ladder();
        proof {
            self.bid.lemma_volumes();
            self.ask.lemma_volumes();
            lemma_has_or_free(bids, order_id);
            lemma_has_or_free(asks, order_id);
        }
        let found = match self.index.get(&order_id) {
            None => None,
            Some(loc) => match loc.side {
                Side::Bid => match self.bid.locate_at(loc.price, order_id) {
                    Some((i, j)) => Some((Side::Bid, i, j)),
                    None => None,
                },
                Side::Ask => match self.ask.locate_at(loc.price, order_id) {
                    Some((i, j)) => Some((Side::Ask, i, j)),
                    None => None,
                },
            },
        };
        proof {
            match found {
                Some((side, i, j)) => {
                    lemma_unique_get(self.ladder(side), i as int, j as int);
                    if side == Side::Ask {
                        assert(id_free(bids, order_id)) by {
                            assert(asks[i as int][j as int].order_id == order_id);
                        }
                    }
                },
                None => {
                    assert forall|a: int, b: int| valid_pos(bids, a, b) implies (
                    #[trigger] bids[a][b]).order_id != order_id by {
                        assert(order_ok(bids[a][b], Side::Bid));
                    }
                    assert forall|a: int, b: int| valid_pos(asks, a, b) implies (
                    #[trigger] asks[a][b]).order_id != order_id by {
                        assert(order_ok(asks[a][b], Side::Ask));
                    }
                },
            }
        }
        found
    }

    /// Hands over the events caused since the last call, oldest first.
    pub fn take_events(&mut self) -> (v: Vec<Event>)
        ensures
            v@ == old(self).pending(),
            final(self).pending() == Seq::<Event>::empty(),
            final(self).id() == old(self).id(),
            final(self).wf() == old(self).wf(),
            final(self).ladder(Side::Bid) == old(self).ladder(Side::Bid),
            final(self).ladder(Side::Ask) == old(self).ladder(Side::Ask),
    {
        let mut v: Vec<Event> = Vec::new();
        std::mem::swap(&mut v, &mut self.events);
        v
    }

    /// Rests `order` at the tail of the queue at its price on its side, and
    /// records that it was created. Nothing is matched: an order that can
    /// trade goes through `execute` first.
    pub fn limit(&mut self, order: LimitOrder)
        requires
            old(self).wf(),
            order.price > 0,
            order.size > 0,
            order.size + order.cum_filled_size <= u64::MAX,
            !old(self).has_order(order.order_id),
            ladder_volume(old(self).ladder(order.side)) + order.size <= u64::MAX,
        ensures
            final(self).wf(),
            final(self).id() == old(self).id(),
            final(self).ladder(order.side) == ladder_insert(old(self).ladder(order.side), order),
            final(self).ladder(order.side.opposite()) == old(self).ladder(order.side.opposite()),
            final(self).pending() == old(self).pending().push(
                Event::Order { id: old(self).id(), event: created_event(order) },
            ),
            final(self).has_order(order.order_id),
            final(self).order_of(order.order_id) == order,
            old(self).uncrossed() && !old(self).order_crosses(order) ==> final(self).uncrossed(),
            forall|b: u64|
                old(self).all_ids_below(b) && order.order_id <= b
                    ==> #[trigger] final(self).all_ids_below(b),
    {
        proof {
            self.lemma_ladders_ok();
            assert forall|b: u64|
                ids_below(self.ladder(order.side), b) && order.order_id <= b implies #[trigger] ids_below(
                ladder_insert(self.ladder(order.side), order),
                b,
            ) by {
                lemma_insert(self.ladder(order.side), order, b);
            }
            lemma_insert(self.ladder(order.side), order, 0);
            lemma_has_or_free(self.ladder(Side::Bid), order.order_id);
            lemma_has_or_free(self.ladder(Side::Ask), order.order_id);
            lemma_insert_ids(
                self.ladder(order.side),
                order,
                self.ladder(order.side.opposite()),
            );
            lemma_insert_orders(self.ladder(order.side), order);
            lemma_insert_keeps(self.ladder(order.side), order);
        }
        let ghost own = self.ladder(order.side);
        let ghost other = self.ladder(order.side.opposite());
        let ghost index = self.index@;
        match order.side {
            Side::Bid => self.bid.rest(order),
            Side::Ask => self.ask.rest(order),
        }
        self.index.insert(order.order_id, Locator { side: order.side, price: order.price });
        proof {
            let n = ladder_insert(own, order);
            assert forall|a: int, b: int| valid_pos(n, a, b) implies self.index@.contains_key(
                (#[trigger] n[a][b]).order_id,
            ) && self.index@[n[a][b].order_id] == locator_of(n[a][b]) by {
                if n[a][b] != order {
                    let (i, j) = choose|i: int, j: int|
                        valid_pos(own, i, j) && #[trigger] own[i][j] == n[a][b];
                    assert(index.contains_key(own[i][j].order_id));
                    assert(own[i][j].order_id != order.order_id);
                }
            }
            assert forall|a: int, b: int| valid_pos(other, a, b) implies self.index@.contains_key(
                (#[trigger] other[a][b]).order_id,
            ) && self.index@[other[a][b].order_id] == locator_of(other[a][b]) by {
                assert(index.contains_key(other[a][b].order_id));
                assert(other[a][b].order_id != order.order_id);
            }
            assert forall|k: u64| #[trigger] self.index@.contains_key(k) implies !id_free(n, k)
                || !id_free(other, k) by {
                if k != order.order_id {
                    assert(index.contains_key(k));
                }
            }
        }
        self.events.push(
            Event::Order {
                id: self.id,
                event: OrderEvent {
                    status: OrderStatus::Created,
                    order_id: order.order_id,
                    filled_size: order.cum_filled_size,
                    cum_filled_size: order.cum_filled_size,
                    remaining_size: order.size,
                    price: order.price,
                    side: order.side,
                    reject_reason: RejectReason::NoError,
                },
            },
        );
    }

    /// Takes liquidity from the side opposite to `side` for the order
    /// `order_id`: up to `execute_size` lots, from the best price outward and
    /// oldest first within a price. Each fill records a trade and then the
    /// maker's event. A market order never rests, so after the fills it gets
    /// the one event that ends it. `size` is the taker's whole size; what is
    /// matched and reported goes by `execute_size` alone.
    ///
    /// Returns the lots of `execute_size` that were not filled.
    pub fn execute(
        &mut self,
        order_id: u64,
        side: Side,
        size: u64,
        execute_size: u64,
        is_market: bool,
    ) -> (remaining: u64)
        requires
            old(self).wf(),
        ensures
            final(self).wf(),
            final(self).id() == old(self).id(),
            final(self).ladder(side) == old(self).ladder(side),
            final(self).ladder(side.opposite()) == run_match(
                taker_of(old(self).id(), order_id, side),
                old(self).ladder(side.opposite()),
                execute_size,
            ).ladder,
            remaining == run_match(
                taker_of(old(self).id(), order_id, side),
                old(self).ladder(side.opposite()),
                execute_size,
            ).left,
            final(self).pending() == old(self).pending() + execution_events(
                taker_of(old(self).id(), order_id, side),
                old(self).ladder(side.opposite()),
                execute_size,
                is_market,
            ),
            old(self).uncrossed() ==> final(self).uncrossed(),
            forall|b: u64| old(self).all_ids_below(b) ==> #[trigger] final(self).all_ids_below(b),
    {
        proof {
            self.lemma_ladders_ok();
            let t = taker_of(self.id, order_id, side);
            let l = self.ladder(side.opposite());
            assert forall|b: u64| ids_below(l, b) implies #[trigger] ids_below(
                run_match(t, l, execute_size).ladder,
                b,
            ) by {
                lemma_match_ladder(t, l, side.opposite(), execute_size, b);
            }
            lemma_match_ladder(t, l, side.opposite(), execute_size, 0);
            lemma_match_ids(t, l, side.opposite(), execute_size, self.ladder(side), self.index@);
            lemma_filled_gone(t, l, side.opposite(), execute_size, self.ladder(side));
            lemma_match_keeps(t, l, side.opposite(), execute_size);
        }
        let ghost index0 = self.index@;
        let ghost t = taker_of(self.id, order_id, side);
        let ghost r = run_match(t, self.ladder(side.opposite()), execute_size);
        let ghost e0 = self.events@;
        let first = self.events.len();
        let remaining = match side {
            Side::Bid => self.ask.consume(self.id, order_id, execute_size, &mut self.events),
            Side::Ask => self.bid.consume(self.id, order_id, execute_size, &mut self.events),
        };
        let mut p: usize = first;
        while p < self.events.len()
            invariant
                first <= p <= self.events@.len(),
                self.events@ == e0 + r.events,
                first == e0.len(),
                self.id == old(self).id,
                self.bid.wf(),
                self.ask.wf(),
                self.bid.side() == Side::Bid,
                self.ask.side() == Side::Ask,
                self.ladder(side) == old(self).ladder(side),
                self.ladder(side.opposite()) == r.ladder,
                indexed(self.bid.ladder(), self.index@),
                indexed(self.ask.ladder(), self.index@),
                forall|q: int, id: u64|
                    0 <= q < r.events.len() && #[trigger] reports_filled(r.events[q], id)
                        ==> id_free(r.ladder, id) && id_free(old(self).ladder(side), id),
                forall|k: u64| #[trigger]
                    self.index@.contains_key(k) ==> index0.contains_key(k) && none_filled(
                        r.events,
                        p - first,
                        k,
                    ),
            decreases self.events.len() - p,
        {
            let ghost before = self.index@;
            let e = self.events[p];
            proof {
                assert(self.events@[p as int] == r.events[p - first]);
            }
            match e {
                Event::Order { event, .. } => {
                    match event.status {
                        OrderStatus::Filled => {
                            proof {
                                assert(reports_filled(r.events[p - first], event.order_id));
                                assert(id_free(r.ladder, event.order_id));
                                assert(id_free(old(self).ladder(side), event.order_id));
                            }
                            self.index.remove(&event.order_id);
                        },
                        _ => {},
                    }
                },
                Event::Trade { .. } => {},
            }
            proof {
                assert forall|k: u64| #[trigger] self.index@.contains_key(k) implies none_filled(
                    r.events,
                    p + 1 - first,
                    k,
                ) by {
                    assert(before.contains_key(k));
                    assert(none_filled(r.events, p - first, k));
                    assert(!reports_filled(r.events[p - first], k));
                }
            }
            p += 1;
        }
        proof {
            assert forall|k: u64| #[trigger] self.index@.contains_key(k) implies !id_free(
                self.bid.ladder(),
                k,
            ) || !id_free(self.ask.ladder(), k) by {
                assert(index0.contains_key(k));
                assert(none_filled(r.events, r.events.len() as int, k));
            }
        }
        if is_market {
            let nothing = remaining >= execute_size;
            self.events.push(
                Event::Order {
                    id: self.id,
                    event: OrderEvent {
                        status: if nothing {
                            OrderStatus::Rejected
                        } else if remaining == 0 {
                            OrderStatus::Filled
                        } else {
                            OrderStatus::PartiallyFilledCancelled
                        },
                        order_id,
                        filled_size: if nothing {
                            0
                        } else {
                            execute_size - remaining
                        },
                        cum_filled_size: if nothing {
                            0
                        } else {
                            execute_size - remaining
                        },
                        remaining_size: remaining,
                        price: 0,
                        side,
                        reject_reason: if nothing {
                            RejectReason::NoLiquidity
                        } else {
                            RejectReason::NoError
                        },
                    },
                },
            );
            proof {
                lemma_match_left(t, old(self).ladder(side.opposite()), execute_size);
                assert(self.events@ =~= e0 + r.events.push(
                    Event::Order { id: t.book_id, event: taker_event(t, execute_size, r.left) },
                ));
            }
        }
        remaining
    }

    /// Takes the resting order `order_id` out of the book and records that
    /// it was cancelled. Fails, and changes nothing, if no such order rests.
    pub fn cancel(&mut self, order_id: u64) -> (r: Result<(), OrderbookError>)
        requires
            old(self).wf(),
        ensures
            final(self).wf(),
            final(self).id() == old(self).id(),
            r.is_ok() == old(self).has_order(order_id),
            r.is_err() ==> r == Err::<(), OrderbookError>(OrderbookError::OrderNotFound) && *final(self)
                == *old(self),
            r.is_ok() ==> final(self).ladder(old(self).side_of(order_id)) == ladder_cancel(
                old(self).ladder(old(self).side_of(order_id)),
                order_id,
            ) && final(self).ladder(old(self).side_of(order_id).opposite()) == old(self).ladder(
                old(self).side_of(order_id).opposite(),
            ) && final(self).pending() == old(self).pending().push(
                Event::Order { id: old(self).id(), event: cancelled_event(old(self).order_of(order_id)) },
            ),
            !final(self).has_order(order_id),
            old(self).uncrossed() ==> final(self).uncrossed(),
            forall|b: u64| old(self).all_ids_below(b) ==> #[trigger] final(self).all_ids_below(b),
    {
        proof {
            self.lemma_ladders_ok();
            if self.has_order(order_id) {
                let side = self.side_of(order_id);
                let l = self.ladder(side);
                lemma_ladder_find(l, order_id);
                let i = ladder_find(l, order_id) as int;
                lemma_queue_find(l[i], order_id);
                let j = queue_find(l[i], order_id) as int;
                assert forall|b: u64| ids_below(l, b) implies #[trigger] ids_below(
                    ladder_cancel(l, order_id),
                    b,
                ) by {
                    lemma_remove_at(l, side, i, j, b);
                }
                lemma_remove_at(l, side, i, j, 0);
                lemma_remove_at_ids(l, i, j, self.ladder(side.opposite()), self.index@);
                lemma_remove_keeps(l, i, j);
                assert(id_free(self.ladder(side.opposite()), order_id)) by {
                    assert(l[i][j].order_id == order_id);
                }
                lemma_has_or_free(ladder_cancel(l, order_id), order_id);
                lemma_has_or_free(self.ladder(side.opposite()), order_id);
            }
        }
        let o = match self.find(order_id) {
            None => {
                return Err(OrderbookError::OrderNotFound);
            },
            Some((side, i, j)) => match side {
                Side::Bid => self.bid.remove_at(i, j),
                Side::Ask => self.ask.remove_at(i, j),
            },
        };
        self.index.remove(&order_id);
        proof {
            assert forall|k: u64| #[trigger] self.index@.contains_key(k) implies !id_free(
                self.bid.ladder(),
                k,
            ) || !id_free(self.ask.ladder(), k) by {
                assert(old(self).index@.contains_key(k));
                assert(k != order_id);
            }
        }
        self.events.push(
            Event::Order {
                id: self.id,
                event: OrderEvent {
                    status: if o.cum_filled_size > 0 {
                        OrderStatus::PartiallyFilledCancelled
                    } else {
                        OrderStatus::Cancelled
                    },
                    order_id: o.order_id,
                    filled_size: 0,
                    cum_filled_size: o.cum_filled_size,
                    remaining_size: o.size,
                    price: o.price,
                    side: o.side,
                    reject_reason: RejectReason::NoError,
                },
            },
        );
        Ok(())
    }

    /// Gives the resting order `order_id` the total size `size`, of which
    /// what was filled stays filled. An order that does not grow keeps its
    /// place in the queue of its price; one that grows moves to the tail.
    /// Fails, and changes nothing, if no such order rests or if `size` does
    /// not exceed what was already filled.
    pub fn amend_size(&mut self, order_id: u64, size: u64) -> (r: Result<(), OrderbookError>)
        requires
            old(self).wf(),
            old(self).has_order(order_id) ==> ladder_volume(
                old(self).ladder(old(self).side_of(order_id)),
            ) + size <= u64::MAX,
        ensures
            final(self).wf(),
            final(self).id() == old(self).id(),
            final(self).pending() == old(self).pending(),
            !old(self).has_order(order_id) ==> r == Err::<(), OrderbookError>(
                OrderbookError::OrderNotFound,
            ),
            old(self).has_order(order_id) && size <= old(self).order_of(order_id).cum_filled_size ==> r
                == Err::<(), OrderbookError>(OrderbookError::InvalidOrderSize),
            old(self).has_order(order_id) && size > old(self).order_of(order_id).cum_filled_size
                ==> r.is_ok(),
            r.is_err() ==> *final(self) == *old(self),
            r.is_ok() ==> final(self).ladder(old(self).side_of(order_id)) == ladder_amend(
                old(self).ladder(old(self).side_of(order_id)),
                order_id,
                size,
            ) && final(self).ladder(old(self).side_of(order_id).opposite()) == old(self).ladder(
                old(self).side_of(order_id).opposite(),
            ),
            old(self).uncrossed() ==> final(self).uncrossed(),
            forall|b: u64| old(self).all_ids_below(b) ==> #[trigger] final(self).all_ids_below(b),
    {
        proof {
            self.lemma_ladders_ok();
            if self.has_order(order_id) && size > self.order_of(order_id).cum_filled_size {
                let side = self.side_of(order_id);
                let l = self.ladder(side);
                lemma_ladder_find(l, order_id);
                let i = ladder_find(l, order_id) as int;
                lemma_queue_find(l[i], order_id);
                let j = queue_find(l[i], order_id) as int;
                assert forall|b: u64| ids_below(l, b) implies #[trigger] ids_below(
                    ladder_amend(l, order_id, size),
                    b,
                ) by {
                    lemma_amend_at(l, side, i, j, size, b);
                }
                lemma_amend_at(l, side, i, j, size, 0);
                lemma_amend_at_ids(l, i, j, size, self.ladder(side.opposite()), self.index@);
                lemma_amend_keeps(l, i, j, size);
            }
        }
        match self.find(order_id) {
            None => {
                return Err(OrderbookError::OrderNotFound);
            },
            Some((side, i, j)) => match side {
                Side::Bid => {
                    if size <= self.bid.order_at(i, j).cum_filled_size {
                        return Err(OrderbookError::InvalidOrderSize);
                    }
                    self.bid.amend_at(i, j, size);
                },
                Side::Ask => {
                    if size <= self.ask.order_at(i, j).cum_filled_size {
                        return Err(OrderbookError::InvalidOrderSize);
                    }
                    self.ask.amend_at(i, j, size);
                },
            },
        }
        Ok(())
    }
}

} // verus!
