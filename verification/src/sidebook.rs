//! One side of a book: price levels in walk order, each with its queue of
//! resting orders and its cached volume.

use vstd::prelude::*;
use crate::ladder::{
    better, ladder_amend_at, ladder_best, ladder_count, ladder_insert, ladder_ok, ladder_remove_at,
    ladder_volume, lemma_count_le_volume, lemma_ladder_insert_level, lemma_ladder_remove_level,
    lemma_ladder_update_level, lemma_ok_insert_level, lemma_ok_remove_level, lemma_ok_update_level,
    lemma_queue_find, lemma_queue_push, lemma_queue_remove, lemma_queue_update, lemma_sum_bounds,
    lemma_sum_insert, level_counts, level_of, level_rank, level_volumes, order_ok, queue_find,
    queue_volume, resized, sizes, sum, valid_pos,
};
use crate::matching::{
    fill_events, reduced, run_match, taker_of, without_head,
};
use crate::types::{Event, Level, LimitOrder, OrderEvent, OrderStatus, RejectReason, Side, TradeEvent};

verus! {

/// The orders resting at one price, oldest first, with their total volume.
pub struct PriceLevel {
    price: u64,
    volume: u64,
    orders: Vec<LimitOrder>,
}

/// The price levels of one side, best price first, with the side's totals.
pub struct SideBook {
    side: Side,
    levels: Vec<PriceLevel>,
    size: u64,
    volume: u64,
}

/// Whether `p` is walked before `q` on `side`.
pub fn is_better(side: Side, p: u64, q: u64) -> (r: bool)
    ensures
        r == better(side, p, q),
{
    match side {
        Side::Bid => p > q,
        Side::Ask => p < q,
    }
}

impl SideBook {
    /// The side whose orders rest here.
    pub closed spec fn side(&self) -> Side {
        self.side
    }

    /// The levels in walk order, each as its queue of orders.
    pub closed spec fn ladder(&self) -> Seq<Seq<LimitOrder>> {
        Seq::new(self.levels@.len(), |i: int| self.levels@[i].orders@)
    }

    /// Volume cached for the level at `i`.
    pub closed spec fn cached_level_volume(&self, i: int) -> nat {
        self.levels@[i].volume as nat
    }

    /// Volume cached for the whole side.
    pub closed spec fn cached_volume(&self) -> nat {
        self.volume as nat
    }

    /// Number of orders cached for the whole side.
    pub closed spec fn cached_size(&self) -> nat {
        self.size as nat
    }

    /// The ladder is well formed and every cached number is the sum it stands for.
    pub closed spec fn wf(&self) -> bool {
        &&& ladder_ok(self.ladder(), self.side)
        &&& forall|i: int|
            0 <= i < self.levels@.len() ==> (#[trigger] self.levels@[i]).price
                == self.levels@[i].orders@[0].price && self.levels@[i].volume == queue_volume(
                self.levels@[i].orders@,
            )
        &&& self.volume == ladder_volume(self.ladder())
        &&& self.size == ladder_count(self.ladder())
    }

    /// The cached side volume is the sum of the cached level volumes, and
    /// each of those is the sum of the remaining sizes of the level's orders.
    pub proof fn lemma_volumes(&self)
        requires
            self.wf(),
        ensures
            ladder_ok(self.ladder(), self.side()),
            self.cached_volume() == ladder_volume(self.ladder()),
            self.cached_size() == ladder_count(self.ladder()),
            ladder_volume(self.ladder()) <= u64::MAX,
            forall|i: int|
                0 <= i < self.ladder().len() ==> #[trigger] self.cached_level_volume(i)
                    == queue_volume(self.ladder()[i]),
            self.cached_volume() == sum(
                Seq::new(self.ladder().len(), |i: int| self.cached_level_volume(i)),
            ),
    {
        assert(Seq::new(self.ladder().len(), |i: int| self.cached_level_volume(i))
            =~= level_volumes(self.ladder()));
    }

    /// An empty side.
    pub fn new(side: Side) -> (s: SideBook)
        ensures
            s.wf(),
            s.side() == side,
            s.ladder() == Seq::<Seq<LimitOrder>>::empty(),
    {
        let s = SideBook { side, levels: Vec::new(), size: 0, volume: 0 };
        assert(s.ladder() =~~= Seq::<Seq<LimitOrder>>::empty());
        assert(level_volumes(s.ladder()) =~= Seq::<nat>::empty());
        assert(level_counts(s.ladder()) =~= Seq::<nat>::empty());
        s
    }

    /// Number of orders resting on this side.
    pub fn size(&self) -> (n: u64)
        requires
            self.wf(),
        ensures
            n == ladder_count(self.ladder()),
    {
        self.size
    }

    /// Sum of the remaining sizes of the orders resting on this side.
    pub fn volume(&self) -> (v: u64)
        requires
            self.wf(),
        ensures
            v == ladder_volume(self.ladder()),
    {
        self.volume
    }

    /// Index of the first level whose price is not better than `price`.
    fn rank(&self, price: u64) -> (i: usize)
        requires
            self.wf(),
        ensures
            i == level_rank(self.ladder(), self.side(), price),
            i <= self.ladder().len(),
            forall|k: int| 0 <= k < i ==> better(self.side(), (#[trigger] self.ladder()[k])[0].price, price),
            i < self.ladder().len() ==> !better(self.side(), self.ladder()[i as int][0].price, price),
    {
        let ghost l = self.ladder();
        let mut i: usize = 0;
        assert(l.skip(0) =~= l);
        while i < self.levels.len() && is_better(self.side, self.levels[i].price, price)
            invariant
                self.wf(),
                l == self.ladder(),
                i <= l.len(),
                level_rank(l, self.side, price) == i + level_rank(l.skip(i as int), self.side, price),
                forall|k: int| 0 <= k < i ==> better(self.side, (#[trigger] l[k])[0].price, price),
            decreases self.levels.len() - i,
        {
            proof {
                assert(l.skip(i as int)[0] == l[i as int]);
                assert(l.skip(i as int).skip(1) =~= l.skip(i + 1));
                assert(l[i as int].len() > 0);
            }
            i += 1;
        }
        proof {
            if i < l.len() {
                assert(l.skip(i as int)[0] == l[i as int]);
                assert(self.levels@[i as int].price == l[i as int][0].price);
            }
        }
        i
    }

    /// Rests `order` at the tail of the level of its price, which is created
    /// if the price is new.
    pub fn rest(&mut self, order: LimitOrder)
        requires
            old(self).wf(),
            order_ok(order, old(self).side()),
            ladder_volume(old(self).ladder()) + order.size <= u64::MAX,
        ensures
            final(self).wf(),
            final(self).side() == old(self).side(),
            final(self).ladder() == ladder_insert(old(self).ladder(), order),
    {
        let ghost l = self.ladder();
        let ghost side = self.side;
        proof {
            lemma_count_le_volume(l, side);
        }
        let i = self.rank(order.price);
        if i < self.levels.len() && self.levels[i].price == order.price {
            proof {
                assert(queue_volume(l[i as int]) <= ladder_volume(l));
                lemma_queue_push(l[i as int], order);
                lemma_ladder_update_level(l, i as int, l[i as int].push(order));
                let q = l[i as int].push(order);
                assert forall|j: int| 0 <= j < q.len() implies order_ok(#[trigger] q[j], side)
                    && q[j].price == l[i as int][0].price by {
                    if j < l[i as int].len() {
                        assert(q[j] == l[i as int][j]);
                    }
                }
                lemma_ok_update_level(l, side, i as int, q);
            }
            self.levels[i].orders.push(order);
            self.levels[i].volume = self.levels[i].volume + order.size;
            proof {
                assert(self.ladder() =~~= l.update(i as int, l[i as int].push(order)));
            }
        } else {
            let mut orders: Vec<LimitOrder> = Vec::new();
            orders.push(order);
            proof {
                assert(orders@ =~= seq![order]);
                assert(sizes(seq![order]) =~= Seq::<nat>::empty().insert(0, order.size as nat));
                lemma_sum_insert(Seq::<nat>::empty(), 0, order.size as nat);
                lemma_ladder_insert_level(l, i as int, seq![order]);
                if i < l.len() {
                    assert(self.levels@[i as int].price == l[i as int][0].price);
                }
                lemma_ok_insert_level(l, side, i as int, order);
            }
            self.levels.insert(i, PriceLevel { price: order.price, volume: order.size, orders });
            proof {
                assert(self.ladder() =~~= l.insert(i as int, seq![order]));
            }
        }
        self.size = self.size + 1;
        self.volume = self.volume + order.size;
    }

    /// Matches a taker that wants `wanted` lots against this side: orders
    /// are taken from the best level outward, oldest first within a level.
    /// Each fill appends its trade and the maker's order event to `events`.
    /// Returns the lots that found no counterparty.
    pub fn consume(
        &mut self,
        book_id: u64,
        taker_id: u64,
        wanted: u64,
        events: &mut Vec<Event>,
    ) -> (left: u64)
        requires
            old(self).wf(),
        ensures
            final(self).wf(),
            final(self).side() == old(self).side(),
            final(self).ladder() == run_match(
                taker_of(book_id, taker_id, old(self).side().opposite()),
                old(self).ladder(),
                wanted,
            ).ladder,
            final(events)@ == old(events)@ + run_match(
                taker_of(book_id, taker_id, old(self).side().opposite()),
                old(self).ladder(),
                wanted,
            ).events,
            left == run_match(
                taker_of(book_id, taker_id, old(self).side().opposite()),
                old(self).ladder(),
                wanted,
            ).left,
    {
        let ghost l0 = self.ladder();
        let ghost e0 = events@;
        let ghost side = self.side;
        let ghost t = taker_of(book_id, taker_id, self.side.opposite());
        let ghost mut emitted: Seq<Event> = Seq::empty();
        let taker_side = self.side.inverse();
        let mut hungry: u64 = wanted;
        assert(e0 + emitted =~= e0);
        assert(emitted + run_match(t, l0, wanted).events =~= run_match(t, l0, wanted).events);
        while hungry > 0 && self.levels.len() > 0
            invariant
                self.wf(),
                self.side == side,
                t == taker_of(book_id, taker_id, side.opposite()),
                taker_side == t.side,
                events@ == e0 + emitted,
                run_match(t, l0, wanted).ladder == run_match(t, self.ladder(), hungry).ladder,
                run_match(t, l0, wanted).left == run_match(t, self.ladder(), hungry).left,
                run_match(t, l0, wanted).events == emitted + run_match(
                    t,
                    self.ladder(),
                    hungry,
                ).events,
            decreases self.size as int + (if hungry > 0 { 1int } else { 0int }),
        {
            let ghost l = self.ladder();
            let ghost before = events@;
            proof {
                lemma_count_le_volume(l, side);
                assert(l[0].len() > 0);
                assert(order_ok(l[0][0], side));
                lemma_sum_bounds_level(l);
            }
            let maker = self.levels[0].orders[0];
            let filled: u64 = if maker.size <= hungry { maker.size } else { hungry };
            let ghost step = fill_events(t, maker, filled);
            let ghost rest = run_match(t, l, hungry);
            let buyer: u64 = match taker_side {
                Side::Bid => taker_id,
                Side::Ask => maker.order_id,
            };
            let seller: u64 = match taker_side {
                Side::Bid => maker.order_id,
                Side::Ask => taker_id,
            };
            events.push(
                Event::Trade {
                    id: book_id,
                    event: TradeEvent {
                        size: filled,
                        price: maker.price,
                        side: taker_side,
                        buyer_order_id: buyer,
                        seller_order_id: seller,
                    },
                },
            );
            events.push(
                Event::Order {
                    id: book_id,
                    event: OrderEvent {
                        status: if filled == maker.size {
                            OrderStatus::Filled
                        } else {
                            OrderStatus::PartiallyFilled
                        },
                        order_id: maker.order_id,
                        filled_size: filled,
                        cum_filled_size: maker.cum_filled_size + filled,
                        remaining_size: maker.size - filled,
                        price: maker.price,
                        side: maker.side,
                        reject_reason: RejectReason::NoError,
                    },
                },
            );
            proof {
                assert(events@ =~= before + step);
                assert(before + step =~= e0 + (emitted + step));
            }
            if filled == maker.size {
                if self.levels[0].orders.len() == 1 {
                    proof {
                        lemma_queue_remove(l[0], 0);
                        assert(sizes(l[0].remove(0)) =~= Seq::<nat>::empty());
                        lemma_ladder_remove_level(l, 0);
                        lemma_ok_remove_level(l, side, 0);
                        assert(l.remove(0) =~= l.skip(1));
                    }
                    self.levels.remove(0);
                    proof {
                        assert(self.ladder() =~~= l.skip(1));
                    }
                } else {
                    let ghost q = l[0].skip(1);
                    proof {
                        lemma_queue_remove(l[0], 0);
                        assert(l[0].remove(0) =~= q);
                        lemma_ladder_update_level(l, 0, q);
                        assert forall|j: int| 0 <= j < q.len() implies order_ok(
                            #[trigger] q[j],
                            side,
                        ) && q[j].price == l[0][0].price by {
                            assert(q[j] == l[0][j + 1]);
                        }
                        lemma_ok_update_level(l, side, 0, q);
                    }
                    self.levels[0].orders.remove(0);
                    self.levels[0].volume = self.levels[0].volume - filled;
                    proof {
                        assert(self.ladder() =~~= l.update(0, q));
                    }
                }
                self.size = self.size - 1;
                self.volume = self.volume - filled;
                hungry = hungry - filled;
                proof {
                    assert(self.ladder() == without_head(l));
                    assert(rest.events =~= step + run_match(t, self.ladder(), hungry).events);
                    assert(emitted + (step + run_match(t, self.ladder(), hungry).events) =~= (emitted
                        + step) + run_match(t, self.ladder(), hungry).events);
                    emitted = emitted + step;
                }
            } else {
                let after = LimitOrder {
                    order_id: maker.order_id,
                    price: maker.price,
                    size: maker.size - filled,
                    cum_filled_size: maker.cum_filled_size + filled,
                    side: maker.side,
                };
                let ghost q = l[0].update(0, after);
                proof {
                    assert(after == reduced(maker, filled));
                    lemma_queue_update(l[0], 0, after);
                    lemma_ladder_update_level(l, 0, q);
                    assert forall|j: int| 0 <= j < q.len() implies order_ok(#[trigger] q[j], side)
                        && q[j].price == l[0][0].price by {
                        if j > 0 {
                            assert(q[j] == l[0][j]);
                        }
                    }
                    lemma_ok_update_level(l, side, 0, q);
                }
                self.levels[0].orders[0] = after;
                self.levels[0].volume = self.levels[0].volume - filled;
                self.volume = self.volume - filled;
                hungry = 0;
                proof {
                    assert(self.ladder() =~~= l.update(0, q));
                    assert(rest.events =~= step);
                    assert((emitted + step) + run_match(t, self.ladder(), hungry).events =~= emitted
                        + step);
                    emitted = emitted + step;
                }
            }
        }
        proof {
            assert(e0 + emitted =~= e0 + run_match(t, l0, wanted).events) by {
                assert(emitted + run_match(t, self.ladder(), hungry).events =~= emitted);
            }
        }
        hungry
    }

    /// Position of the first order with id `id` among those at `price`.
    pub fn locate_at(&self, price: u64, id: u64) -> (r: Option<(usize, usize)>)
        requires
            self.wf(),
        ensures
            r.is_some() ==> valid_pos(self.ladder(), r.unwrap().0 as int, r.unwrap().1 as int)
                && self.ladder()[r.unwrap().0 as int][r.unwrap().1 as int].order_id == id
                && self.ladder()[r.unwrap().0 as int][r.unwrap().1 as int].price == price,
            r.is_none() ==> forall|a: int, b: int|
                valid_pos(self.ladder(), a, b) && (#[trigger] self.ladder()[a][b]).price == price
                    ==> self.ladder()[a][b].order_id != id,
    {
        let ghost l = self.ladder();
        let i = self.rank(price);
        if i < self.levels.len() && self.levels[i].price == price {
            let j = find_in_queue(&self.levels[i].orders, id);
            proof {
                lemma_queue_find(l[i as int], id);
            }
            if j < self.levels[i].orders.len() {
                return Some((i, j));
            }
            proof {
                assert forall|a: int, b: int|
                    valid_pos(l, a, b) && (#[trigger] l[a][b]).price == price implies l[a][b].order_id
                    != id by {
                    if a < i {
                        assert(better(self.side, l[a][0].price, l[i as int][0].price));
                    } else if a > i {
                        assert(better(self.side, l[i as int][0].price, l[a][0].price));
                    }
                }
            }
            None
        } else {
            proof {
                assert forall|a: int, b: int|
                    valid_pos(l, a, b) && (#[trigger] l[a][b]).price == price implies l[a][b].order_id
                    != id by {
                    if a < i {
                        assert(better(self.side, l[a][0].price, price));
                    } else {
                        assert(!better(self.side, l[i as int][0].price, price));
                        if a > i {
                            assert(better(self.side, l[i as int][0].price, l[a][0].price));
                        }
                    }
                }
            }
            None
        }
    }

    /// The order at position `j` of level `i`.
    pub fn order_at(&self, i: usize, j: usize) -> (o: LimitOrder)
        requires
            self.wf(),
            i < self.ladder().len(),
            j < self.ladder()[i as int].len(),
        ensures
            o == self.ladder()[i as int][j as int],
    {
        self.levels[i].orders[j]
    }

    /// Takes the order at position `j` of level `i` out of the book. A level
    /// that this empties is removed.
    pub fn remove_at(&mut self, i: usize, j: usize) -> (o: LimitOrder)
        requires
            old(self).wf(),
            i < old(self).ladder().len(),
            j < old(self).ladder()[i as int].len(),
        ensures
            final(self).wf(),
            final(self).side() == old(self).side(),
            o == old(self).ladder()[i as int][j as int],
            final(self).ladder() == ladder_remove_at(old(self).ladder(), i as int, j as int),
    {
        let ghost l = self.ladder();
        let ghost side = self.side;
        let o = self.levels[i].orders[j];
        proof {
            lemma_count_le_volume(l, side);
            lemma_queue_remove(l[i as int], j as int);
            assert(order_ok(l[i as int][j as int], side));
        }
        if self.levels[i].orders.len() == 1 {
            proof {
                assert(sizes(l[i as int].remove(0)) =~= Seq::<nat>::empty());
                lemma_ladder_remove_level(l, i as int);
                lemma_ok_remove_level(l, side, i as int);
            }
            self.levels.remove(i);
            proof {
                assert(self.ladder() =~~= l.remove(i as int));
            }
        } else {
            let ghost q = l[i as int].remove(j as int);
            proof {
                lemma_ladder_update_level(l, i as int, q);
                assert forall|k: int| 0 <= k < q.len() implies order_ok(#[trigger] q[k], side)
                    && q[k].price == l[i as int][0].price by {
                    assert(q[k] == if k < j { l[i as int][k] } else { l[i as int][k + 1] });
                }
                lemma_ok_update_level(l, side, i as int, q);
            }
            self.levels[i].orders.remove(j);
            self.levels[i].volume = self.levels[i].volume - o.size;
            proof {
                assert(self.ladder() =~~= l.update(i as int, q));
                assert(q[0].price == l[i as int][0].price);
            }
        }
        self.size = self.size - 1;
        self.volume = self.volume - o.size;
        o
    }

    /// Gives the order at position `j` of level `i` the total size
    /// `new_size`. An order that does not grow keeps its place; one that
    /// grows moves to the tail of its level.
    pub fn amend_at(&mut self, i: usize, j: usize, new_size: u64)
        requires
            old(self).wf(),
            i < old(self).ladder().len(),
            j < old(self).ladder()[i as int].len(),
            new_size > old(self).ladder()[i as int][j as int].cum_filled_size,
            ladder_volume(old(self).ladder()) + new_size <= u64::MAX,
        ensures
            final(self).wf(),
            final(self).side() == old(self).side(),
            final(self).ladder() == ladder_amend_at(
                old(self).ladder(),
                i as int,
                j as int,
                new_size,
            ),
    {
        let ghost l = self.ladder();
        let ghost side = self.side;
        let o = self.levels[i].orders[j];
        proof {
            lemma_count_le_volume(l, side);
            assert(order_ok(l[i as int][j as int], side));
            assert(queue_volume(l[i as int]) <= ladder_volume(l));
        }
        let after = LimitOrder {
            order_id: o.order_id,
            price: o.price,
            size: new_size - o.cum_filled_size,
            cum_filled_size: o.cum_filled_size,
            side: o.side,
        };
        assert(after == resized(o, new_size));
        let ghost qf: Seq<LimitOrder>;
        if new_size <= o.size + o.cum_filled_size {
            proof {
                qf = l[i as int].update(j as int, after);
                lemma_queue_update(l[i as int], j as int, after);
                assert forall|k: int| 0 <= k < qf.len() implies order_ok(#[trigger] qf[k], side)
                    && qf[k].price == l[i as int][0].price by {
                    if k != j {
                        assert(qf[k] == l[i as int][k]);
                    }
                }
            }
            self.levels[i].orders[j] = after;
        } else {
            let ghost q1 = l[i as int].remove(j as int);
            proof {
                qf = q1.push(after);
                lemma_queue_remove(l[i as int], j as int);
                lemma_queue_push(q1, after);
                assert forall|k: int| 0 <= k < qf.len() implies order_ok(#[trigger] qf[k], side)
                    && qf[k].price == l[i as int][0].price by {
                    if k < q1.len() {
                        assert(qf[k] == q1[k]);
                        assert(q1[k] == if k < j { l[i as int][k] } else { l[i as int][k + 1] });
                    }
                }
            }
            self.levels[i].orders.remove(j);
            self.levels[i].orders.push(after);
        }
        self.levels[i].volume = self.levels[i].volume - o.size + after.size;
        self.volume = self.volume - o.size + after.size;
        proof {
            lemma_ladder_update_level(l, i as int, qf);
            lemma_ok_update_level(l, side, i as int, qf);
            assert(self.ladder() =~~= l.update(i as int, qf));
            assert(qf[0].price == l[i as int][0].price);
            assert(self.levels@[i as int].orders@ == qf);
            assert forall|a: int| 0 <= a < self.levels@.len() implies (
            #[trigger] self.levels@[a]).price == self.levels@[a].orders@[0].price
                && self.levels@[a].volume == queue_volume(self.levels@[a].orders@) by {
                if a != i {
                    assert(self.levels@[a] == old(self).levels@[a]);
                }
            }
        }
    }

    /// Snapshot of the best level, if the side has one.
    pub fn best(&self) -> (r: Option<Level>)
        requires
            self.wf(),
        ensures
            r == ladder_best(self.ladder()),
    {
        if self.levels.len() == 0 {
            None
        } else {
            Some(self.snapshot(0))
        }
    }

    /// Snapshot of the level at `i`.
    fn snapshot(&self, i: usize) -> (r: Level)
        requires
            self.wf(),
            i < self.ladder().len(),
        ensures
            r == level_of(self.ladder()[i as int]),
    {
        proof {
            lemma_count_le_volume(self.ladder(), self.side);
            lemma_sum_bounds(level_counts(self.ladder()), i as int);
        }
        Level {
            price: self.levels[i].price,
            volume: self.levels[i].volume,
            orders: self.levels[i].orders.len() as u64,
        }
    }

    /// Snapshots of the first `n` levels in walk order, or of all levels if
    /// there are fewer.
    pub fn top_n(&self, n: u32) -> (v: Vec<Level>)
        requires
            self.wf(),
        ensures
            v@.len() == if n <= self.ladder().len() { n as int } else { self.ladder().len() as int },
            forall|k: int| 0 <= k < v@.len() ==> #[trigger] v@[k] == level_of(self.ladder()[k]),
    {
        let mut v: Vec<Level> = Vec::new();
        let mut k: usize = 0;
        while k < self.levels.len() && k < n as usize
            invariant
                self.wf(),
                k <= self.ladder().len(),
                k <= n,
                v@.len() == k,
                forall|a: int| 0 <= a < k ==> #[trigger] v@[a] == level_of(self.ladder()[a]),
            decreases self.levels.len() - k,
        {
            let lv = self.snapshot(k);
            v.push(lv);
            k += 1;
        }
        v
    }
}

/// Position in `orders` of the first order with id `id`, or their number.
fn find_in_queue(orders: &Vec<LimitOrder>, id: u64) -> (j: usize)
    ensures
        j == queue_find(orders@, id),
        j <= orders@.len(),
{
    let ghost q = orders@;
    let mut j: usize = 0;
    assert(q.skip(0) =~= q);
    while j < orders.len() && orders[j].order_id != id
        invariant
            q == orders@,
            j <= q.len(),
            queue_find(q, id) == j + queue_find(q.skip(j as int), id),
        decreases orders.len() - j,
    {
        proof {
            assert(q.skip(j as int)[0] == q[j as int]);
            assert(q.skip(j as int).skip(1) =~= q.skip(j + 1));
        }
        j += 1;
    }
    proof {
        if j < q.len() {
            assert(q.skip(j as int)[0] == q[j as int]);
        }
    }
    j
}

/// The first order of the first level of a well-formed ladder has no more
/// lots than the level, and the level no more than the ladder.
proof fn lemma_sum_bounds_level(l: Seq<Seq<LimitOrder>>)
    requires
        l.len() > 0,
        l[0].len() > 0,
    ensures
        l[0][0].size <= queue_volume(l[0]),
        queue_volume(l[0]) <= ladder_volume(l),
{
    lemma_sum_bounds(sizes(l[0]), 0);
    lemma_sum_bounds(level_volumes(l), 0);
}

} // verus!
