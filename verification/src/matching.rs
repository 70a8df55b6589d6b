//! What matching an incoming order against a ladder means: the fills, the
//! events they cause and the ladder they leave.

use vstd::prelude::*;
use crate::ladder::{
    best_price, better, disjoint_ids, embeds, flatten, id_free, ids_below, indexed, ladder_ok,
    ladder_remove_at, lemma_embeds, lemma_ok_remove_level, lemma_ok_update_level,
    lemma_remove_at_ids, lemma_remove_keeps, locator_of, order_ok, unique_ids, valid_pos,
};
use crate::types::{Locator, Event, LimitOrder, OrderEvent, OrderStatus, RejectReason, Side, TradeEvent};

verus! {

/// The incoming order of a match, and the book it came to.
pub struct Taker {
    pub book_id: u64,
    pub order_id: u64,
    pub side: Side,
}

/// Result of a match: the ladder that is left, the events in the order in
/// which they were caused, and the lots that found no counterparty.
pub struct MatchOutcome {
    pub ladder: Seq<Seq<LimitOrder>>,
    pub events: Seq<Event>,
    pub left: u64,
}

/// The taker with the given ids and side.
pub open spec fn taker_of(book_id: u64, order_id: u64, side: Side) -> Taker {
    Taker { book_id, order_id, side }
}

/// Lots that change hands when a taker still hungry for `hungry` lots meets `maker`.
pub open spec fn fill_size(maker: LimitOrder, hungry: u64) -> u64 {
    if maker.size <= hungry {
        maker.size
    } else {
        hungry
    }
}

/// The trade between `t` and `maker` over `filled` lots, at the maker's
/// price. The buyer is the order on the bid side, whoever the taker is.
pub open spec fn trade_of(t: Taker, maker: LimitOrder, filled: u64) -> TradeEvent {
    TradeEvent {
        size: filled,
        price: maker.price,
        side: t.side,
        buyer_order_id: if t.side == Side::Bid {
            t.order_id
        } else {
            maker.order_id
        },
        seller_order_id: if t.side == Side::Bid {
            maker.order_id
        } else {
            t.order_id
        },
    }
}

/// The maker's event for a fill of `filled` lots.
pub open spec fn maker_event(maker: LimitOrder, filled: u64) -> OrderEvent {
    OrderEvent {
        status: if filled == maker.size {
            OrderStatus::Filled
        } else {
            OrderStatus::PartiallyFilled
        },
        order_id: maker.order_id,
        filled_size: filled,
        cum_filled_size: (maker.cum_filled_size + filled) as u64,
        remaining_size: (maker.size - filled) as u64,
        price: maker.price,
        side: maker.side,
        reject_reason: RejectReason::NoError,
    }
}

/// `maker` after `filled` of its lots were taken.
pub open spec fn reduced(maker: LimitOrder, filled: u64) -> LimitOrder {
    LimitOrder {
        size: (maker.size - filled) as u64,
        cum_filled_size: (maker.cum_filled_size + filled) as u64,
        ..maker
    }
}

/// The two events of one fill: the trade, then the maker's order event.
pub open spec fn fill_events(t: Taker, maker: LimitOrder, filled: u64) -> Seq<Event> {
    seq![
        Event::Trade { id: t.book_id, event: trade_of(t, maker, filled) },
        Event::Order { id: t.book_id, event: maker_event(maker, filled) },
    ]
}

/// Length of the first level of a ladder, 0 for the empty ladder.
pub open spec fn head_len(l: Seq<Seq<LimitOrder>>) -> nat {
    if l.len() > 0 {
        l[0].len()
    } else {
        0
    }
}

/// The ladder once the order at the head of its first level has left.
pub open spec fn without_head(l: Seq<Seq<LimitOrder>>) -> Seq<Seq<LimitOrder>>
    recommends
        l.len() > 0,
{
    if l[0].len() <= 1 {
        l.skip(1)
    } else {
        l.update(0, l[0].skip(1))
    }
}

/// Matching `hungry` lots of taker `t` against ladder `l`: the orders are
/// taken from the best level outward, within a level oldest first, each for
/// as much as it has and the taker still wants.
pub open spec fn run_match(t: Taker, l: Seq<Seq<LimitOrder>>, hungry: u64) -> MatchOutcome
    decreases l.len(), head_len(l),
{
    if hungry == 0 || l.len() == 0 {
        MatchOutcome { ladder: l, events: Seq::empty(), left: hungry }
    } else if l[0].len() == 0 {
        run_match(t, l.skip(1), hungry)
    } else {
        let maker = l[0][0];
        let filled = fill_size(maker, hungry);
        if filled == maker.size {
            let r = run_match(t, without_head(l), (hungry - filled) as u64);
            MatchOutcome {
                ladder: r.ladder,
                events: fill_events(t, maker, filled) + r.events,
                left: r.left,
            }
        } else {
            MatchOutcome {
                ladder: l.update(0, l[0].update(0, reduced(maker, filled))),
                events: fill_events(t, maker, filled),
                left: 0,
            }
        }
    }
}

/// The event that ends a market order of which `left` of `wanted` lots found
/// no counterparty: rejected for want of liquidity if nothing was filled,
/// filled if nothing is left, else partially filled and cancelled.
pub open spec fn taker_event(t: Taker, wanted: u64, left: u64) -> OrderEvent {
    OrderEvent {
        status: if left >= wanted {
            OrderStatus::Rejected
        } else if left == 0 {
            OrderStatus::Filled
        } else {
            OrderStatus::PartiallyFilledCancelled
        },
        order_id: t.order_id,
        filled_size: (wanted - left) as u64,
        cum_filled_size: (wanted - left) as u64,
        remaining_size: left,
        price: 0,
        side: t.side,
        reject_reason: if left >= wanted {
            RejectReason::NoLiquidity
        } else {
            RejectReason::NoError
        },
    }
}

/// The events of an execution: those of the match, then for a market order
/// the event that ends it.
pub open spec fn execution_events(t: Taker, l: Seq<Seq<LimitOrder>>, wanted: u64, is_market: bool) -> Seq<
    Event,
> {
    let r = run_match(t, l, wanted);
    if is_market {
        r.events.push(Event::Order { id: t.book_id, event: taker_event(t, wanted, r.left) })
    } else {
        r.events
    }
}

/// A match leaves no more lots unfilled than were wanted.
pub proof fn lemma_match_left(t: Taker, l: Seq<Seq<LimitOrder>>, hungry: u64)
    ensures
        run_match(t, l, hungry).left <= hungry,
    decreases l.len(), head_len(l),
{
    if hungry == 0 || l.len() == 0 {
    } else if l[0].len() == 0 {
        lemma_match_left(t, l.skip(1), hungry);
    } else {
        let maker = l[0][0];
        let filled = fill_size(maker, hungry);
        if filled == maker.size {
            lemma_match_left(t, without_head(l), (hungry - filled) as u64);
        }
    }
}

/// A match keeps the ladder well formed and the ids bounded, and leaves no
/// better best price than before: liquidity is only ever taken away.
pub proof fn lemma_match_ladder(t: Taker, l: Seq<Seq<LimitOrder>>, side: Side, hungry: u64, bound: u64)
    requires
        ladder_ok(l, side),
    ensures
        ladder_ok(run_match(t, l, hungry).ladder, side),
        run_match(t, l, hungry).ladder.len() > 0 ==> l.len() > 0 && !better(
            side,
            best_price(run_match(t, l, hungry).ladder),
            best_price(l),
        ),
        ids_below(l, bound) ==> ids_below(run_match(t, l, hungry).ladder, bound),
    decreases l.len(), head_len(l),
{
    if hungry == 0 || l.len() == 0 {
    } else {
        assert(l[0].len() > 0);
        let maker = l[0][0];
        assert(order_ok(maker, side));
        let filled = fill_size(maker, hungry);
        if filled == maker.size {
            let n = without_head(l);
            if l[0].len() <= 1 {
                assert(n =~= l.remove(0));
                lemma_ok_remove_level(l, side, 0);
                if n.len() > 0 {
                    assert(n[0] == l[1]);
                    assert(better(side, l[0][0].price, l[1][0].price));
                }
                if ids_below(l, bound) {
                    assert forall|a: int, b: int| 0 <= a < n.len() && 0 <= b < n[a].len() implies (
                    #[trigger] n[a][b]).order_id <= bound by {
                        assert(n[a][b] == l[a + 1][b]);
                    }
                }
            } else {
                let q = l[0].skip(1);
                assert forall|k: int| 0 <= k < q.len() implies order_ok(#[trigger] q[k], side)
                    && q[k].price == l[0][0].price by {
                    assert(q[k] == l[0][k + 1]);
                }
                lemma_ok_update_level(l, side, 0, q);
                assert(n[0][0].price == l[0][0].price) by {
                    assert(q[0].price == l[0][0].price);
                }
                if ids_below(l, bound) {
                    assert forall|a: int, b: int| 0 <= a < n.len() && 0 <= b < n[a].len() implies (
                    #[trigger] n[a][b]).order_id <= bound by {
                        if a == 0 {
                            assert(n[a][b] == l[0][b + 1]);
                        } else {
                            assert(n[a][b] == l[a][b]);
                        }
                    }
                }
            }
            lemma_match_ladder(t, n, side, (hungry - filled) as u64, bound);
        } else {
            let after = reduced(maker, filled);
            let q = l[0].update(0, after);
            let n = l.update(0, q);
            assert forall|k: int| 0 <= k < q.len() implies order_ok(#[trigger] q[k], side)
                && q[k].price == l[0][0].price by {
                if k > 0 {
                    assert(q[k] == l[0][k]);
                }
            }
            lemma_ok_update_level(l, side, 0, q);
            assert(n[0][0] == after);
            if ids_below(l, bound) {
                assert forall|a: int, b: int| 0 <= a < n.len() && 0 <= b < n[a].len() implies (
                #[trigger] n[a][b]).order_id <= bound by {
                    if a == 0 {
                        if b > 0 {
                            assert(n[a][b] == l[0][b]);
                        }
                    } else {
                        assert(n[a][b] == l[a][b]);
                    }
                }
            }
        }
    }
}

/// Lots that an event reports as filled by its step.
pub open spec fn fill_amount(e: Event) -> u64 {
    match e {
        Event::Trade { event, .. } => event.size,
        Event::Order { event, .. } => event.filled_size,
    }
}

/// Number of fills of a match.
pub open spec fn fill_count(t: Taker, l: Seq<Seq<LimitOrder>>, hungry: u64) -> nat {
    run_match(t, l, hungry).events.len() / 2
}

/// The ladder without the first order in walk order.
proof fn lemma_without_head(l: Seq<Seq<LimitOrder>>)
    requires
        l.len() > 0,
        l[0].len() > 0,
    ensures
        flatten(l).len() > 0,
        flatten(l)[0] == l[0][0],
        flatten(without_head(l)) == flatten(l).skip(1),
{
    if l[0].len() <= 1 {
        assert(flatten(l.skip(1)) =~= (l[0] + flatten(l.skip(1))).skip(1));
    } else {
        let n = l.update(0, l[0].skip(1));
        assert(n.skip(1) =~= l.skip(1));
        assert(l[0].skip(1) + flatten(l.skip(1)) =~= (l[0] + flatten(l.skip(1))).skip(1));
    }
}

/// Price-time priority, and what each fill reports.
///
/// The fills of a match take the orders of the ladder in walk order, one
/// fill per order and none left out: the `k`-th fill is with the `k`-th
/// order of the best level first, oldest first within a level. Each fill
/// is two events, the trade and then the maker's order event, that agree on
/// the maker's id, on its price and on the lots filled; the buyer of the
/// trade is the order on the bid side, whoever the taker is. Every fill but
/// the last takes all that its maker has. The lots filled and the lots left
/// add up to the lots wanted.
pub proof fn lemma_match_walk(t: Taker, l: Seq<Seq<LimitOrder>>, side: Side, hungry: u64)
    requires
        ladder_ok(l, side),
    ensures
        run_match(t, l, hungry).events.len() == 2 * fill_count(t, l, hungry),
        fill_count(t, l, hungry) <= flatten(l).len(),
        forall|k: int|
            0 <= k < fill_count(t, l, hungry) ==> {
                let maker = flatten(l)[k];
                let filled = fill_amount(#[trigger] run_match(t, l, hungry).events[2 * k]);
                &&& 0 < filled <= maker.size
                &&& k + 1 < fill_count(t, l, hungry) ==> filled == maker.size
                &&& run_match(t, l, hungry).events[2 * k] == Event::Trade {
                    id: t.book_id,
                    event: trade_of(t, maker, filled),
                }
                &&& run_match(t, l, hungry).events[2 * k + 1] == Event::Order {
                    id: t.book_id,
                    event: maker_event(maker, filled),
                }
            },
        total_filled(run_match(t, l, hungry).events) + run_match(t, l, hungry).left == hungry,
    decreases l.len(), head_len(l),
{
    let r = run_match(t, l, hungry);
    if hungry == 0 || l.len() == 0 {
    } else {
        assert(l[0].len() > 0);
        let maker = l[0][0];
        assert(order_ok(maker, side));
        let filled = fill_size(maker, hungry);
        let step = fill_events(t, maker, filled);
        lemma_without_head(l);
        if filled == maker.size {
            let n = without_head(l);
            assert(ladder_ok(n, side)) by {
                lemma_step_ok(l, side);
            }
            let h = (hungry - filled) as u64;
            let rn = run_match(t, n, h);
            lemma_match_walk(t, n, side, h);
            assert(r.events =~= step + rn.events);
            assert(fill_count(t, l, hungry) == 1 + fill_count(t, n, h));
            assert forall|k: int| 0 <= k < fill_count(t, l, hungry) implies {
                let mk = flatten(l)[k];
                let f = fill_amount(#[trigger] r.events[2 * k]);
                &&& 0 < f <= mk.size
                &&& k + 1 < fill_count(t, l, hungry) ==> f == mk.size
                &&& r.events[2 * k] == Event::Trade { id: t.book_id, event: trade_of(t, mk, f) }
                &&& r.events[2 * k + 1] == Event::Order { id: t.book_id, event: maker_event(mk, f) }
            } by {
                if k > 0 {
                    assert(r.events[2 * k] == rn.events[2 * (k - 1)]);
                    assert(r.events[2 * k + 1] == rn.events[2 * (k - 1) + 1]);
                    assert(flatten(l)[k] == flatten(n)[k - 1]);
                }
            }
            assert(r.events.skip(2) =~= rn.events);
            assert(r.events[0] == step[0]);
            assert(total_filled(r.events) == filled + total_filled(r.events.skip(2)));
        } else {
            assert(r.events =~= step);
            assert(r.events.skip(2) =~= Seq::<Event>::empty());
            assert(r.events[0] == step[0]);
            assert(total_filled(r.events) == filled + total_filled(r.events.skip(2)));
        }
    }
}

/// Lots filled by the trades among `events`, where trades and order events
/// alternate.
pub open spec fn total_filled(events: Seq<Event>) -> nat
    decreases events.len(),
{
    if events.len() < 2 {
        0
    } else {
        fill_amount(events[0]) as nat + total_filled(events.skip(2))
    }
}

/// A well-formed ladder stays so when its first order leaves.
proof fn lemma_step_ok(l: Seq<Seq<LimitOrder>>, side: Side)
    requires
        ladder_ok(l, side),
        l.len() > 0,
    ensures
        ladder_ok(without_head(l), side),
{
    if l[0].len() <= 1 {
        assert(l.skip(1) =~= l.remove(0));
        lemma_ok_remove_level(l, side, 0);
    } else {
        let q = l[0].skip(1);
        assert forall|k: int| 0 <= k < q.len() implies order_ok(#[trigger] q[k], side) && q[k].price
            == l[0][0].price by {
            assert(q[k] == l[0][k + 1]);
        }
        lemma_ok_update_level(l, side, 0, q);
    }
}

/// A match brings no id onto the ladder: ids stay unique, stay apart from
/// those of another ladder, and an id that did not rest does not rest after.
pub proof fn lemma_match_ids(
    t: Taker,
    l: Seq<Seq<LimitOrder>>,
    side: Side,
    hungry: u64,
    m: Seq<Seq<LimitOrder>>,
    index: Map<u64, Locator>,
)
    requires
        ladder_ok(l, side),
    ensures
        indexed(l, index) ==> indexed(run_match(t, l, hungry).ladder, index),
        unique_ids(l) ==> unique_ids(run_match(t, l, hungry).ladder),
        disjoint_ids(l, m) ==> disjoint_ids(run_match(t, l, hungry).ladder, m),
        disjoint_ids(m, l) ==> disjoint_ids(m, run_match(t, l, hungry).ladder),
        forall|id: u64| id_free(l, id) ==> #[trigger] id_free(run_match(t, l, hungry).ladder, id),
    decreases l.len(), head_len(l),
{
    if hungry == 0 || l.len() == 0 {
    } else {
        assert(l[0].len() > 0);
        let maker = l[0][0];
        let filled = fill_size(maker, hungry);
        if filled == maker.size {
            let n = without_head(l);
            assert(l[0].remove(0) =~= l[0].skip(1));
            assert(l.remove(0) =~= l.skip(1));
            assert(n == ladder_remove_at(l, 0, 0));
            lemma_remove_at_ids(l, 0, 0, m, index);
            lemma_step_ok(l, side);
            lemma_match_ids(t, n, side, (hungry - filled) as u64, m, index);
        } else {
            let n = l.update(0, l[0].update(0, reduced(maker, filled)));
            let f = |a: int, b: int| (a, b);
            assert forall|a: int, b: int| valid_pos(n, a, b) implies valid_pos(
                l,
                f(a, b).0,
                f(a, b).1,
            ) && (#[trigger] n[a][b]).order_id == l[f(a, b).0][f(a, b).1].order_id && locator_of(
                n[a][b],
            ) == locator_of(l[f(a, b).0][f(a, b).1]) by {
                if a == 0 {
                    if b > 0 {
                        assert(n[a][b] == l[0][b]);
                    }
                } else {
                    assert(n[a] == l[a]);
                }
            }
            assert(embeds(n, l, f));
            lemma_embeds(n, l, m, f, index);
        }
    }
}

/// What a match leaves of the makers it touched, on a ladder of unique ids:
/// a maker that was filled rests no more; one that was filled in part is
/// the first order of the ladder, with what was filled taken off.
pub proof fn lemma_match_settles(t: Taker, l: Seq<Seq<LimitOrder>>, side: Side, hungry: u64)
    requires
        ladder_ok(l, side),
        unique_ids(l),
    ensures
        forall|k: int|
            0 <= k < fill_count(t, l, hungry) && k < flatten(l).len() ==> {
                let maker = flatten(l)[k];
                let filled = fill_amount(#[trigger] run_match(t, l, hungry).events[2 * k]);
                &&& filled == maker.size ==> id_free(run_match(t, l, hungry).ladder, maker.order_id)
                &&& filled != maker.size ==> valid_pos(run_match(t, l, hungry).ladder, 0, 0)
                    && run_match(t, l, hungry).ladder[0][0] == reduced(maker, filled)
            },
    decreases l.len(), head_len(l),
{
    let r = run_match(t, l, hungry);
    if hungry == 0 || l.len() == 0 {
    } else {
        assert(l[0].len() > 0);
        let maker = l[0][0];
        let filled = fill_size(maker, hungry);
        let step = fill_events(t, maker, filled);
        lemma_without_head(l);
        if filled == maker.size {
            let n = without_head(l);
            let h = (hungry - filled) as u64;
            let rn = run_match(t, n, h);
            assert(l[0].remove(0) =~= l[0].skip(1));
            assert(l.remove(0) =~= l.skip(1));
            assert(n == ladder_remove_at(l, 0, 0));
            lemma_remove_at_ids(l, 0, 0, l, Map::empty());
            lemma_step_ok(l, side);
            lemma_match_ids(t, n, side, h, l, Map::empty());
            lemma_match_settles(t, n, side, h);
            assert(r.events =~= step + rn.events);
            assert forall|k: int| 0 <= k < fill_count(t, l, hungry) && k < flatten(l).len() implies {
                let mk = flatten(l)[k];
                let f = fill_amount(#[trigger] r.events[2 * k]);
                &&& f == mk.size ==> id_free(r.ladder, mk.order_id)
                &&& f != mk.size ==> valid_pos(r.ladder, 0, 0) && r.ladder[0][0] == reduced(mk, f)
            } by {
                if k > 0 {
                    assert(r.events[2 * k] == rn.events[2 * (k - 1)]);
                    assert(flatten(l)[k] == flatten(n)[k - 1]);
                } else {
                    assert(id_free(n, maker.order_id));
                }
            }
        } else {
            assert(r.events =~= step);
        }
    }
}

/// Whether `e` reports that the order `id` was filled.
pub open spec fn reports_filled(e: Event, id: u64) -> bool {
    match e {
        Event::Order { event, .. } => event.status == OrderStatus::Filled && event.order_id == id,
        Event::Trade { .. } => false,
    }
}

/// A maker that a match reports as filled rests no more: on a ladder of
/// unique ids no order has its id after the match, and where the ids of
/// another ladder are apart from those of this one, none has it there.
pub proof fn lemma_filled_gone(
    t: Taker,
    l: Seq<Seq<LimitOrder>>,
    side: Side,
    hungry: u64,
    m: Seq<Seq<LimitOrder>>,
)
    requires
        ladder_ok(l, side),
        unique_ids(l),
        disjoint_ids(m, l),
    ensures
        forall|p: int, id: u64|
            0 <= p < run_match(t, l, hungry).events.len() && #[trigger] reports_filled(
                run_match(t, l, hungry).events[p],
                id,
            ) ==> id_free(run_match(t, l, hungry).ladder, id) && id_free(m, id),
    decreases l.len(), head_len(l),
{
    let r = run_match(t, l, hungry);
    if hungry == 0 || l.len() == 0 {
    } else {
        assert(l[0].len() > 0);
        let maker = l[0][0];
        let filled = fill_size(maker, hungry);
        let step = fill_events(t, maker, filled);
        if filled == maker.size {
            let n = without_head(l);
            let h = (hungry - filled) as u64;
            let rn = run_match(t, n, h);
            assert(l[0].remove(0) =~= l[0].skip(1));
            assert(l.remove(0) =~= l.skip(1));
            assert(n == ladder_remove_at(l, 0, 0));
            lemma_remove_at_ids(l, 0, 0, m, Map::empty());
            lemma_step_ok(l, side);
            lemma_match_ids(t, n, side, h, m, Map::empty());
            lemma_filled_gone(t, n, side, h, m);
            assert(r.events =~= step + rn.events);
            assert forall|p: int, id: u64|
                0 <= p < r.events.len() && #[trigger] reports_filled(r.events[p], id) implies id_free(
                r.ladder,
                id,
            ) && id_free(m, id) by {
                if p >= 2 {
                    assert(r.events[p] == rn.events[p - 2]);
                    assert(reports_filled(rn.events[p - 2], id));
                } else if p == 1 {
                    assert(r.events[1] == step[1]);
                    assert(id == maker.order_id);
                    assert(id_free(n, id));
                    assert(valid_pos(l, 0, 0));
                    assert(l[0][0].order_id == id);
                } else {
                    assert(r.events[0] == step[0]);
                }
            }
        } else {
            assert(r.events =~= step);
            assert forall|p: int, id: u64|
                0 <= p < r.events.len() && #[trigger] reports_filled(r.events[p], id) implies false by {
                if p == 0 {
                    assert(r.events[0] == step[0]);
                } else {
                    assert(r.events[1] == step[1]);
                }
            }
        }
    }
}

/// None of the first `upto` events reports that the order `id` was filled.
pub open spec fn none_filled(events: Seq<Event>, upto: int, id: u64) -> bool {
    forall|q: int| 0 <= q < upto && q < events.len() ==> !#[trigger] reports_filled(events[q], id)
}

/// An id that rests on a ladder rests on it after a match, unless the
/// match reports that its order was filled.
pub proof fn lemma_match_keeps(t: Taker, l: Seq<Seq<LimitOrder>>, side: Side, hungry: u64)
    requires
        ladder_ok(l, side),
    ensures
        forall|id: u64|
            !id_free(l, id) && none_filled(
                run_match(t, l, hungry).events,
                run_match(t, l, hungry).events.len() as int,
                id,
            ) ==> !#[trigger] id_free(run_match(t, l, hungry).ladder, id),
    decreases l.len(), head_len(l),
{
    let r = run_match(t, l, hungry);
    if hungry == 0 || l.len() == 0 {
    } else {
        assert(l[0].len() > 0);
        let maker = l[0][0];
        let filled = fill_size(maker, hungry);
        let step = fill_events(t, maker, filled);
        if filled == maker.size {
            let n = without_head(l);
            let h = (hungry - filled) as u64;
            let rn = run_match(t, n, h);
            assert(l[0].remove(0) =~= l[0].skip(1));
            assert(l.remove(0) =~= l.skip(1));
            assert(n == ladder_remove_at(l, 0, 0));
            lemma_remove_keeps(l, 0, 0);
            lemma_step_ok(l, side);
            lemma_match_keeps(t, n, side, h);
            assert(r.events =~= step + rn.events);
            assert forall|id: u64|
                !id_free(l, id) && none_filled(r.events, r.events.len() as int, id) implies !#[trigger] id_free(
                r.ladder,
                id,
            ) by {
                assert(r.events[1] == step[1]);
                assert(!reports_filled(r.events[1], id));
                assert(id != maker.order_id);
                assert(!id_free(n, id));
                assert forall|q: int| 0 <= q < rn.events.len() implies !#[trigger] reports_filled(
                    rn.events[q],
                    id,
                ) by {
                    assert(rn.events[q] == r.events[q + 2]);
                    assert(!reports_filled(r.events[q + 2], id));
                }
            }
        } else {
            let n = l.update(0, l[0].update(0, reduced(maker, filled)));
            assert forall|id: u64| !id_free(l, id) implies !#[trigger] id_free(n, id) by {
                let (a, b) = choose|a: int, b: int|
                    valid_pos(l, a, b) && (#[trigger] l[a][b]).order_id == id;
                assert(valid_pos(n, a, b) && n[a][b].order_id == l[a][b].order_id);
            }
        }
    }
}

} // verus!
