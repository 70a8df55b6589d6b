//! The mathematical model of one side of a book.
//!
//! A ladder is a sequence of price levels in walk order (best price first);
//! each level is the queue of the orders resting at one price, oldest first.

use vstd::prelude::*;
use crate::types::{Level, LimitOrder, Locator, Side};

verus! {

/// Price `p` is walked before price `q` on `side`: higher for bids, lower for asks.
pub open spec fn better(side: Side, p: u64, q: u64) -> bool {
    match side {
        Side::Bid => p > q,
        Side::Ask => p < q,
    }
}

/// Sum of a sequence of naturals.
pub open spec fn sum(s: Seq<nat>) -> nat
    decreases s.len(),
{
    if s.len() == 0 {
        0
    } else {
        s[0] + sum(s.skip(1))
    }
}

/// The remaining sizes of the orders of a queue.
pub open spec fn sizes(q: Seq<LimitOrder>) -> Seq<nat> {
    Seq::new(q.len(), |j: int| q[j].size as nat)
}

/// Volume of a queue: the sum of the remaining sizes of its orders.
pub open spec fn queue_volume(q: Seq<LimitOrder>) -> nat {
    sum(sizes(q))
}

/// The volumes of the levels of a ladder.
pub open spec fn level_volumes(l: Seq<Seq<LimitOrder>>) -> Seq<nat> {
    Seq::new(l.len(), |i: int| queue_volume(l[i]))
}

/// The numbers of orders of the levels of a ladder.
pub open spec fn level_counts(l: Seq<Seq<LimitOrder>>) -> Seq<nat> {
    Seq::new(l.len(), |i: int| l[i].len())
}

/// Volume of a ladder: the sum of the volumes of its levels.
pub open spec fn ladder_volume(l: Seq<Seq<LimitOrder>>) -> nat {
    sum(level_volumes(l))
}

/// Number of orders that rest on a ladder.
pub open spec fn ladder_count(l: Seq<Seq<LimitOrder>>) -> nat {
    sum(level_counts(l))
}

/// All orders of a ladder, level after level, as one queue in walk order.
pub open spec fn flatten(l: Seq<Seq<LimitOrder>>) -> Seq<LimitOrder>
    decreases l.len(),
{
    if l.len() == 0 {
        Seq::empty()
    } else {
        l[0] + flatten(l.skip(1))
    }
}

/// What holds of every resting order of `side`.
pub open spec fn order_ok(o: LimitOrder, side: Side) -> bool {
    &&& o.side == side
    &&& o.price > 0
    &&& o.size > 0
    &&& o.size + o.cum_filled_size <= u64::MAX
}

/// A well-formed ladder: no level is empty, the orders of a level share its
/// price, and prices strictly improve towards the front.
pub open spec fn ladder_ok(l: Seq<Seq<LimitOrder>>, side: Side) -> bool {
    &&& forall|i: int| 0 <= i < l.len() ==> (#[trigger] l[i]).len() > 0
    &&& forall|i: int, j: int|
        0 <= i < l.len() && 0 <= j < l[i].len() ==> order_ok(#[trigger] l[i][j], side)
            && l[i][j].price == l[i][0].price
    &&& forall|i: int, k: int|
        0 <= i < k < l.len() ==> better(side, (#[trigger] l[i])[0].price, (#[trigger] l[k])[0].price)
}

/// Number of leading levels whose price is better than `price`.
pub open spec fn level_rank(l: Seq<Seq<LimitOrder>>, side: Side, price: u64) -> nat
    decreases l.len(),
{
    if l.len() == 0 || l[0].len() == 0 || !better(side, l[0][0].price, price) {
        0
    } else {
        1 + level_rank(l.skip(1), side, price)
    }
}

/// The ladder after `o` came to rest: at the tail of the level of its price,
/// which is created in its place if the price is new.
pub open spec fn ladder_insert(l: Seq<Seq<LimitOrder>>, o: LimitOrder) -> Seq<Seq<LimitOrder>> {
    let i = level_rank(l, o.side, o.price) as int;
    if i < l.len() && l[i].len() > 0 && l[i][0].price == o.price {
        l.update(i, l[i].push(o))
    } else {
        l.insert(i, seq![o])
    }
}

/// Position in `q` of the first order with id `id`, or the length of `q`.
pub open spec fn queue_find(q: Seq<LimitOrder>, id: u64) -> nat
    decreases q.len(),
{
    if q.len() == 0 || q[0].order_id == id {
        0
    } else {
        1 + queue_find(q.skip(1), id)
    }
}

/// Whether an order with id `id` waits in `q`.
pub open spec fn queue_has(q: Seq<LimitOrder>, id: u64) -> bool {
    queue_find(q, id) < q.len()
}

/// Index of the first level that holds an order with id `id`, or the number of levels.
pub open spec fn ladder_find(l: Seq<Seq<LimitOrder>>, id: u64) -> nat
    decreases l.len(),
{
    if l.len() == 0 || queue_has(l[0], id) {
        0
    } else {
        1 + ladder_find(l.skip(1), id)
    }
}

/// Whether an order with id `id` rests on the ladder.
pub open spec fn ladder_has(l: Seq<Seq<LimitOrder>>, id: u64) -> bool {
    ladder_find(l, id) < l.len()
}

/// The first order with id `id` on a ladder that holds one.
pub open spec fn ladder_get(l: Seq<Seq<LimitOrder>>, id: u64) -> LimitOrder
    recommends
        ladder_has(l, id),
{
    let i = ladder_find(l, id) as int;
    l[i][queue_find(l[i], id) as int]
}

/// The ladder without the order at position `j` of level `i`; a level that
/// this empties leaves the ladder.
pub open spec fn ladder_remove_at(l: Seq<Seq<LimitOrder>>, i: int, j: int) -> Seq<Seq<LimitOrder>>
    recommends
        0 <= i < l.len(),
        0 <= j < l[i].len(),
{
    if l[i].len() == 1 {
        l.remove(i)
    } else {
        l.update(i, l[i].remove(j))
    }
}

/// The ladder without the first order with id `id`.
pub open spec fn ladder_cancel(l: Seq<Seq<LimitOrder>>, id: u64) -> Seq<Seq<LimitOrder>>
    recommends
        ladder_has(l, id),
{
    let i = ladder_find(l, id) as int;
    ladder_remove_at(l, i, queue_find(l[i], id) as int)
}

/// `o` with `new_size` as its total size: what was filled stays filled.
pub open spec fn resized(o: LimitOrder, new_size: u64) -> LimitOrder {
    LimitOrder { size: (new_size - o.cum_filled_size) as u64, ..o }
}

/// The ladder after the order at position `j` of level `i` took `new_size`
/// as its total size. An order that does not grow keeps its place in the
/// queue; one that grows goes to the tail of its level.
pub open spec fn ladder_amend_at(l: Seq<Seq<LimitOrder>>, i: int, j: int, new_size: u64) -> Seq<
    Seq<LimitOrder>,
>
    recommends
        0 <= i < l.len(),
        0 <= j < l[i].len(),
        new_size > l[i][j].cum_filled_size,
{
    let o = l[i][j];
    if new_size <= o.size + o.cum_filled_size {
        l.update(i, l[i].update(j, resized(o, new_size)))
    } else {
        l.update(i, l[i].remove(j).push(resized(o, new_size)))
    }
}

/// The ladder after the first order with id `id` took `new_size` as its
/// total size.
pub open spec fn ladder_amend(l: Seq<Seq<LimitOrder>>, id: u64, new_size: u64) -> Seq<
    Seq<LimitOrder>,
>
    recommends
        ladder_has(l, id),
        new_size > ladder_get(l, id).cum_filled_size,
{
    let i = ladder_find(l, id) as int;
    ladder_amend_at(l, i, queue_find(l[i], id) as int, new_size)
}

/// Snapshot of the level whose queue is `q`.
pub open spec fn level_of(q: Seq<LimitOrder>) -> Level
    recommends
        q.len() > 0,
{
    Level { price: q[0].price, volume: queue_volume(q) as u64, orders: q.len() as u64 }
}

/// Snapshot of the best level of a ladder, if it has one.
pub open spec fn ladder_best(l: Seq<Seq<LimitOrder>>) -> Option<Level> {
    if l.len() == 0 {
        None
    } else {
        Some(level_of(l[0]))
    }
}

/// Every order on the ladder has an id of at most `bound`.
pub open spec fn ids_below(l: Seq<Seq<LimitOrder>>, bound: u64) -> bool {
    forall|i: int, j: int|
        0 <= i < l.len() && 0 <= j < l[i].len() ==> (#[trigger] l[i][j]).order_id <= bound
}

/// `(i, j)` is the position of an order on the ladder: level `i`, place `j`.
pub open spec fn valid_pos(l: Seq<Seq<LimitOrder>>, i: int, j: int) -> bool {
    0 <= i < l.len() && 0 <= j < l[i].len()
}

/// No order on the ladder has the id `id`.
pub open spec fn id_free(l: Seq<Seq<LimitOrder>>, id: u64) -> bool {
    forall|i: int, j: int| valid_pos(l, i, j) ==> (#[trigger] l[i][j]).order_id != id
}

/// No two orders on the ladder share an id.
pub open spec fn unique_ids(l: Seq<Seq<LimitOrder>>) -> bool {
    forall|i: int, j: int, a: int, b: int|
        #![trigger l[i][j], l[a][b]]
        valid_pos(l, i, j) && valid_pos(l, a, b) && (i != a || j != b) ==> l[i][j].order_id
            != l[a][b].order_id
}

/// No order on `l` shares its id with an order on `m`.
pub open spec fn disjoint_ids(l: Seq<Seq<LimitOrder>>, m: Seq<Seq<LimitOrder>>) -> bool {
    forall|i: int, j: int, a: int, b: int|
        #![trigger l[i][j], m[a][b]]
        valid_pos(l, i, j) && valid_pos(m, a, b) ==> l[i][j].order_id != m[a][b].order_id
}

/// The locator of an order.
pub open spec fn locator_of(o: LimitOrder) -> Locator {
    Locator { side: o.side, price: o.price }
}

/// `index` knows every order of the ladder by its id, with its locator.
pub open spec fn indexed(l: Seq<Seq<LimitOrder>>, index: Map<u64, Locator>) -> bool {
    forall|i: int, j: int|
        valid_pos(l, i, j) ==> index.contains_key((#[trigger] l[i][j]).order_id) && index[l[i][j].order_id]
            == locator_of(l[i][j])
}

/// Every order of `n` has the id, side and price of an order of `l`, namely
/// of the one at the position that `f` gives, and no two orders of `n`
/// those of the same.
pub open spec fn embeds(
    n: Seq<Seq<LimitOrder>>,
    l: Seq<Seq<LimitOrder>>,
    f: spec_fn(int, int) -> (int, int),
) -> bool {
    &&& forall|a: int, b: int|
        valid_pos(n, a, b) ==> valid_pos(l, f(a, b).0, f(a, b).1) && (#[trigger] n[a][b]).order_id
            == l[f(a, b).0][f(a, b).1].order_id && locator_of(n[a][b]) == locator_of(
            l[f(a, b).0][f(a, b).1],
        )
    &&& forall|a: int, b: int, c: int, d: int|
        #![trigger n[a][b], n[c][d]]
        valid_pos(n, a, b) && valid_pos(n, c, d) && (a != c || b != d) ==> f(a, b) != f(c, d)
}

/// Price of the best level of a non-empty ladder.
pub open spec fn best_price(l: Seq<Seq<LimitOrder>>) -> u64
    recommends
        l.len() > 0,
{
    l[0][0].price
}

/// A taker of `side` that names `price` can trade against a resting order
/// priced `resting` on the other side.
pub open spec fn marketable(side: Side, price: u64, resting: u64) -> bool {
    match side {
        Side::Bid => resting <= price,
        Side::Ask => resting >= price,
    }
}

/// Inserting a number adds it to the sum.
pub proof fn lemma_sum_insert(s: Seq<nat>, k: int, x: nat)
    requires
        0 <= k <= s.len(),
    ensures
        sum(s.insert(k, x)) == sum(s) + x,
    decreases s.len(),
{
    let t = s.insert(k, x);
    if k == 0 {
        assert(t.skip(1) =~= s);
    } else {
        assert(t.skip(1) =~= s.skip(1).insert(k - 1, x));
        lemma_sum_insert(s.skip(1), k - 1, x);
    }
}

/// Removing a number takes it from the sum.
pub proof fn lemma_sum_remove(s: Seq<nat>, k: int)
    requires
        0 <= k < s.len(),
    ensures
        sum(s.remove(k)) + s[k] == sum(s),
    decreases s.len(),
{
    let t = s.remove(k);
    if k == 0 {
        assert(t =~= s.skip(1));
    } else {
        assert(t.skip(1) =~= s.skip(1).remove(k - 1));
        lemma_sum_remove(s.skip(1), k - 1);
    }
}

/// Replacing a number changes the sum by the difference.
pub proof fn lemma_sum_update(s: Seq<nat>, k: int, x: nat)
    requires
        0 <= k < s.len(),
    ensures
        sum(s.update(k, x)) + s[k] == sum(s) + x,
{
    lemma_sum_remove(s, k);
    lemma_sum_insert(s.remove(k), k, x);
    assert(s.update(k, x) =~= s.remove(k).insert(k, x));
}

/// No member of a sequence exceeds its sum.
pub proof fn lemma_sum_bounds(s: Seq<nat>, k: int)
    requires
        0 <= k < s.len(),
    ensures
        s[k] <= sum(s),
{
    lemma_sum_remove(s, k);
}

/// A sum of positive numbers is at least their count.
pub proof fn lemma_sum_at_least_len(s: Seq<nat>)
    requires
        forall|k: int| 0 <= k < s.len() ==> s[k] >= 1,
    ensures
        sum(s) >= s.len(),
    decreases s.len(),
{
    if s.len() > 0 {
        lemma_sum_at_least_len(s.skip(1));
    }
}

/// Volume of a queue after an order joined its tail.
pub proof fn lemma_queue_push(q: Seq<LimitOrder>, o: LimitOrder)
    ensures
        queue_volume(q.push(o)) == queue_volume(q) + o.size,
{
    assert(sizes(q.push(o)) =~= sizes(q).insert(q.len() as int, o.size as nat));
    lemma_sum_insert(sizes(q), q.len() as int, o.size as nat);
}

/// Volume of a queue after the order at `j` left it.
pub proof fn lemma_queue_remove(q: Seq<LimitOrder>, j: int)
    requires
        0 <= j < q.len(),
    ensures
        queue_volume(q.remove(j)) + q[j].size == queue_volume(q),
{
    assert(sizes(q.remove(j)) =~= sizes(q).remove(j));
    lemma_sum_remove(sizes(q), j);
}

/// Volume of a queue after the order at `j` was replaced.
pub proof fn lemma_queue_update(q: Seq<LimitOrder>, j: int, o: LimitOrder)
    requires
        0 <= j < q.len(),
    ensures
        queue_volume(q.update(j, o)) + q[j].size == queue_volume(q) + o.size,
{
    assert(sizes(q.update(j, o)) =~= sizes(q).update(j, o.size as nat));
    lemma_sum_update(sizes(q), j, o.size as nat);
}

/// Volume and count of a ladder after a level was inserted at `i`.
pub proof fn lemma_ladder_insert_level(l: Seq<Seq<LimitOrder>>, i: int, q: Seq<LimitOrder>)
    requires
        0 <= i <= l.len(),
    ensures
        ladder_volume(l.insert(i, q)) == ladder_volume(l) + queue_volume(q),
        ladder_count(l.insert(i, q)) == ladder_count(l) + q.len(),
{
    assert(level_volumes(l.insert(i, q)) =~= level_volumes(l).insert(i, queue_volume(q)));
    assert(level_counts(l.insert(i, q)) =~= level_counts(l).insert(i, q.len()));
    lemma_sum_insert(level_volumes(l), i, queue_volume(q));
    lemma_sum_insert(level_counts(l), i, q.len());
}

/// Volume and count of a ladder after the level at `i` left it.
pub proof fn lemma_ladder_remove_level(l: Seq<Seq<LimitOrder>>, i: int)
    requires
        0 <= i < l.len(),
    ensures
        ladder_volume(l.remove(i)) + queue_volume(l[i]) == ladder_volume(l),
        ladder_count(l.remove(i)) + l[i].len() == ladder_count(l),
{
    assert(level_volumes(l.remove(i)) =~= level_volumes(l).remove(i));
    assert(level_counts(l.remove(i)) =~= level_counts(l).remove(i));
    lemma_sum_remove(level_volumes(l), i);
    lemma_sum_remove(level_counts(l), i);
}

/// Volume and count of a ladder after the level at `i` was replaced.
pub proof fn lemma_ladder_update_level(l: Seq<Seq<LimitOrder>>, i: int, q: Seq<LimitOrder>)
    requires
        0 <= i < l.len(),
    ensures
        ladder_volume(l.update(i, q)) + queue_volume(l[i]) == ladder_volume(l) + queue_volume(q),
        ladder_count(l.update(i, q)) + l[i].len() == ladder_count(l) + q.len(),
{
    assert(level_volumes(l.update(i, q)) =~= level_volumes(l).update(i, queue_volume(q)));
    assert(level_counts(l.update(i, q)) =~= level_counts(l).update(i, q.len()));
    lemma_sum_update(level_volumes(l), i, queue_volume(q));
    lemma_sum_update(level_counts(l), i, q.len());
}

/// On a well-formed ladder every order has a lot to fill, so there are at
/// least as many lots as orders; a level's volume is part of the ladder's.
pub proof fn lemma_count_le_volume(l: Seq<Seq<LimitOrder>>, side: Side)
    requires
        ladder_ok(l, side),
    ensures
        ladder_count(l) <= ladder_volume(l),
        forall|i: int| 0 <= i < l.len() ==> queue_volume(#[trigger] l[i]) <= ladder_volume(l),
        forall|i: int, j: int|
            0 <= i < l.len() && 0 <= j < l[i].len() ==> (#[trigger] l[i][j]).size <= queue_volume(
                l[i],
            ),
    decreases l.len(),
{
    assert forall|i: int| 0 <= i < l.len() implies queue_volume(#[trigger] l[i])
        <= ladder_volume(l) by {
        lemma_sum_bounds(level_volumes(l), i);
    }
    assert forall|i: int, j: int| 0 <= i < l.len() && 0 <= j < l[i].len() implies (
    #[trigger] l[i][j]).size <= queue_volume(l[i]) by {
        lemma_sum_bounds(sizes(l[i]), j);
    }
    if l.len() > 0 {
        let r = l.skip(1);
        assert(r =~= l.remove(0));
        lemma_ok_remove_level(l, side, 0);
        lemma_count_le_volume(r, side);
        assert(level_volumes(l).skip(1) =~= level_volumes(r));
        assert(level_counts(l).skip(1) =~= level_counts(r));
        assert forall|j: int| 0 <= j < sizes(l[0]).len() implies sizes(l[0])[j] >= 1 by {
            assert(order_ok(l[0][j], side));
        }
        lemma_sum_at_least_len(sizes(l[0]));
    }
}

/// A well-formed ladder stays so when a level leaves it.
pub proof fn lemma_ok_remove_level(l: Seq<Seq<LimitOrder>>, side: Side, i: int)
    requires
        ladder_ok(l, side),
        0 <= i < l.len(),
    ensures
        ladder_ok(l.remove(i), side),
{
    let r = l.remove(i);
    assert forall|a: int| 0 <= a < r.len() implies (#[trigger] r[a]).len() > 0 by {
        assert(r[a] == if a < i { l[a] } else { l[a + 1] });
    }
    assert forall|a: int, j: int| 0 <= a < r.len() && 0 <= j < r[a].len() implies order_ok(
        #[trigger] r[a][j],
        side,
    ) && r[a][j].price == r[a][0].price by {
        let b = if a < i { a } else { a + 1 };
        assert(r[a] == l[b]);
        assert(r[a][j] == l[b][j]);
    }
    assert forall|a: int, k: int| 0 <= a < k < r.len() implies better(
        side,
        (#[trigger] r[a])[0].price,
        (#[trigger] r[k])[0].price,
    ) by {
        let b = if a < i { a } else { a + 1 };
        let c = if k < i { k } else { k + 1 };
        assert(r[a] == l[b]);
        assert(r[k] == l[c]);
    }
}

/// A well-formed ladder stays so when a level is replaced by a non-empty
/// queue of valid orders at the same price.
pub proof fn lemma_ok_update_level(l: Seq<Seq<LimitOrder>>, side: Side, i: int, q: Seq<LimitOrder>)
    requires
        ladder_ok(l, side),
        0 <= i < l.len(),
        q.len() > 0,
        forall|j: int| 0 <= j < q.len() ==> order_ok(#[trigger] q[j], side) && q[j].price == l[i][0].price,
    ensures
        ladder_ok(l.update(i, q), side),
{
    let r = l.update(i, q);
    assert forall|a: int| 0 <= a < r.len() implies (#[trigger] r[a]).len() > 0 by {
        assert(a != i ==> r[a] == l[a]);
    }
    assert forall|a: int, j: int| 0 <= a < r.len() && 0 <= j < r[a].len() implies order_ok(
        #[trigger] r[a][j],
        side,
    ) && r[a][j].price == r[a][0].price by {
        if a != i {
            assert(r[a] == l[a]);
            assert(r[a][j] == l[a][j]);
        } else {
            assert(r[a][j] == q[j]);
            assert(r[a][0] == q[0]);
        }
    }
    assert forall|a: int, k: int| 0 <= a < k < r.len() implies better(
        side,
        (#[trigger] r[a])[0].price,
        (#[trigger] r[k])[0].price,
    ) by {
        assert(better(side, l[a][0].price, l[k][0].price));
        assert(r[a][0].price == l[a][0].price) by {
            if a == i {
                assert(r[a][0] == q[0]);
            }
        }
        assert(r[k][0].price == l[k][0].price) by {
            if k == i {
                assert(r[k][0] == q[0]);
            }
        }
    }
}

/// A well-formed ladder stays so when a new level of one valid order is
/// inserted between the levels of better and of worse price.
pub proof fn lemma_ok_insert_level(l: Seq<Seq<LimitOrder>>, side: Side, i: int, o: LimitOrder)
    requires
        ladder_ok(l, side),
        0 <= i <= l.len(),
        order_ok(o, side),
        forall|k: int| 0 <= k < i ==> better(side, (#[trigger] l[k])[0].price, o.price),
        i < l.len() ==> better(side, o.price, l[i][0].price),
    ensures
        ladder_ok(l.insert(i, seq![o]), side),
{
    let r = l.insert(i, seq![o]);
    assert forall|a: int| 0 <= a < r.len() implies (#[trigger] r[a]).len() > 0 by {
        assert(r[a] == if a < i { l[a] } else if a == i { seq![o] } else { l[a - 1] });
    }
    assert forall|a: int, j: int| 0 <= a < r.len() && 0 <= j < r[a].len() implies order_ok(
        #[trigger] r[a][j],
        side,
    ) && r[a][j].price == r[a][0].price by {
        if a < i {
            assert(r[a] == l[a]);
            assert(r[a][j] == l[a][j]);
        } else if a > i {
            assert(r[a] == l[a - 1]);
            assert(r[a][j] == l[a - 1][j]);
        }
    }
    assert forall|a: int, k: int| 0 <= a < k < r.len() implies better(
        side,
        (#[trigger] r[a])[0].price,
        (#[trigger] r[k])[0].price,
    ) by {
        let b = if a < i { a } else { a - 1 };
        let c = if k < i { k } else { k - 1 };
        if a != i {
            assert(r[a] == l[b]);
        }
        if k != i {
            assert(r[k] == l[c]);
        }
        if a != i && k != i {
            assert(better(side, l[b][0].price, l[c][0].price));
        } else if a == i {
            if c > i {
                assert(better(side, l[i][0].price, l[c][0].price));
            }
        }
    }
}

/// An order found in a queue is at the position that the search names.
pub proof fn lemma_queue_find(q: Seq<LimitOrder>, id: u64)
    ensures
        queue_find(q, id) <= q.len(),
        queue_has(q, id) ==> q[queue_find(q, id) as int].order_id == id,
        forall|j: int| 0 <= j < queue_find(q, id) ==> (#[trigger] q[j]).order_id != id,
    decreases q.len(),
{
    if q.len() == 0 || q[0].order_id == id {
    } else {
        let r = q.skip(1);
        lemma_queue_find(r, id);
        assert forall|j: int| 0 <= j < queue_find(q, id) implies (#[trigger] q[j]).order_id
            != id by {
            if j > 0 {
                assert(q[j] == r[j - 1]);
            }
        }
    }
}

/// An order found on a ladder is in the level that the search names, and no
/// earlier level holds one with its id.
pub proof fn lemma_ladder_find(l: Seq<Seq<LimitOrder>>, id: u64)
    ensures
        ladder_find(l, id) <= l.len(),
        ladder_has(l, id) ==> queue_has(l[ladder_find(l, id) as int], id) && ladder_get(
            l,
            id,
        ).order_id == id,
        forall|i: int| 0 <= i < ladder_find(l, id) ==> !queue_has(#[trigger] l[i], id),
    decreases l.len(),
{
    if l.len() == 0 {
    } else if queue_has(l[0], id) {
        lemma_queue_find(l[0], id);
    } else {
        let r = l.skip(1);
        lemma_ladder_find(r, id);
        assert forall|i: int| 0 <= i < ladder_find(l, id) implies !queue_has(#[trigger] l[i], id) by {
            if i > 0 {
                assert(l[i] == r[i - 1]);
            }
        }
        if ladder_has(l, id) {
            assert(l[ladder_find(l, id) as int] == r[ladder_find(r, id) as int]);
        }
    }
}

/// No order rests under an id above a bound on the resting ids.
pub proof fn lemma_fresh_id(l: Seq<Seq<LimitOrder>>, bound: u64, id: u64)
    requires
        ids_below(l, bound),
        id > bound,
    ensures
        !ladder_has(l, id),
{
    lemma_ladder_find(l, id);
    if ladder_has(l, id) {
        let i = ladder_find(l, id) as int;
        lemma_queue_find(l[i], id);
        assert(l[i][queue_find(l[i], id) as int].order_id == id);
    }
}

/// The level at which an order comes to rest, and what precedes it.
pub proof fn lemma_level_rank(l: Seq<Seq<LimitOrder>>, side: Side, price: u64)
    requires
        ladder_ok(l, side),
    ensures
        level_rank(l, side, price) <= l.len(),
        forall|k: int|
            0 <= k < level_rank(l, side, price) ==> better(side, (#[trigger] l[k])[0].price, price),
        level_rank(l, side, price) < l.len() ==> !better(
            side,
            l[level_rank(l, side, price) as int][0].price,
            price,
        ),
    decreases l.len(),
{
    if l.len() == 0 || l[0].len() == 0 || !better(side, l[0][0].price, price) {
    } else {
        let r = l.skip(1);
        assert(r =~= l.remove(0));
        lemma_ok_remove_level(l, side, 0);
        lemma_level_rank(r, side, price);
        assert forall|k: int| 0 <= k < level_rank(l, side, price) implies better(
            side,
            (#[trigger] l[k])[0].price,
            price,
        ) by {
            if k > 0 {
                assert(l[k] == r[k - 1]);
            }
        }
        if level_rank(l, side, price) < l.len() {
            assert(l[level_rank(l, side, price) as int] == r[level_rank(r, side, price) as int]);
        }
    }
}

/// Resting a valid order keeps the ladder well formed and the ids bounded;
/// the best price afterwards is the better of the old best and the order's.
pub proof fn lemma_insert(l: Seq<Seq<LimitOrder>>, o: LimitOrder, bound: u64)
    requires
        ladder_ok(l, o.side),
        order_ok(o, o.side),
    ensures
        ladder_ok(ladder_insert(l, o), o.side),
        ladder_insert(l, o).len() > 0,
        best_price(ladder_insert(l, o)) == if l.len() == 0 || better(
            o.side,
            o.price,
            best_price(l),
        ) {
            o.price
        } else {
            best_price(l)
        },
        ids_below(l, bound) && o.order_id <= bound ==> ids_below(ladder_insert(l, o), bound),
{
    let side = o.side;
    let i = level_rank(l, side, o.price) as int;
    let n = ladder_insert(l, o);
    lemma_level_rank(l, side, o.price);
    if i < l.len() && l[i].len() > 0 && l[i][0].price == o.price {
        let q = l[i].push(o);
        assert forall|j: int| 0 <= j < q.len() implies order_ok(#[trigger] q[j], side) && q[j].price
            == l[i][0].price by {
            if j < l[i].len() {
                assert(q[j] == l[i][j]);
            }
        }
        lemma_ok_update_level(l, side, i, q);
        assert(n[0][0].price == l[0][0].price) by {
            if i == 0 {
                assert(q[0] == l[0][0]);
            }
        }
        if i > 0 {
            assert(better(side, l[0][0].price, o.price));
        }
        if ids_below(l, bound) && o.order_id <= bound {
            assert forall|a: int, j: int| 0 <= a < n.len() && 0 <= j < n[a].len() implies (
            #[trigger] n[a][j]).order_id <= bound by {
                if a == i {
                    if j < l[i].len() {
                        assert(n[a][j] == l[i][j]);
                    }
                } else {
                    assert(n[a][j] == l[a][j]);
                }
            }
        }
    } else {
        if i < l.len() {
            assert(l[i].len() > 0);
        }
        lemma_ok_insert_level(l, side, i, o);
        if i > 0 {
            assert(n[0] == l[0]);
            assert(better(side, l[0][0].price, o.price));
        }
        if ids_below(l, bound) && o.order_id <= bound {
            assert forall|a: int, j: int| 0 <= a < n.len() && 0 <= j < n[a].len() implies (
            #[trigger] n[a][j]).order_id <= bound by {
                if a < i {
                    assert(n[a][j] == l[a][j]);
                } else if a > i {
                    assert(n[a][j] == l[a - 1][j]);
                }
            }
        }
    }
}

/// Taking an order out keeps the ladder well formed and the ids bounded,
/// and leaves no better best price than before.
pub proof fn lemma_remove_at(l: Seq<Seq<LimitOrder>>, side: Side, i: int, j: int, bound: u64)
    requires
        ladder_ok(l, side),
        0 <= i < l.len(),
        0 <= j < l[i].len(),
    ensures
        ladder_ok(ladder_remove_at(l, i, j), side),
        ladder_remove_at(l, i, j).len() > 0 ==> !better(
            side,
            best_price(ladder_remove_at(l, i, j)),
            best_price(l),
        ),
        ids_below(l, bound) ==> ids_below(ladder_remove_at(l, i, j), bound),
{
    let n = ladder_remove_at(l, i, j);
    if l[i].len() == 1 {
        lemma_ok_remove_level(l, side, i);
        if n.len() > 0 {
            if i == 0 {
                assert(n[0] == l[1]);
                assert(better(side, l[0][0].price, l[1][0].price));
            } else {
                assert(n[0] == l[0]);
            }
        }
        if ids_below(l, bound) {
            assert forall|a: int, b: int| 0 <= a < n.len() && 0 <= b < n[a].len() implies (
            #[trigger] n[a][b]).order_id <= bound by {
                let c = if a < i { a } else { a + 1 };
                assert(n[a][b] == l[c][b]);
            }
        }
    } else {
        let q = l[i].remove(j);
        assert forall|k: int| 0 <= k < q.len() implies order_ok(#[trigger] q[k], side) && q[k].price
            == l[i][0].price by {
            assert(q[k] == if k < j { l[i][k] } else { l[i][k + 1] });
        }
        lemma_ok_update_level(l, side, i, q);
        assert(n[0][0].price == l[0][0].price) by {
            if i == 0 {
                assert(q[0].price == l[0][0].price);
            }
        }
        if ids_below(l, bound) {
            assert forall|a: int, b: int| 0 <= a < n.len() && 0 <= b < n[a].len() implies (
            #[trigger] n[a][b]).order_id <= bound by {
                if a == i {
                    assert(n[a][b] == if b < j { l[i][b] } else { l[i][b + 1] });
                } else {
                    assert(n[a][b] == l[a][b]);
                }
            }
        }
    }
}

/// Amending an order keeps the ladder well formed, the ids bounded and the
/// best price.
pub proof fn lemma_amend_at(
    l: Seq<Seq<LimitOrder>>,
    side: Side,
    i: int,
    j: int,
    new_size: u64,
    bound: u64,
)
    requires
        ladder_ok(l, side),
        0 <= i < l.len(),
        0 <= j < l[i].len(),
        new_size > l[i][j].cum_filled_size,
    ensures
        ladder_ok(ladder_amend_at(l, i, j, new_size), side),
        ladder_amend_at(l, i, j, new_size).len() == l.len(),
        best_price(ladder_amend_at(l, i, j, new_size)) == best_price(l),
        ids_below(l, bound) ==> ids_below(ladder_amend_at(l, i, j, new_size), bound),
{
    let n = ladder_amend_at(l, i, j, new_size);
    let o = l[i][j];
    let after = resized(o, new_size);
    assert(order_ok(o, side));
    let q = n[i];
    assert forall|k: int| 0 <= k < q.len() implies order_ok(#[trigger] q[k], side) && q[k].price
        == l[i][0].price && (ids_below(l, bound) ==> q[k].order_id <= bound) by {
        if new_size <= o.size + o.cum_filled_size {
            if k != j {
                assert(q[k] == l[i][k]);
            }
        } else {
            if k < q.len() - 1 {
                assert(q[k] == if k < j { l[i][k] } else { l[i][k + 1] });
            }
        }
    }
    lemma_ok_update_level(l, side, i, q);
    assert(n =~= l.update(i, q));
    assert(n[0][0].price == l[0][0].price) by {
        if i == 0 {
            assert(q[0].price == l[0][0].price);
        }
    }
    if ids_below(l, bound) {
        assert forall|a: int, b: int| 0 <= a < n.len() && 0 <= b < n[a].len() implies (
        #[trigger] n[a][b]).order_id <= bound by {
            if a == i {
                assert(n[a][b] == q[b]);
            } else {
                assert(n[a][b] == l[a][b]);
            }
        }
    }
}

/// The sum of a concatenation is the sum of the sums.
pub proof fn lemma_sum_concat(s: Seq<nat>, t: Seq<nat>)
    ensures
        sum(s + t) == sum(s) + sum(t),
    decreases s.len(),
{
    if s.len() == 0 {
        assert(s + t =~= t);
    } else {
        assert((s + t).skip(1) =~= s.skip(1) + t);
        lemma_sum_concat(s.skip(1), t);
    }
}

/// The volume of a ladder is the sum of the remaining sizes of all the
/// orders that rest on it, and its count is their number.
pub proof fn lemma_flatten(l: Seq<Seq<LimitOrder>>)
    ensures
        queue_volume(flatten(l)) == ladder_volume(l),
        flatten(l).len() == ladder_count(l),
    decreases l.len(),
{
    if l.len() == 0 {
        assert(sizes(flatten(l)) =~= Seq::<nat>::empty());
    } else {
        lemma_flatten(l.skip(1));
        assert(sizes(flatten(l)) =~= sizes(l[0]) + sizes(flatten(l.skip(1))));
        lemma_sum_concat(sizes(l[0]), sizes(flatten(l.skip(1))));
        assert(level_volumes(l).skip(1) =~= level_volumes(l.skip(1)));
        assert(level_counts(l).skip(1) =~= level_counts(l.skip(1)));
    }
}

/// What holds of the ids of a ladder holds of the ids of a ladder that is
/// embedded in it.
pub proof fn lemma_embeds(
    n: Seq<Seq<LimitOrder>>,
    l: Seq<Seq<LimitOrder>>,
    m: Seq<Seq<LimitOrder>>,
    f: spec_fn(int, int) -> (int, int),
    index: Map<u64, Locator>,
)
    requires
        embeds(n, l, f),
    ensures
        indexed(l, index) ==> indexed(n, index),
        unique_ids(l) ==> unique_ids(n),
        disjoint_ids(l, m) ==> disjoint_ids(n, m),
        disjoint_ids(m, l) ==> disjoint_ids(m, n),
        forall|id: u64| id_free(l, id) ==> #[trigger] id_free(n, id),
{
    if indexed(l, index) {
        assert forall|a: int, b: int| valid_pos(n, a, b) implies index.contains_key(
            (#[trigger] n[a][b]).order_id,
        ) && index[n[a][b].order_id] == locator_of(n[a][b]) by {
            let p = f(a, b);
            assert(index.contains_key(l[p.0][p.1].order_id));
        }
    }
    if unique_ids(l) {
        assert forall|a: int, b: int, c: int, d: int|
            #![trigger n[a][b], n[c][d]]
            valid_pos(n, a, b) && valid_pos(n, c, d) && (a != c || b != d) implies n[a][b].order_id
            != n[c][d].order_id by {
            let p = f(a, b);
            let q = f(c, d);
            assert(l[p.0][p.1].order_id != l[q.0][q.1].order_id);
        }
    }
    if disjoint_ids(l, m) {
        assert forall|a: int, b: int, c: int, d: int|
            #![trigger n[a][b], m[c][d]]
            valid_pos(n, a, b) && valid_pos(m, c, d) implies n[a][b].order_id
            != m[c][d].order_id by {
            let p = f(a, b);
            assert(l[p.0][p.1].order_id != m[c][d].order_id);
        }
    }
    if disjoint_ids(m, l) {
        assert forall|c: int, d: int, a: int, b: int|
            #![trigger m[c][d], n[a][b]]
            valid_pos(m, c, d) && valid_pos(n, a, b) implies m[c][d].order_id
            != n[a][b].order_id by {
            let p = f(a, b);
            assert(m[c][d].order_id != l[p.0][p.1].order_id);
        }
    }
    assert forall|id: u64| id_free(l, id) implies #[trigger] id_free(n, id) by {
        assert forall|a: int, b: int| valid_pos(n, a, b) implies (#[trigger] n[a][b]).order_id
            != id by {
            let p = f(a, b);
            assert(l[p.0][p.1].order_id != id);
        }
    }
}

/// An order of `l` that the embedding of `n` never reaches has, where the
/// ids of `l` are unique, an id that no order of `n` has.
pub proof fn lemma_embeds_misses(
    n: Seq<Seq<LimitOrder>>,
    l: Seq<Seq<LimitOrder>>,
    f: spec_fn(int, int) -> (int, int),
    i: int,
    j: int,
)
    requires
        embeds(n, l, f),
        unique_ids(l),
        valid_pos(l, i, j),
        forall|a: int, b: int| valid_pos(n, a, b) ==> #[trigger] f(a, b) != (i, j),
    ensures
        id_free(n, l[i][j].order_id),
{
    assert forall|a: int, b: int| valid_pos(n, a, b) implies (#[trigger] n[a][b]).order_id
        != l[i][j].order_id by {
        let p = f(a, b);
        assert(p != (i, j));
        assert(l[p.0][p.1].order_id != l[i][j].order_id);
    }
}

/// An order with id `id` at level `i` puts the first such order at or
/// before level `i`.
pub proof fn lemma_find_bound(l: Seq<Seq<LimitOrder>>, id: u64, i: int, j: int)
    requires
        valid_pos(l, i, j),
        l[i][j].order_id == id,
    ensures
        ladder_find(l, id) <= i,
        ladder_has(l, id),
    decreases l.len(),
{
    if queue_has(l[0], id) {
    } else {
        if i == 0 {
            lemma_queue_find(l[0], id);
            assert(false);
        }
        let r = l.skip(1);
        assert(r[i - 1] == l[i]);
        lemma_find_bound(r, id, i - 1, j);
    }
}

/// An id rests on a ladder exactly if the ladder is not free of it.
pub proof fn lemma_has_or_free(l: Seq<Seq<LimitOrder>>, id: u64)
    ensures
        ladder_has(l, id) <==> !id_free(l, id),
{
    lemma_ladder_find(l, id);
    if ladder_has(l, id) {
        let i = ladder_find(l, id) as int;
        lemma_queue_find(l[i], id);
        assert(l[i][queue_find(l[i], id) as int].order_id == id);
    }
    if !id_free(l, id) {
        let (i, j) = choose|i: int, j: int| valid_pos(l, i, j) && (#[trigger] l[i][j]).order_id == id;
        lemma_find_bound(l, id, i, j);
    }
}

/// Where ids are unique, the order found under an id is the only one.
pub proof fn lemma_unique_get(l: Seq<Seq<LimitOrder>>, i: int, j: int)
    requires
        unique_ids(l),
        valid_pos(l, i, j),
    ensures
        ladder_has(l, l[i][j].order_id),
        ladder_find(l, l[i][j].order_id) == i,
        queue_find(l[i], l[i][j].order_id) == j,
        ladder_get(l, l[i][j].order_id) == l[i][j],
{
    let id = l[i][j].order_id;
    lemma_find_bound(l, id, i, j);
    lemma_ladder_find(l, id);
    let a = ladder_find(l, id) as int;
    lemma_queue_find(l[a], id);
    let b = queue_find(l[a], id) as int;
    assert(l[a][b].order_id == id);
}

/// The ids of a ladder after an order with a new id came to rest.
pub proof fn lemma_insert_ids(l: Seq<Seq<LimitOrder>>, o: LimitOrder, m: Seq<Seq<LimitOrder>>)
    requires
        ladder_ok(l, o.side),
        order_ok(o, o.side),
        id_free(l, o.order_id),
    ensures

        unique_ids(l) ==> unique_ids(ladder_insert(l, o)),
        disjoint_ids(l, m) && id_free(m, o.order_id) ==> disjoint_ids(ladder_insert(l, o), m),
        disjoint_ids(m, l) && id_free(m, o.order_id) ==> disjoint_ids(m, ladder_insert(l, o)),
        !id_free(ladder_insert(l, o), o.order_id),
        unique_ids(l) ==> ladder_has(ladder_insert(l, o), o.order_id) && ladder_get(
            ladder_insert(l, o),
            o.order_id,
        ) == o,
        forall|id: u64| id_free(l, id) && id != o.order_id ==> #[trigger] id_free(ladder_insert(l, o), id),
{
    let side = o.side;
    let i = level_rank(l, side, o.price) as int;
    let n = ladder_insert(l, o);
    lemma_level_rank(l, side, o.price);
    let joins = i < l.len() && l[i].len() > 0 && l[i][0].price == o.price;
    // where an order of the new ladder was on the old one
    let g = |a: int, b: int| if joins { (a, b) } else if a < i { (a, b) } else { (a - 1, b) };
    let jn = if joins { l[i].len() as int } else { 0 };
    assert(valid_pos(n, i, jn) && n[i][jn] == o);
    assert forall|a: int, b: int| valid_pos(n, a, b) && (a != i || b != jn) implies valid_pos(
        l,
        g(a, b).0,
        g(a, b).1,
    ) && (#[trigger] n[a][b]) == l[g(a, b).0][g(a, b).1] by {
        if joins {
            if a == i {
                assert(n[a][b] == l[i][b]);
            } else {
                assert(n[a] == l[a]);
            }
        } else {
            if a < i {
                assert(n[a] == l[a]);
            } else {
                assert(n[a] == l[a - 1]);
            }
        }
    }
    if unique_ids(l) {
        assert forall|a: int, b: int, c: int, d: int|
            #![trigger n[a][b], n[c][d]]
            valid_pos(n, a, b) && valid_pos(n, c, d) && (a != c || b != d) implies n[a][b].order_id
            != n[c][d].order_id by {
            if a == i && b == jn {
                assert(n[c][d] == l[g(c, d).0][g(c, d).1]);
            } else if c == i && d == jn {
                assert(n[a][b] == l[g(a, b).0][g(a, b).1]);
            } else {
                assert(n[a][b] == l[g(a, b).0][g(a, b).1]);
                assert(n[c][d] == l[g(c, d).0][g(c, d).1]);
                assert(g(a, b) != g(c, d));
            }
        }
    }
    if disjoint_ids(l, m) && id_free(m, o.order_id) {
        assert forall|a: int, b: int, c: int, d: int|
            #![trigger n[a][b], m[c][d]]
            valid_pos(n, a, b) && valid_pos(m, c, d) implies n[a][b].order_id
            != m[c][d].order_id by {
            if a == i && b == jn {
            } else {
                assert(n[a][b] == l[g(a, b).0][g(a, b).1]);
            }
        }
    }
    if disjoint_ids(m, l) && id_free(m, o.order_id) {
        assert forall|c: int, d: int, a: int, b: int|
            #![trigger m[c][d], n[a][b]]
            valid_pos(m, c, d) && valid_pos(n, a, b) implies m[c][d].order_id
            != n[a][b].order_id by {
            if a == i && b == jn {
            } else {
                assert(n[a][b] == l[g(a, b).0][g(a, b).1]);
            }
        }
    }
    assert forall|id: u64| id_free(l, id) && id != o.order_id implies #[trigger] id_free(n, id) by {
        assert forall|a: int, b: int| valid_pos(n, a, b) implies (#[trigger] n[a][b]).order_id
            != id by {
            if a == i && b == jn {
            } else {
                assert(n[a][b] == l[g(a, b).0][g(a, b).1]);
            }
        }
    }
    if unique_ids(l) {
        lemma_unique_get(n, i, jn);
    }
}

/// `x` is one of the orders on the ladder.
pub open spec fn on_ladder(l: Seq<Seq<LimitOrder>>, x: LimitOrder) -> bool {
    exists|i: int, j: int| valid_pos(l, i, j) && #[trigger] l[i][j] == x
}

/// The orders on a ladder after `o` came to rest are `o` and those that
/// were on it before.
pub proof fn lemma_insert_orders(l: Seq<Seq<LimitOrder>>, o: LimitOrder)
    requires
        ladder_ok(l, o.side),
    ensures
        forall|a: int, b: int|
            valid_pos(ladder_insert(l, o), a, b) ==> #[trigger] ladder_insert(l, o)[a][b] == o
                || on_ladder(l, ladder_insert(l, o)[a][b]),
{
    let i = level_rank(l, o.side, o.price) as int;
    let n = ladder_insert(l, o);
    lemma_level_rank(l, o.side, o.price);
    let joins = i < l.len() && l[i].len() > 0 && l[i][0].price == o.price;
    assert forall|a: int, b: int| valid_pos(n, a, b) implies #[trigger] n[a][b] == o || on_ladder(
        l,
        n[a][b],
    ) by {
        if joins {
            if a == i {
                if b < l[i].len() {
                    assert(valid_pos(l, i, b) && l[i][b] == n[a][b]);
                }
            } else {
                assert(valid_pos(l, a, b) && l[a][b] == n[a][b]);
            }
        } else {
            if a < i {
                assert(valid_pos(l, a, b) && l[a][b] == n[a][b]);
            } else if a > i {
                assert(valid_pos(l, a - 1, b) && l[a - 1][b] == n[a][b]);
            }
        }
    }
}

/// The ids of a ladder after the order at position `j` of level `i` left:
/// its id, where ids are unique, is gone, and nothing else changed.
pub proof fn lemma_remove_at_ids(
    l: Seq<Seq<LimitOrder>>,
    i: int,
    j: int,
    m: Seq<Seq<LimitOrder>>,
    index: Map<u64, Locator>,
)
    requires
        valid_pos(l, i, j),
        forall|a: int| 0 <= a < l.len() ==> (#[trigger] l[a]).len() > 0,
    ensures
        indexed(l, index) ==> indexed(ladder_remove_at(l, i, j), index),
        unique_ids(l) ==> unique_ids(ladder_remove_at(l, i, j)) && id_free(
            ladder_remove_at(l, i, j),
            l[i][j].order_id,
        ),
        disjoint_ids(l, m) ==> disjoint_ids(ladder_remove_at(l, i, j), m),
        disjoint_ids(m, l) ==> disjoint_ids(m, ladder_remove_at(l, i, j)),
        forall|id: u64| id_free(l, id) ==> #[trigger] id_free(ladder_remove_at(l, i, j), id),
{
    let n = ladder_remove_at(l, i, j);
    let whole = l[i].len() == 1;
    let f = |a: int, b: int|
        if whole {
            if a < i {
                (a, b)
            } else {
                (a + 1, b)
            }
        } else if a == i && b >= j {
            (a, b + 1)
        } else {
            (a, b)
        };
    assert forall|a: int, b: int| valid_pos(n, a, b) implies valid_pos(l, f(a, b).0, f(a, b).1) && (
    #[trigger] n[a][b]) == l[f(a, b).0][f(a, b).1] && f(a, b) != (i, j) by {
        if whole {
            if a < i {
                assert(n[a] == l[a]);
            } else {
                assert(n[a] == l[a + 1]);
            }
        } else {
            if a == i {
                assert(n[a][b] == if b < j { l[i][b] } else { l[i][b + 1] });
            } else {
                assert(n[a] == l[a]);
            }
        }
    }
    assert(embeds(n, l, f));
    lemma_embeds(n, l, m, f, index);
    if unique_ids(l) {
        lemma_embeds_misses(n, l, f, i, j);
    }
}

/// The ids of a ladder are the same after an order was amended.
pub proof fn lemma_amend_at_ids(
    l: Seq<Seq<LimitOrder>>,
    i: int,
    j: int,
    new_size: u64,
    m: Seq<Seq<LimitOrder>>,
    index: Map<u64, Locator>,
)
    requires
        valid_pos(l, i, j),
    ensures
        indexed(l, index) ==> indexed(ladder_amend_at(l, i, j, new_size), index),
        unique_ids(l) ==> unique_ids(ladder_amend_at(l, i, j, new_size)),
        disjoint_ids(l, m) ==> disjoint_ids(ladder_amend_at(l, i, j, new_size), m),
        disjoint_ids(m, l) ==> disjoint_ids(m, ladder_amend_at(l, i, j, new_size)),
        forall|id: u64| id_free(l, id) ==> #[trigger] id_free(ladder_amend_at(l, i, j, new_size), id),
{
    let n = ladder_amend_at(l, i, j, new_size);
    let o = l[i][j];
    let stays = new_size <= o.size + o.cum_filled_size;
    let last = l[i].len() - 1;
    let f = |a: int, b: int|
        if stays || a != i {
            (a, b)
        } else if b == last {
            (i, j)
        } else if b >= j {
            (a, b + 1)
        } else {
            (a, b)
        };
    assert forall|a: int, b: int| valid_pos(n, a, b) implies valid_pos(l, f(a, b).0, f(a, b).1) && (
    #[trigger] n[a][b]).order_id == l[f(a, b).0][f(a, b).1].order_id && locator_of(n[a][b])
        == locator_of(l[f(a, b).0][f(a, b).1]) by {
        if a != i {
            assert(n[a] == l[a]);
        } else if stays {
            if b != j {
                assert(n[a][b] == l[i][b]);
            }
        } else {
            if b < last {
                assert(n[a][b] == if b < j { l[i][b] } else { l[i][b + 1] });
            }
        }
    }
    assert(embeds(n, l, f));
    lemma_embeds(n, l, m, f, index);
}

/// An id that rests on a ladder rests on it after another order came to rest.
pub proof fn lemma_insert_keeps(l: Seq<Seq<LimitOrder>>, o: LimitOrder)
    requires
        ladder_ok(l, o.side),
    ensures
        forall|id: u64| !id_free(l, id) ==> !#[trigger] id_free(ladder_insert(l, o), id),
{
    let i = level_rank(l, o.side, o.price) as int;
    let n = ladder_insert(l, o);
    lemma_level_rank(l, o.side, o.price);
    let joins = i < l.len() && l[i].len() > 0 && l[i][0].price == o.price;
    assert forall|id: u64| !id_free(l, id) implies !#[trigger] id_free(n, id) by {
        let (a, b) = choose|a: int, b: int| valid_pos(l, a, b) && (#[trigger] l[a][b]).order_id == id;
        let a2 = if joins || a < i { a } else { a + 1 };
        assert(valid_pos(n, a2, b) && n[a2][b] == l[a][b]);
    }
}

/// An id that rests on a ladder rests on it after another order left.
pub proof fn lemma_remove_keeps(l: Seq<Seq<LimitOrder>>, i: int, j: int)
    requires
        valid_pos(l, i, j),
        forall|a: int| 0 <= a < l.len() ==> (#[trigger] l[a]).len() > 0,
    ensures
        forall|id: u64|
            !id_free(l, id) && id != l[i][j].order_id ==> !#[trigger] id_free(
                ladder_remove_at(l, i, j),
                id,
            ),
{
    let n = ladder_remove_at(l, i, j);
    let whole = l[i].len() == 1;
    assert forall|id: u64| !id_free(l, id) && id != l[i][j].order_id implies !#[trigger] id_free(
        n,
        id,
    ) by {
        let (a, b) = choose|a: int, b: int| valid_pos(l, a, b) && (#[trigger] l[a][b]).order_id == id;
        if whole {
            let a2 = if a < i { a } else { a - 1 };
            assert(valid_pos(n, a2, b) && n[a2][b] == l[a][b]);
        } else {
            let b2 = if a == i && b > j { b - 1 } else { b };
            assert(valid_pos(n, a, b2) && n[a][b2] == l[a][b]);
        }
    }
}

/// An id that rests on a ladder rests on it after an order was amended.
pub proof fn lemma_amend_keeps(l: Seq<Seq<LimitOrder>>, i: int, j: int, new_size: u64)
    requires
        valid_pos(l, i, j),
    ensures
        forall|id: u64|
            !id_free(l, id) ==> !#[trigger] id_free(ladder_amend_at(l, i, j, new_size), id),
{
    let n = ladder_amend_at(l, i, j, new_size);
    let o = l[i][j];
    let stays = new_size <= o.size + o.cum_filled_size;
    let last = l[i].len() - 1;
    assert forall|id: u64| !id_free(l, id) implies !#[trigger] id_free(n, id) by {
        let (a, b) = choose|a: int, b: int| valid_pos(l, a, b) && (#[trigger] l[a][b]).order_id == id;
        let b2 = if stays || a != i {
            b
        } else if b == j {
            last
        } else if b > j {
            b - 1
        } else {
            b
        };
        assert(valid_pos(n, a, b2) && n[a][b2].order_id == l[a][b].order_id);
    }
}

} // verus!
