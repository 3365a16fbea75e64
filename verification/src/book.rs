use vstd::prelude::*;
use crate::model::{
    better_key, crosses, fills_qty, lemma_match_levels_props, lemma_match_levels_step,
    lemma_place_order_at, lemma_place_order_wf, lemma_queue_qty_nonneg, lemma_queue_qty_take_step,
    lemma_side_qty_nonneg, lemma_side_qty_take_step, match_levels, opposite, place_order,
    queue_qty, resting_wf, side_qty, side_view, side_wf, snapshot_side, trade_matches_fill,
    trades_match_fills, with_remaining, Level,
};
use crate::types::{Order, OrderResponse, OrderSide, OrderType, OrderbookSnapshot, Trade};

verus! {

/// The aggregate engine state: resting Buy orders (bids) and resting
/// Sell orders (asks), each side a vector of FIFO price levels kept
/// best price first, plus an index of the resting orders by id, written
/// on insert and erased on full fill (kept for a future cancel command;
/// nothing reads it yet).
pub struct Orderbook {
    bids: Vec<Level>,
    asks: Vec<Level>,
    orders: Vec<Order>,
}

impl Orderbook {
    /// The bids as the model sees them: best (highest) key first.
    pub closed spec fn bids_view(self) -> Seq<(u64, Seq<Order>)> {
        side_view(self.bids@)
    }

    /// The asks as the model sees them: best (lowest) key first.
    pub closed spec fn asks_view(self) -> Seq<(u64, Seq<Order>)> {
        side_view(self.asks@)
    }

    /// The id index as the model sees it.
    pub closed spec fn orders_view(self) -> Seq<Order> {
        self.orders@
    }

    /// The side a taker on `taker_side` would rest on.
    pub open spec fn same_view(self, taker_side: OrderSide) -> Seq<(u64, Seq<Order>)> {
        match taker_side {
            OrderSide::Buy => self.bids_view(),
            OrderSide::Sell => self.asks_view(),
        }
    }

    /// The side a taker on `taker_side` consumes liquidity from.
    pub open spec fn opposite_view(self, taker_side: OrderSide) -> Seq<(u64, Seq<Order>)> {
        match taker_side {
            OrderSide::Buy => self.asks_view(),
            OrderSide::Sell => self.bids_view(),
        }
    }

    /// Both sides well formed (price-key/queue consistency, strict
    /// best-first ordering, a key present iff its queue is non-empty).
    pub open spec fn wf(self) -> bool {
        &&& side_wf(OrderSide::Buy, self.bids_view())
        &&& side_wf(OrderSide::Sell, self.asks_view())
    }

    pub fn new() -> (r: Orderbook)
        ensures
            r.wf(),
            r.bids_view() == Seq::<(u64, Seq<Order>)>::empty(),
            r.asks_view() == Seq::<(u64, Seq<Order>)>::empty(),
            r.orders_view() == Seq::<Order>::empty(),
    {
        let r = Orderbook { bids: Vec::new(), asks: Vec::new(), orders: Vec::new() };
        proof {
            assert(r.bids_view() =~= Seq::<(u64, Seq<Order>)>::empty());
            assert(r.asks_view() =~= Seq::<(u64, Seq<Order>)>::empty());
        }
        r
    }
}

/// A field-by-field copy; only the strings need cloning and their
/// clones are known to be equal.
fn clone_order(o: &Order) -> (r: Order)
    ensures
        r == *o,
{
    Order {
        id: o.id.clone(),
        user_id: o.user_id.clone(),
        side: o.side,
        order_type: o.order_type,
        price: o.price,
        quantity: o.quantity,
        remaining_quantity: o.remaining_quantity,
        timestamp: o.timestamp,
    }
}

fn better_key_exec(book_side: OrderSide, a: u64, b: u64) -> (r: bool)
    ensures
        r == better_key(book_side, a, b),
{
    match book_side {
        OrderSide::Buy => a > b,
        OrderSide::Sell => a < b,
    }
}

fn crosses_exec(taker_side: OrderSide, limit: Option<u64>, key: u64) -> (r: bool)
    ensures
        r == crosses(taker_side, limit, key),
{
    match limit {
        Option::None => true,
        Option::Some(p) => match taker_side {
            OrderSide::Buy => key <= p,
            OrderSide::Sell => key >= p,
        },
    }
}

/// Relies on uuid::Uuid::new_v4 for a fresh trade identifier; the value
/// is random, so nothing is promised of it.
#[verifier::external_body]
fn fresh_id() -> String {
    uuid::Uuid::new_v4().to_string()
}

/// Erase the first index entry carrying `id`, if any.
fn remove_order(orders: &mut Vec<Order>, id: &String)
    ensures
        (exists|k: int|
            0 <= k < old(orders)@.len() && old(orders)@[k].id@ == id@ && final(orders)@ == old(
                orders,
            )@.remove(k)) || (final(orders)@ == old(orders)@ && forall|k: int|
            0 <= k < old(orders)@.len() ==> (#[trigger] old(orders)@[k]).id@ != id@),
{
    let mut i: usize = 0;
    while i < orders.len()
        invariant
            0 <= i <= orders@.len(),
            orders@ == old(orders)@,
            forall|k: int| 0 <= k < i ==> (#[trigger] orders@[k]).id@ != id@,
        decreases orders@.len() - i,
    {
        if orders[i].id == *id {
            orders.remove(i);
            return ;
        }
        i += 1;
    }
}

impl Orderbook {
    /// Rest a live Limit order at the tail of its price level's queue,
    /// creating the level at its ordered position when absent, and
    /// record the order in the id index.
    pub fn add_to_book(&mut self, order: Order)
        requires
            old(self).wf(),
            order.order_type == OrderType::LimitOrder,
            0 < order.remaining_quantity <= order.quantity,
            order.price.is_some(),
        ensures
            final(self).wf(),
            final(self).same_view(order.side) == place_order(
                old(self).same_view(order.side),
                order.side,
                order.price.unwrap(),
                order,
            ),
            final(self).opposite_view(order.side) == old(self).opposite_view(order.side),
            final(self).orders_view() == old(self).orders_view().push(order),
    {
        let key = match order.price {
            Option::Some(p) => p,
            Option::None => 0,
        };
        self.orders.push(clone_order(&order));
        let side = order.side;
        let book: &mut Vec<Level> = match side {
            OrderSide::Buy => &mut self.bids,
            OrderSide::Sell => &mut self.asks,
        };
        let ghost v0 = side_view(book@);
        proof {
            assert(resting_wf(key, order));
            lemma_place_order_wf(v0, side, key, order);
        }
        let mut i: usize = 0;
        while i < book.len() && better_key_exec(side, book[i].key, key)
            invariant
                0 <= i <= book@.len(),
                side_view(book@) == v0,
                forall|j: int| 0 <= j < i ==> better_key(side, (#[trigger] v0[j]).0, key),
            decreases book@.len() - i,
        {
            proof {
                assert(v0[i as int] == (book@[i as int].key, book@[i as int].queue@));
            }
            i += 1;
        }
        proof {
            assert(i < v0.len() ==> v0[i as int] == (book@[i as int].key, book@[i as int].queue@));
            lemma_place_order_at(v0, side, key, order, i as int);
        }
        if i < book.len() && book[i].key == key {
            let mut level = book.remove(i);
            level.queue.push(order);
            book.insert(i, level);
            proof {
                assert(side_view(book@) =~~= v0.update(i as int, (key, v0[i as int].1.push(order))));
            }
        } else {
            let mut q: Vec<Order> = Vec::new();
            q.push(order);
            book.insert(i, Level { key, queue: q });
            proof {
                assert(q@ =~= seq![order]);
                assert(side_view(book@) =~~= v0.take(i as int) + seq![(key, seq![order])] + v0.skip(
                    i as int,
                ));
            }
        }
    }
}

} // verus!

verus! {

/// Whether one side holds at least `need` in total remaining quantity.
/// The accumulator is clamped at `need`, so it cannot overflow.
fn has_liquidity(levels: &Vec<Level>, need: u64) -> (r: bool)
    ensures
        r == (side_qty(side_view(levels@)) >= need),
{
    let ghost v = side_view(levels@);
    if need == 0 {
        proof {
            lemma_side_qty_nonneg(v);
        }
        return true;
    }
    let mut acc: u64 = 0;
    let mut i: usize = 0;
    while i < levels.len()
        invariant
            0 <= i <= levels@.len(),
            v == side_view(levels@),
            need > 0,
            acc <= need,
            acc as int == vstd::math::min(need as int, side_qty(v.take(i as int))),
        decreases levels@.len() - i,
    {
        proof {
            assert(v[i as int] == (levels@[i as int].key, levels@[i as int].queue@));
        }
        let ghost s_i = side_qty(v.take(i as int));
        let ghost q = levels@[i as int].queue@;
        proof {
            assert(q.take(0) =~= Seq::<Order>::empty());
            assert(queue_qty(Seq::<Order>::empty()) == 0);
        }
        let queue_len = levels[i].queue.len();
        let mut j: usize = 0;
        while j < queue_len
            invariant
                0 <= j <= q.len(),
                queue_len == q.len(),
                0 <= i < levels@.len(),
                v == side_view(levels@),
                v[i as int].1 == q,
                q == levels@[i as int].queue@,
                s_i == side_qty(v.take(i as int)),
                acc <= need,
                need > 0,
                acc as int == vstd::math::min(need as int, s_i + queue_qty(q.take(j as int))),
            decreases q.len() - j,
        {
            proof {
                lemma_queue_qty_take_step(q, j as int);
            }
            let rem = levels[i].queue[j].remaining_quantity;
            if rem >= need - acc {
                acc = need;
            } else {
                acc = acc + rem;
            }
            j += 1;
        }
        proof {
            assert(q.take(q.len() as int) =~= q);
            lemma_side_qty_take_step(v, i as int);
        }
        i += 1;
    }
    proof {
        assert(v.take(v.len() as int) =~= v);
    }
    acc == need
}

/// Total remaining quantity at one price level, widened so that no
/// queue can overflow it.
fn level_total(level: &Level) -> (t: u128)
    ensures
        t as int == queue_qty(level.queue@),
{
    let q_len = level.queue.len();
    let mut t: u128 = 0;
    let mut j: usize = 0;
    while j < q_len
        invariant
            0 <= j <= level.queue@.len(),
            q_len == level.queue@.len(),
            t as int == queue_qty(level.queue@.take(j as int)),
            t as int <= (j as int) * 0xffff_ffff_ffff_ffffu64,
        decreases q_len - j,
    {
        proof {
            lemma_queue_qty_take_step(level.queue@, j as int);
            assert(((j + 1) as int) * 0xffff_ffff_ffff_ffffu64 < u128::MAX) by (nonlinear_arith)
                requires
                    0 <= j + 1 <= 0xffff_ffff_ffff_ffffu64,
            ;
        }
        t = t + level.queue[j].remaining_quantity as u128;
        j += 1;
        proof {
            assert(t as int <= (j as int) * 0xffff_ffff_ffff_ffffu64) by (nonlinear_arith)
                requires
                    t as int <= ((j - 1) as int) * 0xffff_ffff_ffff_ffffu64
                        + 0xffff_ffff_ffff_ffffu64,
            ;
        }
    }
    proof {
        assert(level.queue@.take(level.queue@.len() as int) =~= level.queue@);
    }
    t
}

/// One side of the snapshot, in the side's own best-first order.
fn snapshot_levels(levels: &Vec<Level>) -> (r: Vec<(u64, u128)>)
    ensures
        r@ == snapshot_side(side_view(levels@)),
{
    let mut r: Vec<(u64, u128)> = Vec::new();
    let mut i: usize = 0;
    while i < levels.len()
        invariant
            0 <= i <= levels@.len(),
            r@.len() == i,
            forall|t: int|
                0 <= t < i ==> r@[t] == (
                    (#[trigger] levels@[t]).key,
                    queue_qty(levels@[t].queue@) as u128,
                ),
        decreases levels@.len() - i,
    {
        let total = level_total(&levels[i]);
        let key = levels[i].key;
        proof {
            lemma_queue_qty_nonneg(levels@[i as int].queue@);
        }
        r.push((key, total));
        i += 1;
    }
    proof {
        assert forall|t: int| 0 <= t < r@.len() implies r@[t] == snapshot_side(side_view(levels@))[t] by {
            assert(side_view(levels@)[t] == (levels@[t].key, levels@[t].queue@));
        }
        assert(r@ =~= snapshot_side(side_view(levels@)));
    }
    r
}

impl Orderbook {
    /// Point-in-time aggregation: per price level the total remaining
    /// quantity, bids walked best (highest) price first, asks best
    /// (lowest) price first.
    pub fn get_snapshot(&self) -> (r: OrderbookSnapshot)
        requires
            self.wf(),
        ensures
            r.bids@ == snapshot_side(self.bids_view()),
            r.asks@ == snapshot_side(self.asks_view()),
            forall|i: int, j: int|
                0 <= i < j < r.bids@.len() ==> (#[trigger] r.bids@[i]).0 > (#[trigger] r.bids@[j]).0,
            forall|i: int, j: int|
                0 <= i < j < r.asks@.len() ==> (#[trigger] r.asks@[i]).0 < (#[trigger] r.asks@[j]).0,
    {
        let bids = snapshot_levels(&self.bids);
        let asks = snapshot_levels(&self.asks);
        proof {
            assert forall|i: int, j: int| 0 <= i < j < bids@.len() implies (#[trigger] bids@[i]).0
                > (#[trigger] bids@[j]).0 by {
                assert(bids@[i] == self.bids_view().map(
                    |_t: int, l: (u64, Seq<Order>)| (l.0, queue_qty(l.1) as u128),
                )[i]);
                assert(better_key(OrderSide::Buy, self.bids_view()[i].0, self.bids_view()[j].0));
            }
            assert forall|i: int, j: int| 0 <= i < j < asks@.len() implies (#[trigger] asks@[i]).0
                < (#[trigger] asks@[j]).0 by {
                assert(better_key(OrderSide::Sell, self.asks_view()[i].0, self.asks_view()[j].0));
            }
        }
        OrderbookSnapshot { bids, asks }
    }
}

} // verus!

verus! {

/// Walk one side of the book with the taker, best price first, popping
/// the head maker of the best crossing level: one trade per fill at the
/// maker's price; a partly consumed maker returns to the head of its
/// queue (keeping its time priority), an exhausted maker leaves its
/// queue and the id index, and an emptied level leaves the side.
fn match_against(
    book: &mut Vec<Level>,
    orders: &mut Vec<Order>,
    taker: &mut Order,
    limit: Option<u64>,
    book_side: OrderSide,
    now: u64,
) -> (trades: Vec<Trade>)
    requires
        side_wf(book_side, side_view(old(book)@)),
    ensures
        ({
            let m = match_levels(
                side_view(old(book)@),
                old(taker).remaining_quantity,
                limit,
                old(taker).side,
            );
            &&& side_view(final(book)@) == m.1
            &&& side_wf(book_side, side_view(final(book)@))
            &&& *final(taker) == with_remaining(*old(taker), m.2)
            &&& trades_match_fills(trades@, m.0, old(taker).side, old(taker).id@, now)
            &&& final(orders)@.len() <= old(orders)@.len()
        }),
{
    let ghost v0 = side_view(book@);
    let ghost rem0 = taker.remaining_quantity;
    let ghost side = taker.side;
    let ghost taker0 = *taker;
    let ghost gold = match_levels(v0, rem0, limit, side);
    let mut trades: Vec<Trade> = Vec::new();
    proof {
        assert(gold.0.skip(0) =~= gold.0);
        assert(gold.0.take(0) =~= Seq::<crate::model::Fill>::empty());
    }
    while taker.remaining_quantity > 0 && book.len() > 0 && crosses_exec(
        taker.side,
        limit,
        book[0].key,
    )
        invariant
            side_wf(book_side, side_view(book@)),
            orders@.len() <= old(orders)@.len(),
            *taker == with_remaining(taker0, taker.remaining_quantity),
            side == taker0.side,
            gold == match_levels(v0, rem0, limit, side),
            trades@.len() <= gold.0.len(),
            trades_match_fills(trades@, gold.0.take(trades@.len() as int), side, taker0.id@, now),
            ({
                let cur = match_levels(
                    side_view(book@),
                    taker.remaining_quantity,
                    limit,
                    side,
                );
                &&& gold.0.skip(trades@.len() as int) == cur.0
                &&& gold.1 == cur.1
                &&& gold.2 == cur.2
            }),
        decreases side_qty(side_view(book@)),
    {
        let ghost lv = side_view(book@);
        let ghost rem_cur = taker.remaining_quantity;
        let ghost cur = match_levels(lv, rem_cur, limit, side);
        proof {
            assert(lv[0] == (book@[0].key, book@[0].queue@));
            assert(lv[0].1.len() > 0);
            assert(resting_wf(lv[0].0, lv[0].1[0]));
            lemma_match_levels_step(lv, rem_cur, limit, side);
        }
        let mut level = book.remove(0);
        let mut maker = level.queue.remove(0);
        let ghost maker0 = maker;
        let ghost q = lv[0].1;
        let ghost key = lv[0].0;
        let tq = if taker.remaining_quantity < maker.remaining_quantity {
            taker.remaining_quantity
        } else {
            maker.remaining_quantity
        };
        let ghost f = (key, tq, maker0.id@);
        let trade = Trade {
            id: fresh_id(),
            buy_order_id: match taker.side {
                OrderSide::Buy => taker.id.clone(),
                OrderSide::Sell => maker.id.clone(),
            },
            sell_order_id: match taker.side {
                OrderSide::Buy => maker.id.clone(),
                OrderSide::Sell => taker.id.clone(),
            },
            price: level.key,
            quantity: tq,
            timestamp: now,
        };
        proof {
            assert(trade_matches_fill(trade, f, side, taker0.id@, now));
        }
        let ghost tlen0 = trades@.len() as int;
        trades.push(trade);
        taker.remaining_quantity = taker.remaining_quantity - tq;
        maker.remaining_quantity = maker.remaining_quantity - tq;
        let ghost mrem = maker0.remaining_quantity;
        let ghost next = if mrem > rem_cur {
            lv.update(0, (key, q.update(0, with_remaining(maker0, (mrem - rem_cur) as u64))))
        } else if q.len() == 1 {
            lv.skip(1)
        } else {
            lv.update(0, (key, q.skip(1)))
        };
        if maker.remaining_quantity > 0 {
            level.queue.insert(0, maker);
            proof {
                assert(maker == with_remaining(maker0, (mrem - rem_cur) as u64));
                assert(level.queue@ =~= q.update(0, maker));
                crate::model::lemma_queue_wf_head(key, q, maker);
            }
        } else {
            remove_order(orders, &maker.id);
            proof {
                crate::model::lemma_queue_wf_head(key, q, maker0);
                assert(level.queue@ =~= q.skip(1));
            }
        }
        if level.queue.len() > 0 {
            book.insert(0, level);
        }
        proof {
            // the book now shows exactly the step lemma's next state
            if maker0.remaining_quantity > rem_cur {
                assert(book@[0].queue@ == q.update(0, with_remaining(maker0, (mrem - rem_cur) as u64)));
                assert(side_view(book@) =~~= next);
            } else if q.len() == 1 {
                assert(side_view(book@) =~~= lv.skip(1));
            } else {
                assert(side_view(book@) =~~= next);
            }
            crate::model::lemma_side_wf_head(lv, book_side, level.queue@);
            let nm = match_levels(next, (rem_cur - tq) as u64, limit, side);
            // fills bookkeeping
            assert(cur.0 == seq![f] + nm.0 && cur.1 == nm.1 && cur.2 == nm.2);
            assert(gold.0.skip(tlen0) == cur.0);
            assert(gold.0.len() - tlen0 == cur.0.len());
            assert(trades@.len() == tlen0 + 1);
            assert(gold.0[tlen0] == f) by {
                assert(gold.0.skip(tlen0)[0] == gold.0[tlen0]);
                assert(cur.0[0] == f);
            }
            assert(gold.0.take(tlen0 + 1) =~= gold.0.take(tlen0).push(f));
            assert(gold.0.skip(tlen0 + 1) =~= nm.0) by {
                assert forall|t: int| 0 <= t < gold.0.len() - tlen0 - 1 implies gold.0.skip(
                    tlen0 + 1,
                )[t] == nm.0[t] by {
                    assert(gold.0.skip(tlen0 + 1)[t] == gold.0[tlen0 + 1 + t]);
                    assert(cur.0[1 + t] == gold.0.skip(tlen0)[1 + t]);
                    assert((seq![f] + nm.0)[1 + t] == nm.0[t]);
                }
            }
            // termination: the side lost exactly tq > 0 of quantity
            lemma_match_levels_props(lv, rem_cur, limit, side, book_side);
            lemma_match_levels_props(next, (rem_cur - tq) as u64, limit, side, book_side);
            crate::model::lemma_fills_qty_append(seq![f], nm.0);
            assert(fills_qty(seq![f]) == tq) by {
                assert(seq![f].skip(1) =~= Seq::<crate::model::Fill>::empty());
                assert(fills_qty(Seq::<crate::model::Fill>::empty()) == 0);
            }
            lemma_side_qty_nonneg(next);
        }
    }
    proof {
        let cur = match_levels(side_view(book@), taker.remaining_quantity, limit, side);
        if book@.len() > 0 {
            assert(side_view(book@)[0] == (book@[0].key, book@[0].queue@));
        }
        assert(cur.0 =~= Seq::<crate::model::Fill>::empty());
        assert(gold.0.skip(trades@.len() as int).len() == 0);
        assert(trades@.len() == gold.0.len());
        assert(gold.0.take(trades@.len() as int) =~= gold.0);
    }
    trades
}

} // verus!

verus! {

/// What `add_order` promises: the response variant, its quantities and
/// its trades, and both sides of the book afterwards, all pinned by the
/// model's matcher on the book as it stood.
pub open spec fn add_order_post(
    pre: Orderbook,
    post: Orderbook,
    o: Order,
    now: u64,
    r: OrderResponse,
) -> bool {
    let side = o.side;
    let opp = pre.opposite_view(side);
    match o.order_type {
        OrderType::MarketOrder => {
            if opp.len() == 0 || o.quantity == 0 {
                &&& post == pre
                &&& (r matches OrderResponse::Error { message } && message@
                    == "No matching orders available"@)
            } else if side_qty(opp) < o.quantity {
                &&& post == pre
                &&& (r matches OrderResponse::Error { message } && message@
                    == "Insufficient liquidity for market order"@)
            } else {
                let m = match_levels(opp, o.quantity, None, side);
                &&& post.opposite_view(side) == m.1
                &&& post.same_view(side) == pre.same_view(side)
                &&& (r matches OrderResponse::Filled { order_id, filled_quantity, trades }
                    && order_id == o.id && filled_quantity == o.quantity && trades@.len() > 0
                    && trades_match_fills(trades@, m.0, side, o.id@, now))
            }
        },
        OrderType::LimitOrder => {
            if o.price.is_none() {
                &&& post == pre
                &&& (r matches OrderResponse::Error { message } && message@
                    == "limit order must have price"@)
            } else {
                let p = o.price.unwrap();
                let m = match_levels(opp, o.quantity, Some(p), side);
                &&& post.opposite_view(side) == m.1
                &&& (if m.2 > 0 {
                    &&& post.same_view(side) == place_order(
                        pre.same_view(side),
                        side,
                        p,
                        with_remaining(o, m.2),
                    )
                    &&& (if m.0.len() == 0 {
                        r matches OrderResponse::Placed { order_id } && order_id == o.id
                    } else {
                        r matches OrderResponse::PartiallyFilled {
                            order_id,
                            filled_quantity,
                            remaining_quantity,
                            trades,
                        } && order_id == o.id && filled_quantity == o.quantity - m.2
                            && remaining_quantity == m.2 && trades_match_fills(
                            trades@,
                            m.0,
                            side,
                            o.id@,
                            now,
                        )
                    })
                } else {
                    &&& post.same_view(side) == pre.same_view(side)
                    &&& (r matches OrderResponse::Filled { order_id, filled_quantity, trades }
                        && order_id == o.id && filled_quantity == o.quantity && (o.quantity > 0
                        ==> trades@.len() > 0) && trades_match_fills(
                        trades@,
                        m.0,
                        side,
                        o.id@,
                        now,
                    ))
                })
            }
        },
    }
}

impl Orderbook {
    /// Match a Market taker against the opposite side until it is
    /// filled or the liquidity runs out; the taker's own side is
    /// untouched.
    pub fn match_market_order(&mut self, order: &mut Order, now: u64) -> (trades: Vec<Trade>)
        requires
            old(self).wf(),
        ensures
            final(self).wf(),
            ({
                let m = match_levels(
                    old(self).opposite_view(old(order).side),
                    old(order).remaining_quantity,
                    None,
                    old(order).side,
                );
                &&& final(self).opposite_view(old(order).side) == m.1
                &&& final(self).same_view(old(order).side) == old(self).same_view(old(order).side)
                &&& final(self).orders_view().len() <= old(self).orders_view().len()
                &&& *final(order) == with_remaining(*old(order), m.2)
                &&& trades_match_fills(trades@, m.0, old(order).side, old(order).id@, now)
            }),
    {
        match order.side {
            OrderSide::Buy => match_against(
                &mut self.asks,
                &mut self.orders,
                order,
                None,
                OrderSide::Sell,
                now,
            ),
            OrderSide::Sell => match_against(
                &mut self.bids,
                &mut self.orders,
                order,
                None,
                OrderSide::Buy,
                now,
            ),
        }
    }

    /// Match a Limit taker against the opposite side, trading only at
    /// prices its own price crosses; the taker's own side is untouched
    /// (resting the residual is the caller's step).
    pub fn match_limit_order(&mut self, order: &mut Order, now: u64) -> (trades: Vec<Trade>)
        requires
            old(self).wf(),
            old(order).price.is_some(),
        ensures
            final(self).wf(),
            ({
                let m = match_levels(
                    old(self).opposite_view(old(order).side),
                    old(order).remaining_quantity,
                    Some(old(order).price.unwrap()),
                    old(order).side,
                );
                &&& final(self).opposite_view(old(order).side) == m.1
                &&& final(self).same_view(old(order).side) == old(self).same_view(old(order).side)
                &&& final(self).orders_view().len() <= old(self).orders_view().len()
                &&& *final(order) == with_remaining(*old(order), m.2)
                &&& trades_match_fills(trades@, m.0, old(order).side, old(order).id@, now)
            }),
    {
        let limit = order.price;
        match order.side {
            OrderSide::Buy => match_against(
                &mut self.asks,
                &mut self.orders,
                order,
                limit,
                OrderSide::Sell,
                now,
            ),
            OrderSide::Sell => match_against(
                &mut self.bids,
                &mut self.orders,
                order,
                limit,
                OrderSide::Buy,
                now,
            ),
        }
    }

    /// Submit one order: match it, rest any Limit residual, and report
    /// the outcome. A Market order that cannot be filled in full leaves
    /// the book exactly as it was and reports the error.
    pub fn add_order(&mut self, order: Order, now: u64) -> (r: OrderResponse)
        requires
            old(self).wf(),
            order.remaining_quantity == order.quantity,
        ensures
            final(self).wf(),
            add_order_post(*old(self), *final(self), order, now, r),
    {
        let ghost pre = *old(self);
        let ghost o0 = order;
        let original_quantity = order.quantity;
        let mut order = order;
        match order.order_type {
            OrderType::MarketOrder => {
                let opp_len = match order.side {
                    OrderSide::Buy => self.asks.len(),
                    OrderSide::Sell => self.bids.len(),
                };
                if opp_len == 0 || order.quantity == 0 {
                    return OrderResponse::Error {
                        message: "No matching orders available".to_string(),
                    };
                }
                let enough = match order.side {
                    OrderSide::Buy => has_liquidity(&self.asks, order.quantity),
                    OrderSide::Sell => has_liquidity(&self.bids, order.quantity),
                };
                if !enough {
                    return OrderResponse::Error {
                        message: "Insufficient liquidity for market order".to_string(),
                    };
                }
                proof {
                    lemma_match_levels_props(
                        pre.opposite_view(o0.side),
                        o0.quantity,
                        None,
                        o0.side,
                        opposite(o0.side),
                    );
                }
                let trades = self.match_market_order(&mut order, now);
                proof {
                    let m = match_levels(pre.opposite_view(o0.side), o0.quantity, None, o0.side);
                    if m.0.len() == 0 {
                        assert(fills_qty(m.0) == 0);
                    }
                }
                OrderResponse::Filled {
                    order_id: order.id,
                    filled_quantity: original_quantity,
                    trades,
                }
            },
            OrderType::LimitOrder => {
                if order.price.is_none() {
                    return OrderResponse::Error {
                        message: "limit order must have price".to_string(),
                    };
                }
                proof {
                    lemma_match_levels_props(
                        pre.opposite_view(o0.side),
                        o0.quantity,
                        Some(o0.price.unwrap()),
                        o0.side,
                        opposite(o0.side),
                    );
                }
                let trades = self.match_limit_order(&mut order, now);
                if order.remaining_quantity > 0 {
                    let order_id = order.id.clone();
                    let remaining = order.remaining_quantity;
                    self.add_to_book(order);
                    if trades.len() == 0 {
                        OrderResponse::Placed { order_id }
                    } else {
                        OrderResponse::PartiallyFilled {
                            order_id,
                            filled_quantity: original_quantity - remaining,
                            remaining_quantity: remaining,
                            trades,
                        }
                    }
                } else {
                    proof {
                        let m = match_levels(
                            pre.opposite_view(o0.side),
                            o0.quantity,
                            Some(o0.price.unwrap()),
                            o0.side,
                        );
                        if m.0.len() == 0 {
                            assert(fills_qty(m.0) == 0);
                        }
                    }
                    OrderResponse::Filled {
                        order_id: order.id,
                        filled_quantity: original_quantity,
                        trades,
                    }
                }
            },
        }
    }
}

} // verus!
