use vstd::prelude::*;
use crate::types::{Order, OrderSide, OrderType, Trade};

verus! {

/// One price level of the book: a FIFO queue of resting limit orders,
/// head (oldest) first, filed under one price key.
pub struct Level {
    pub key: u64,
    pub queue: Vec<Order>,
}

/// One fill produced by matching:
/// (maker price key, traded quantity, maker order id).
pub type Fill = (u64, u64, Seq<char>);

/// Ghost view of one side of the book: (price key, queue) pairs in
/// best-price-first order.
pub open spec fn side_view(levels: Seq<Level>) -> Seq<(u64, Seq<Order>)> {
    levels.map(|_i: int, l: Level| (l.key, l.queue@))
}

/// The side whose liquidity a taker on `taker_side` consumes.
pub open spec fn opposite(taker_side: OrderSide) -> OrderSide {
    match taker_side {
        OrderSide::Buy => OrderSide::Sell,
        OrderSide::Sell => OrderSide::Buy,
    }
}

/// On the bids (resting Buy orders) a higher key is the better price;
/// on the asks (resting Sell orders) a lower key is.
pub open spec fn better_key(book_side: OrderSide, a: u64, b: u64) -> bool {
    match book_side {
        OrderSide::Buy => a > b,
        OrderSide::Sell => a < b,
    }
}

/// A resting order filed under `key` is a live Limit order whose price
/// is the key it is filed under.
pub open spec fn resting_wf(key: u64, o: Order) -> bool {
    &&& o.order_type == OrderType::LimitOrder
    &&& o.price == Some(key)
    &&& 0 < o.remaining_quantity <= o.quantity
}

pub open spec fn queue_wf(key: u64, q: Seq<Order>) -> bool {
    forall|i: int| 0 <= i < q.len() ==> resting_wf(key, #[trigger] q[i])
}

/// One side of the book is well formed: levels strictly ordered best
/// price first, no empty queue (a key is present iff at least one order
/// rests at it), every queue well formed.
pub open spec fn side_wf(book_side: OrderSide, levels: Seq<(u64, Seq<Order>)>) -> bool {
    &&& forall|i: int, j: int|
        0 <= i < j < levels.len() ==> better_key(
            book_side,
            (#[trigger] levels[i]).0,
            (#[trigger] levels[j]).0,
        )
    &&& forall|i: int| 0 <= i < levels.len() ==> (#[trigger] levels[i]).1.len() > 0
    &&& forall|i: int| 0 <= i < levels.len() ==> queue_wf(levels[i].0, (#[trigger] levels[i]).1)
}

/// Total remaining quantity of a queue.
pub open spec fn queue_qty(q: Seq<Order>) -> int
    decreases q.len(),
{
    if q.len() == 0 {
        0
    } else {
        q[0].remaining_quantity + queue_qty(q.skip(1))
    }
}

/// Total remaining quantity of one side of the book.
pub open spec fn side_qty(levels: Seq<(u64, Seq<Order>)>) -> int
    decreases levels.len(),
{
    if levels.len() == 0 {
        0
    } else {
        queue_qty(levels[0].1) + side_qty(levels.skip(1))
    }
}

/// Total remaining quantity resting at `key` (zero when the key is
/// absent; under `side_wf` at most one level carries each key).
pub open spec fn qty_at(levels: Seq<(u64, Seq<Order>)>, key: u64) -> int
    decreases levels.len(),
{
    if levels.len() == 0 {
        0
    } else if levels[0].0 == key {
        queue_qty(levels[0].1) + qty_at(levels.skip(1), key)
    } else {
        qty_at(levels.skip(1), key)
    }
}

/// Total quantity of a run of trades.
pub open spec fn trades_qty(ts: Seq<Trade>) -> int
    decreases ts.len(),
{
    if ts.len() == 0 {
        0
    } else {
        ts[0].quantity + trades_qty(ts.skip(1))
    }
}

/// Total quantity of a run of fills.
pub open spec fn fills_qty(fills: Seq<Fill>) -> int
    decreases fills.len(),
{
    if fills.len() == 0 {
        0
    } else {
        fills[0].1 + fills_qty(fills.skip(1))
    }
}

/// Whether a taker on `taker_side` may trade at maker price `key`: a
/// Limit Buy matches keys at or below its own price, a Limit Sell keys
/// at or above; a Market taker (no limit) matches any key.
pub open spec fn crosses(taker_side: OrderSide, limit: Option<u64>, key: u64) -> bool {
    match limit {
        Option::None => true,
        Option::Some(p) => match taker_side {
            OrderSide::Buy => key <= p,
            OrderSide::Sell => key >= p,
        },
    }
}

/// The same order with its unfilled size replaced.
pub open spec fn with_remaining(o: Order, r: u64) -> Order {
    Order {
        id: o.id,
        user_id: o.user_id,
        side: o.side,
        order_type: o.order_type,
        price: o.price,
        quantity: o.quantity,
        remaining_quantity: r,
        timestamp: o.timestamp,
    }
}

/// Match a taker with `rem` unfilled against one FIFO queue at price
/// `key`. Fills come head first at the maker's price; a partly consumed
/// head maker keeps its place at the head with its remaining reduced.
pub open spec fn match_queue(key: u64, q: Seq<Order>, rem: u64) -> (Seq<Fill>, Seq<Order>, u64)
    decreases q.len(),
{
    if rem == 0 || q.len() == 0 {
        (Seq::<Fill>::empty(), q, rem)
    } else {
        let maker = q[0];
        let mrem = maker.remaining_quantity;
        if mrem > rem {
            (
                seq![(key, rem, maker.id@)],
                q.update(0, with_remaining(maker, (mrem - rem) as u64)),
                0u64,
            )
        } else {
            let r = match_queue(key, q.skip(1), (rem - mrem) as u64);
            (seq![(key, mrem, maker.id@)] + r.0, r.1, r.2)
        }
    }
}

/// Match a taker against one side of the book, walking the levels best
/// price first and stopping at the first level whose key the taker's
/// limit does not cross. Returns the fills in order of emission, the
/// side as it remains, and the taker's unfilled remainder.
pub open spec fn match_levels(
    levels: Seq<(u64, Seq<Order>)>,
    rem: u64,
    limit: Option<u64>,
    taker_side: OrderSide,
) -> (Seq<Fill>, Seq<(u64, Seq<Order>)>, u64)
    decreases levels.len(),
{
    if rem == 0 || levels.len() == 0 || !crosses(taker_side, limit, levels[0].0) {
        (Seq::<Fill>::empty(), levels, rem)
    } else {
        let r0 = match_queue(levels[0].0, levels[0].1, rem);
        let rest = match_levels(levels.skip(1), r0.2, limit, taker_side);
        let after = if r0.1.len() == 0 {
            rest.1
        } else {
            seq![(levels[0].0, r0.1)] + rest.1
        };
        (r0.0 + rest.0, after, rest.2)
    }
}

/// Append `o` at the tail of the queue for `key`, creating the level at
/// its price-ordered position when absent.
pub open spec fn place_order(
    levels: Seq<(u64, Seq<Order>)>,
    book_side: OrderSide,
    key: u64,
    o: Order,
) -> Seq<(u64, Seq<Order>)>
    decreases levels.len(),
{
    if levels.len() == 0 {
        seq![(key, seq![o])]
    } else if key == levels[0].0 {
        levels.update(0, (key, levels[0].1.push(o)))
    } else if better_key(book_side, key, levels[0].0) {
        seq![(key, seq![o])] + levels
    } else {
        seq![levels[0]] + place_order(levels.skip(1), book_side, key, o)
    }
}

/// One side of a snapshot: per level, its key and the sum of remaining
/// quantities, in the book's own (best-first) order.
pub open spec fn snapshot_side(levels: Seq<(u64, Seq<Order>)>) -> Seq<(u64, u128)> {
    levels.map(|_i: int, l: (u64, Seq<Order>)| (l.0, queue_qty(l.1) as u128))
}

/// How one emitted trade reflects one fill of the model: the maker's
/// price and the traded quantity, the maker's id on the maker's side and
/// the taker's id on the taker's, stamped with the engine's clock
/// reading.
pub open spec fn trade_matches_fill(
    t: Trade,
    f: Fill,
    taker_side: OrderSide,
    taker_id: Seq<char>,
    now: u64,
) -> bool {
    &&& t.price == f.0
    &&& t.quantity == f.1
    &&& t.timestamp == now
    &&& match taker_side {
        OrderSide::Buy => t.buy_order_id@ == taker_id && t.sell_order_id@ == f.2,
        OrderSide::Sell => t.sell_order_id@ == taker_id && t.buy_order_id@ == f.2,
    }
}

pub open spec fn trades_match_fills(
    ts: Seq<Trade>,
    fs: Seq<Fill>,
    taker_side: OrderSide,
    taker_id: Seq<char>,
    now: u64,
) -> bool {
    &&& ts.len() == fs.len()
    &&& forall|i: int|
        0 <= i < ts.len() ==> trade_matches_fill(#[trigger] ts[i], fs[i], taker_side, taker_id, now)
}

/// `after` is what a queue may become under matching: a suffix of the
/// original makers, in their original order, with at most the first
/// survivor's remaining quantity reduced (all its other fields kept).
pub open spec fn queue_remnant(q: Seq<Order>, after: Seq<Order>, n: int) -> bool {
    &&& 0 <= n <= q.len()
    &&& after.len() == q.len() - n
    &&& (forall|i: int| 1 <= i < after.len() ==> after[i] == q[n + i])
    &&& (after.len() > 0 ==> after[0] == with_remaining(q[n], after[0].remaining_quantity)
        && after[0].remaining_quantity <= q[n].remaining_quantity)
}

/// `after` is the suffix of `levels` from position `n` on, with the
/// first surviving level's queue reduced to a remnant (at cut `m`) of
/// what it was.
pub open spec fn levels_remnant_at(
    levels: Seq<(u64, Seq<Order>)>,
    after: Seq<(u64, Seq<Order>)>,
    n: int,
    m: int,
) -> bool {
    &&& 0 <= n <= levels.len()
    &&& after.len() == levels.len() - n
    &&& (forall|i: int| 1 <= i < after.len() ==> after[i] == levels[n + i])
    &&& (after.len() > 0 ==> after[0].0 == levels[n].0 && queue_remnant(
        levels[n].1,
        after[0].1,
        m,
    ))
}

/// `after` is what one side may become under matching: a suffix of the
/// original levels with at most the first surviving level's queue
/// reduced to a remnant of what it was.
pub open spec fn levels_remnant(
    levels: Seq<(u64, Seq<Order>)>,
    after: Seq<(u64, Seq<Order>)>,
) -> bool {
    exists|n: int, m: int| levels_remnant_at(levels, after, n, m)
}

} // verus!

use vstd::prelude::*;

verus! {

pub proof fn lemma_queue_qty_nonneg(q: Seq<Order>)
    ensures
        queue_qty(q) >= 0,
    decreases q.len(),
{
    if q.len() > 0 {
        lemma_queue_qty_nonneg(q.skip(1));
    }
}

pub proof fn lemma_side_qty_nonneg(levels: Seq<(u64, Seq<Order>)>)
    ensures
        side_qty(levels) >= 0,
    decreases levels.len(),
{
    if levels.len() > 0 {
        lemma_queue_qty_nonneg(levels[0].1);
        lemma_side_qty_nonneg(levels.skip(1));
    }
}

pub proof fn lemma_fills_qty_append(a: Seq<Fill>, b: Seq<Fill>)
    ensures
        fills_qty(a + b) == fills_qty(a) + fills_qty(b),
    decreases a.len(),
{
    if a.len() == 0 {
        assert(a + b =~= b);
    } else {
        assert((a + b).skip(1) =~= a.skip(1) + b);
        assert((a + b)[0] == a[0]);
        lemma_fills_qty_append(a.skip(1), b);
    }
}

pub proof fn lemma_queue_qty_push(q: Seq<Order>, o: Order)
    ensures
        queue_qty(q.push(o)) == queue_qty(q) + o.remaining_quantity,
    decreases q.len(),
{
    if q.len() == 0 {
        assert(q.push(o).skip(1) =~= Seq::<Order>::empty());
        assert(q.push(o)[0] == o);
        assert(queue_qty(Seq::<Order>::empty()) == 0);
        assert(queue_qty(q.push(o)) == o.remaining_quantity + queue_qty(q.push(o).skip(1)));
    } else {
        assert(q.push(o).skip(1) =~= q.skip(1).push(o));
        assert(q.push(o)[0] == q[0]);
        lemma_queue_qty_push(q.skip(1), o);
        assert(queue_qty(q.push(o)) == q[0].remaining_quantity + queue_qty(q.push(o).skip(1)));
    }
}

pub proof fn lemma_queue_qty_take_step(q: Seq<Order>, j: int)
    requires
        0 <= j < q.len(),
    ensures
        queue_qty(q.take(j + 1)) == queue_qty(q.take(j)) + q[j].remaining_quantity,
    decreases j,
{
    if j == 0 {
        assert(q.take(0) =~= Seq::<Order>::empty());
        assert(q.take(1) =~= seq![q[0]]);
        assert(seq![q[0]].skip(1) =~= Seq::<Order>::empty());
    } else {
        lemma_queue_qty_take_step(q.skip(1), j - 1);
        assert(q.take(j + 1).skip(1) =~= q.skip(1).take(j));
        assert(q.take(j).skip(1) =~= q.skip(1).take(j - 1));
        assert(q.take(j + 1)[0] == q[0]);
        assert(q.take(j)[0] == q[0]);
        assert(q.skip(1)[j - 1] == q[j]);
    }
}

pub proof fn lemma_side_qty_take_step(levels: Seq<(u64, Seq<Order>)>, j: int)
    requires
        0 <= j < levels.len(),
    ensures
        side_qty(levels.take(j + 1)) == side_qty(levels.take(j)) + queue_qty(levels[j].1),
    decreases j,
{
    if j == 0 {
        assert(levels.take(0) =~= Seq::<(u64, Seq<Order>)>::empty());
        assert(levels.take(1) =~= seq![levels[0]]);
        assert(seq![levels[0]].skip(1) =~= Seq::<(u64, Seq<Order>)>::empty());
    } else {
        lemma_side_qty_take_step(levels.skip(1), j - 1);
        assert(levels.take(j + 1).skip(1) =~= levels.skip(1).take(j));
        assert(levels.take(j).skip(1) =~= levels.skip(1).take(j - 1));
        assert(levels.take(j + 1)[0] == levels[0]);
        assert(levels.take(j)[0] == levels[0]);
        assert(levels.skip(1)[j - 1] == levels[j]);
    }
}

} // verus!

verus! {

/// What matching does to one queue: fills account exactly for the
/// taker's progress and the makers' decrements; the taker is left
/// unfilled only when the queue is exhausted; what survives is a
/// well-formed remnant of the original makers.
pub proof fn lemma_match_queue_props(key: u64, q: Seq<Order>, rem: u64)
    requires
        queue_wf(key, q),
    ensures
        ({
            let r = match_queue(key, q, rem);
            &&& fills_qty(r.0) == rem - r.2
            &&& 0 <= r.2 <= rem
            &&& queue_qty(r.1) == queue_qty(q) - fills_qty(r.0)
            &&& (r.2 > 0 ==> r.1.len() == 0)
            &&& queue_wf(key, r.1)
            &&& exists|n: int| queue_remnant(q, r.1, n)
        }),
    decreases q.len(),
{
    let r = match_queue(key, q, rem);
    if rem == 0 || q.len() == 0 {
        assert(fills_qty(Seq::<Fill>::empty()) == 0);
        assert(queue_remnant(q, q, 0));
    } else {
        let maker = q[0];
        let mrem = maker.remaining_quantity;
        if mrem > rem {
            let maker2 = with_remaining(maker, (mrem - rem) as u64);
            let f = (key, rem, maker.id@);
            assert(fills_qty(seq![f]) == rem) by {
                assert(seq![f].skip(1) =~= Seq::<Fill>::empty());
                assert(fills_qty(Seq::<Fill>::empty()) == 0);
            }
            assert(q.update(0, maker2).skip(1) =~= q.skip(1));
            assert(queue_qty(r.1) == maker2.remaining_quantity + queue_qty(q.skip(1)));
            assert(queue_remnant(q, r.1, 0));
            assert forall|i: int| 0 <= i < r.1.len() implies resting_wf(key, #[trigger] r.1[i]) by {
                if i > 0 {
                    assert(r.1[i] == q[i]);
                }
            }
        } else {
            let rem2 = (rem - mrem) as u64;
            lemma_match_queue_props(key, q.skip(1), rem2);
            let r2 = match_queue(key, q.skip(1), rem2);
            let f = (key, mrem, maker.id@);
            assert(r.0 == seq![f] + r2.0);
            lemma_fills_qty_append(seq![f], r2.0);
            assert(fills_qty(seq![f]) == mrem) by {
                assert(seq![f].skip(1) =~= Seq::<Fill>::empty());
                assert(fills_qty(Seq::<Fill>::empty()) == 0);
            }
            let n2 = choose|n: int| queue_remnant(q.skip(1), r2.1, n);
            assert(queue_remnant(q, r.1, n2 + 1)) by {
                assert forall|i: int| 1 <= i < r.1.len() implies r.1[i] == q[n2 + 1 + i] by {
                    assert(r2.1[i] == q.skip(1)[n2 + i]);
                }
                if r.1.len() > 0 {
                    assert(q.skip(1)[n2] == q[n2 + 1]);
                }
            }
        }
    }
}

/// What matching does to one side of the book: conservation of
/// quantity between fills, taker and makers; preservation of the side's
/// well-formedness; the surviving levels are a remnant of the original
/// ones; and a Market taker is fully filled whenever the side holds
/// enough quantity.
pub proof fn lemma_match_levels_props(
    levels: Seq<(u64, Seq<Order>)>,
    rem: u64,
    limit: Option<u64>,
    taker_side: OrderSide,
    book_side: OrderSide,
)
    requires
        side_wf(book_side, levels),
    ensures
        ({
            let r = match_levels(levels, rem, limit, taker_side);
            &&& fills_qty(r.0) == rem - r.2
            &&& 0 <= r.2 <= rem
            &&& side_qty(r.1) == side_qty(levels) - fills_qty(r.0)
            &&& side_wf(book_side, r.1)
            &&& levels_remnant(levels, r.1)
            &&& (limit.is_none() && side_qty(levels) >= rem ==> r.2 == 0)
        }),
    decreases levels.len(),
{
    let r = match_levels(levels, rem, limit, taker_side);
    if rem == 0 || levels.len() == 0 || !crosses(taker_side, limit, levels[0].0) {
        assert(fills_qty(Seq::<Fill>::empty()) == 0);
        assert(levels_remnant(levels, levels)) by {
            if levels.len() > 0 {
                assert(queue_remnant(levels[0].1, levels[0].1, 0));
            }
            assert(levels_remnant_at(levels, levels, 0, 0));
        }
        if limit.is_none() && levels.len() == 0 {
            lemma_side_qty_nonneg(levels);
        }
    } else {
        let key = levels[0].0;
        let q = levels[0].1;
        assert(queue_wf(key, q));
        lemma_match_queue_props(key, q, rem);
        let r0 = match_queue(key, q, rem);
        assert(side_wf(book_side, levels.skip(1))) by {
            assert forall|i: int| 0 <= i < levels.skip(1).len() implies (#[trigger] levels.skip(
                1,
            )[i]).1.len() > 0 && queue_wf(levels.skip(1)[i].0, levels.skip(1)[i].1) by {
                assert(levels.skip(1)[i] == levels[i + 1]);
            }
            assert forall|i: int, j: int| 0 <= i < j < levels.skip(1).len() implies better_key(
                book_side,
                (#[trigger] levels.skip(1)[i]).0,
                (#[trigger] levels.skip(1)[j]).0,
            ) by {
                assert(levels.skip(1)[i] == levels[i + 1]);
                assert(levels.skip(1)[j] == levels[j + 1]);
            }
        }
        lemma_match_levels_props(levels.skip(1), r0.2, limit, taker_side, book_side);
        let rest = match_levels(levels.skip(1), r0.2, limit, taker_side);
        lemma_fills_qty_append(r0.0, rest.0);
        lemma_queue_qty_nonneg(r0.1);
        lemma_side_qty_nonneg(levels.skip(1));
        let n2 = choose|n: int, m: int| levels_remnant_at(levels.skip(1), rest.1, n, m);
        if r0.1.len() > 0 {
            assert(r0.2 == 0);
            assert(rest.0 =~= Seq::<Fill>::empty());
            assert(rest.1 == levels.skip(1));
            assert(r.1 == seq![(key, r0.1)] + rest.1);
            assert(fills_qty(r.0) == fills_qty(r0.0));
            assert(side_qty(r.1) == queue_qty(r0.1) + side_qty(levels.skip(1))) by {
                assert(r.1[0] == (key, r0.1));
                assert(r.1.skip(1) =~= levels.skip(1));
            }
            assert(side_wf(book_side, r.1)) by {
                assert forall|i: int| 0 <= i < r.1.len() implies (#[trigger] r.1[i]).1.len() > 0
                    && queue_wf(r.1[i].0, r.1[i].1) by {
                    if i > 0 {
                        assert(r.1[i] == levels[i]);
                    }
                }
                assert forall|i: int, j: int| 0 <= i < j < r.1.len() implies better_key(
                    book_side,
                    (#[trigger] r.1[i]).0,
                    (#[trigger] r.1[j]).0,
                ) by {
                    assert(j >= 1 && r.1[j] == levels[j]);
                    if i > 0 {
                        assert(r.1[i] == levels[i]);
                    } else {
                        assert(r.1[0].0 == levels[0].0);
                    }
                }
            }
            assert(levels_remnant(levels, r.1)) by {
                let m = choose|n: int| queue_remnant(q, r0.1, n);
                assert(queue_remnant(levels[0].1, r.1[0].1, m));
                assert forall|i: int| 1 <= i < r.1.len() implies r.1[i] == levels[0 + i] by {
                    assert(r.1[i] == levels.skip(1)[i - 1]);
                }
                assert(levels_remnant_at(levels, r.1, 0, m));
            }
        } else {
            assert(queue_qty(r0.1) == 0);
            assert(r.1 == rest.1);
            assert(side_qty(levels) == queue_qty(q) + side_qty(levels.skip(1)));
            assert(levels_remnant(levels, r.1)) by {
                assert(levels_remnant_at(levels.skip(1), rest.1, n2.0, n2.1));
                assert forall|i: int| 1 <= i < r.1.len() implies r.1[i] == levels[n2.0 + 1 + i] by {
                    assert(rest.1[i] == levels.skip(1)[n2.0 + i]);
                }
                if r.1.len() > 0 {
                    assert(levels.skip(1)[n2.0] == levels[n2.0 + 1]);
                }
                assert(levels_remnant_at(levels, r.1, n2.0 + 1, n2.1));
            }
            if limit.is_none() && side_qty(levels) >= rem {
                assert(fills_qty(r0.0) == queue_qty(q));
                assert(side_qty(levels.skip(1)) >= r0.2);
            }
        }
    }
}

} // verus!

verus! {

/// One iteration of matching, as the executable loop performs it: take
/// the head maker of the best crossing level, trade the smaller of the
/// two remainders, and either put the reduced maker back at the head or
/// drop it (and its level, when emptied). The whole match is that fill
/// followed by the match of what is left.
pub proof fn lemma_match_levels_step(
    levels: Seq<(u64, Seq<Order>)>,
    rem: u64,
    limit: Option<u64>,
    taker_side: OrderSide,
)
    requires
        rem > 0,
        levels.len() > 0,
        levels[0].1.len() > 0,
        crosses(taker_side, limit, levels[0].0),
    ensures
        ({
            let key = levels[0].0;
            let q = levels[0].1;
            let maker = q[0];
            let mrem = maker.remaining_quantity;
            let tq: u64 = if mrem > rem { rem } else { mrem };
            let rem2 = (rem - tq) as u64;
            let next = if mrem > rem {
                levels.update(0, (key, q.update(0, with_remaining(maker, (mrem - rem) as u64))))
            } else if q.len() == 1 {
                levels.skip(1)
            } else {
                levels.update(0, (key, q.skip(1)))
            };
            let r = match_levels(levels, rem, limit, taker_side);
            let r2 = match_levels(next, rem2, limit, taker_side);
            &&& r.0 == seq![(key, tq, maker.id@)] + r2.0
            &&& r.1 == r2.1
            &&& r.2 == r2.2
        }),
{
    let key = levels[0].0;
    let q = levels[0].1;
    let maker = q[0];
    let mrem = maker.remaining_quantity;
    let r = match_levels(levels, rem, limit, taker_side);
    let r0 = match_queue(key, q, rem);
    let rest = match_levels(levels.skip(1), r0.2, limit, taker_side);
    if mrem > rem {
        let maker2 = with_remaining(maker, (mrem - rem) as u64);
        let q2 = q.update(0, maker2);
        let next = levels.update(0, (key, q2));
        let f = (key, rem, maker.id@);
        assert(r0 == (seq![f], q2, 0u64));
        assert(rest == (Seq::<Fill>::empty(), levels.skip(1), 0u64));
        assert(r.1 == seq![(key, q2)] + levels.skip(1));
        let r2 = match_levels(next, 0, limit, taker_side);
        assert(r2 == (Seq::<Fill>::empty(), next, 0u64));
        assert(next =~= seq![(key, q2)] + levels.skip(1));
        assert(r.0 =~= seq![f] + r2.0);
    } else {
        let rem2 = (rem - mrem) as u64;
        let f = (key, mrem, maker.id@);
        let rq = match_queue(key, q.skip(1), rem2);
        assert(r0 == (seq![f] + rq.0, rq.1, rq.2));
        if q.len() == 1 {
            let next = levels.skip(1);
            assert(q.skip(1).len() == 0);
            assert(rq == (Seq::<Fill>::empty(), q.skip(1), rem2));
            assert(r0.1.len() == 0);
            assert(r.1 == rest.1 && r.2 == rest.2);
            assert(rq.2 == rem2);
            let r2 = match_levels(next, rem2, limit, taker_side);
            assert(r2 == rest);
            assert(r0.0 =~= seq![f]) by {
                assert(seq![f] + Seq::<Fill>::empty() =~= seq![f]);
            }
            assert(r.0 =~= seq![f] + r2.0);
        } else {
            let qs = q.skip(1);
            let next = levels.update(0, (key, qs));
            let r2 = match_levels(next, rem2, limit, taker_side);
            if rem2 == 0 {
                assert(rq == (Seq::<Fill>::empty(), qs, 0u64));
                assert(r0 == (seq![f] + Seq::<Fill>::empty(), qs, 0u64));
                assert(rest == (Seq::<Fill>::empty(), levels.skip(1), 0u64));
                assert(r.1 == seq![(key, qs)] + levels.skip(1));
                assert(r2 == (Seq::<Fill>::empty(), next, 0u64));
                assert(next =~= seq![(key, qs)] + levels.skip(1));
                assert(r.0 =~= seq![f] + r2.0) by {
                    assert(seq![f] + Seq::<Fill>::empty() =~= seq![f]);
                }
            } else {
                assert(next.len() > 0 && next[0] == (key, qs));
                assert(crosses(taker_side, limit, next[0].0));
                let rq2 = match_queue(key, qs, rem2);
                assert(rq2 == rq);
                assert(next.skip(1) =~= levels.skip(1));
                let rest2 = match_levels(next.skip(1), rq2.2, limit, taker_side);
                assert(rest2 == match_levels(levels.skip(1), rq.2, limit, taker_side));
                assert(rest == match_levels(levels.skip(1), rq.2, limit, taker_side));
                assert(r2.0 == rq.0 + rest.0 && r2.2 == rest.2);
                assert(r.0 == (seq![f] + rq.0) + rest.0);
                assert(r.0 =~= seq![f] + r2.0) by {
                    assert((seq![f] + rq.0) + rest.0 =~= seq![f] + (rq.0 + rest.0));
                }
                assert(r.1 == r2.1) by {
                    assert(r0.1 == rq2.1);
                }
            }
        }
    }
}

} // verus!

verus! {

/// Resting an order keeps the side well formed; every key of the result
/// is the new order's key or one already present.
pub proof fn lemma_place_order_wf(
    levels: Seq<(u64, Seq<Order>)>,
    book_side: OrderSide,
    key: u64,
    o: Order,
)
    requires
        side_wf(book_side, levels),
        resting_wf(key, o),
    ensures
        ({
            let r = place_order(levels, book_side, key, o);
            &&& side_wf(book_side, r)
            &&& forall|t: int|
                0 <= t < r.len() ==> ((#[trigger] r[t]).0 == key || exists|j: int|
                    0 <= j < levels.len() && levels[j].0 == r[t].0)
        }),
    decreases levels.len(),
{
    let r = place_order(levels, book_side, key, o);
    if levels.len() == 0 {
        assert(r == seq![(key, seq![o])]);
        assert(r[0].1 =~= seq![o]);
        assert(queue_wf(key, seq![o]));
    } else if key == levels[0].0 {
        let q2 = levels[0].1.push(o);
        assert(queue_wf(key, q2)) by {
            assert forall|i: int| 0 <= i < q2.len() implies resting_wf(key, #[trigger] q2[i]) by {
                if i < levels[0].1.len() {
                    assert(q2[i] == levels[0].1[i]);
                }
            }
        }
        assert forall|t: int| 0 <= t < r.len() implies ((#[trigger] r[t]).0 == key || exists|j: int|
            0 <= j < levels.len() && levels[j].0 == r[t].0) by {
            if t > 0 {
                assert(r[t] == levels[t]);
            }
        }
        assert(side_wf(book_side, r)) by {
            assert forall|i: int, j: int| 0 <= i < j < r.len() implies better_key(
                book_side,
                (#[trigger] r[i]).0,
                (#[trigger] r[j]).0,
            ) by {
                assert(r[i].0 == levels[i].0 && r[j].0 == levels[j].0);
            }
        }
    } else if better_key(book_side, key, levels[0].0) {
        assert(queue_wf(key, seq![o]));
        assert forall|i: int, j: int| 0 <= i < j < r.len() implies better_key(
            book_side,
            (#[trigger] r[i]).0,
            (#[trigger] r[j]).0,
        ) by {
            assert(r[j] == levels[j - 1]);
            if i > 0 {
                assert(r[i] == levels[i - 1]);
            } else {
                if j > 1 {
                    assert(better_key(book_side, levels[0].0, levels[j - 1].0));
                }
            }
        }
        assert forall|t: int| 0 <= t < r.len() implies ((#[trigger] r[t]).0 == key || exists|j: int|
            0 <= j < levels.len() && levels[j].0 == r[t].0) by {
            if t > 0 {
                assert(r[t] == levels[t - 1]);
            }
        }
    } else {
        assert(side_wf(book_side, levels.skip(1))) by {
            assert forall|i: int| 0 <= i < levels.skip(1).len() implies (#[trigger] levels.skip(
                1,
            )[i]).1.len() > 0 && queue_wf(levels.skip(1)[i].0, levels.skip(1)[i].1) by {
                assert(levels.skip(1)[i] == levels[i + 1]);
            }
            assert forall|i: int, j: int| 0 <= i < j < levels.skip(1).len() implies better_key(
                book_side,
                (#[trigger] levels.skip(1)[i]).0,
                (#[trigger] levels.skip(1)[j]).0,
            ) by {
                assert(levels.skip(1)[i] == levels[i + 1]);
                assert(levels.skip(1)[j] == levels[j + 1]);
            }
        }
        lemma_place_order_wf(levels.skip(1), book_side, key, o);
        let r2 = place_order(levels.skip(1), book_side, key, o);
        assert(r == seq![levels[0]] + r2);
        assert forall|t: int| 0 <= t < r.len() implies ((#[trigger] r[t]).0 == key || exists|j: int|
            0 <= j < levels.len() && levels[j].0 == r[t].0) by {
            if t == 0 {
                assert(levels[0].0 == r[0].0);
            } else {
                assert(r[t] == r2[t - 1]);
                if r2[t - 1].0 != key {
                    let j2 = choose|j: int|
                        0 <= j < levels.skip(1).len() && levels.skip(1)[j].0 == r2[t - 1].0;
                    assert(levels[j2 + 1].0 == r[t].0);
                }
            }
        }
        assert(side_wf(book_side, r)) by {
            assert forall|i: int| 0 <= i < r.len() implies (#[trigger] r[i]).1.len() > 0
                && queue_wf(r[i].0, r[i].1) by {
                if i > 0 {
                    assert(r[i] == r2[i - 1]);
                }
            }
            assert forall|i: int, j: int| 0 <= i < j < r.len() implies better_key(
                book_side,
                (#[trigger] r[i]).0,
                (#[trigger] r[j]).0,
            ) by {
                if i > 0 {
                    assert(r[i] == r2[i - 1] && r[j] == r2[j - 1]);
                } else {
                    assert(r[j] == r2[j - 1]);
                    if r2[j - 1].0 == key {
                        assert(!better_key(book_side, key, levels[0].0) && key != levels[0].0);
                    } else {
                        let j2 = choose|t: int|
                            0 <= t < levels.skip(1).len() && levels.skip(1)[t].0 == r2[j - 1].0;
                        assert(better_key(book_side, levels[0].0, levels[j2 + 1].0));
                    }
                }
            }
        }
    }
}

/// Where the executable insertion scan ends up: with every earlier key
/// better than `key` and the key at `i` (if any) not better, resting the
/// order either appends to the queue at `i` or splices a fresh level in
/// at `i`.
pub proof fn lemma_place_order_at(
    levels: Seq<(u64, Seq<Order>)>,
    book_side: OrderSide,
    key: u64,
    o: Order,
    i: int,
)
    requires
        0 <= i <= levels.len(),
        forall|j: int| 0 <= j < i ==> better_key(book_side, (#[trigger] levels[j]).0, key),
        i < levels.len() ==> !better_key(book_side, levels[i].0, key),
    ensures
        place_order(levels, book_side, key, o) == (if i < levels.len() && levels[i].0 == key {
            levels.update(i, (key, levels[i].1.push(o)))
        } else {
            levels.take(i) + seq![(key, seq![o])] + levels.skip(i)
        }),
    decreases levels.len(),
{
    let r = place_order(levels, book_side, key, o);
    if levels.len() == 0 {
        assert(levels.take(0) =~= Seq::<(u64, Seq<Order>)>::empty());
        assert(levels.skip(0) =~= Seq::<(u64, Seq<Order>)>::empty());
        assert(r =~= levels.take(i) + seq![(key, seq![o])] + levels.skip(i));
    } else if i == 0 {
        if key == levels[0].0 {
            assert(r == levels.update(0, (key, levels[0].1.push(o))));
        } else {
            assert(better_key(book_side, key, levels[0].0));
            assert(levels.take(0) =~= Seq::<(u64, Seq<Order>)>::empty());
            assert(levels.skip(0) =~= levels);
            assert(r =~= levels.take(0) + seq![(key, seq![o])] + levels.skip(0));
        }
    } else {
        assert(better_key(book_side, levels[0].0, key));
        assert(key != levels[0].0 && !better_key(book_side, key, levels[0].0));
        assert forall|j: int| 0 <= j < i - 1 implies better_key(
            book_side,
            (#[trigger] levels.skip(1)[j]).0,
            key,
        ) by {
            assert(levels.skip(1)[j] == levels[j + 1]);
        }
        if i - 1 < levels.skip(1).len() {
            assert(levels.skip(1)[i - 1] == levels[i]);
        }
        lemma_place_order_at(levels.skip(1), book_side, key, o, i - 1);
        let r2 = place_order(levels.skip(1), book_side, key, o);
        assert(r == seq![levels[0]] + r2);
        if i < levels.len() && levels[i].0 == key {
            assert(r2 == levels.skip(1).update(i - 1, (key, levels.skip(1)[i - 1].1.push(o))));
            assert(r =~= levels.update(i, (key, levels[i].1.push(o))));
        } else {
            assert(r2 == levels.skip(1).take(i - 1) + seq![(key, seq![o])] + levels.skip(1).skip(
                i - 1,
            ));
            assert(levels.skip(1).take(i - 1) =~= levels.take(i).skip(1));
            assert(levels.skip(1).skip(i - 1) =~= levels.skip(i));
            assert(r =~= levels.take(i) + seq![(key, seq![o])] + levels.skip(i));
        }
    }
}

/// Resting an order adds exactly its remaining quantity at its own
/// price level and changes no other level's total.
pub proof fn lemma_qty_at_place(
    levels: Seq<(u64, Seq<Order>)>,
    book_side: OrderSide,
    key: u64,
    o: Order,
)
    ensures
        qty_at(place_order(levels, book_side, key, o), key) == qty_at(levels, key)
            + o.remaining_quantity,
        forall|k: u64|
            k != key ==> qty_at(place_order(levels, book_side, key, o), k) == qty_at(levels, k),
    decreases levels.len(),
{
    let r = place_order(levels, book_side, key, o);
    assert forall|k: u64| k != key implies qty_at(r, k) == qty_at(levels, k) by {
        lemma_qty_at_place_other(levels, book_side, key, o, k);
    }
    if levels.len() == 0 {
        assert(r == seq![(key, seq![o])]);
        assert(r.skip(1) =~= Seq::<(u64, Seq<Order>)>::empty());
        assert(queue_qty(seq![o]) == o.remaining_quantity) by {
            assert(seq![o].skip(1) =~= Seq::<Order>::empty());
            assert(queue_qty(Seq::<Order>::empty()) == 0);
            assert(seq![o][0] == o);
            assert(queue_qty(seq![o]) == o.remaining_quantity + queue_qty(seq![o].skip(1)));
        }
        assert(qty_at(r, key) == queue_qty(seq![o]) + qty_at(r.skip(1), key));
    } else if key == levels[0].0 {
        lemma_queue_qty_push(levels[0].1, o);
        assert(r.skip(1) =~= levels.skip(1));
        assert(r[0] == (key, levels[0].1.push(o)));
    } else if better_key(book_side, key, levels[0].0) {
        assert(r[0] == (key, seq![o]));
        assert(r.skip(1) =~= levels);
        assert(queue_qty(seq![o]) == o.remaining_quantity) by {
            assert(seq![o].skip(1) =~= Seq::<Order>::empty());
            assert(queue_qty(Seq::<Order>::empty()) == 0);
            assert(seq![o][0] == o);
            assert(queue_qty(seq![o]) == o.remaining_quantity + queue_qty(seq![o].skip(1)));
        }
    } else {
        lemma_qty_at_place(levels.skip(1), book_side, key, o);
        assert(r[0] == levels[0]);
        assert(r.skip(1) =~= place_order(levels.skip(1), book_side, key, o));
    }
}


/// Resting an order leaves every other level's total unchanged.
pub proof fn lemma_qty_at_place_other(
    levels: Seq<(u64, Seq<Order>)>,
    book_side: OrderSide,
    key: u64,
    o: Order,
    k: u64,
)
    requires
        k != key,
    ensures
        qty_at(place_order(levels, book_side, key, o), k) == qty_at(levels, k),
    decreases levels.len(),
{
    let r = place_order(levels, book_side, key, o);
    if levels.len() == 0 {
        assert(r == seq![(key, seq![o])]);
        assert(r.skip(1) =~= Seq::<(u64, Seq<Order>)>::empty());
        assert(qty_at(r, k) == qty_at(r.skip(1), k));
    } else if key == levels[0].0 {
        assert(r.skip(1) =~= levels.skip(1));
        assert(r[0] == (key, levels[0].1.push(o)));
        assert(qty_at(r, k) == qty_at(r.skip(1), k));
    } else if better_key(book_side, key, levels[0].0) {
        assert(r[0] == (key, seq![o]));
        assert(r.skip(1) =~= levels);
        assert(qty_at(r, k) == qty_at(r.skip(1), k));
    } else {
        lemma_qty_at_place_other(levels.skip(1), book_side, key, o, k);
        assert(r[0] == levels[0]);
        assert(r.skip(1) =~= place_order(levels.skip(1), book_side, key, o));
    }
}


/// A queue stays well formed when its head is replaced by another
/// well-formed resting order, or dropped.
pub proof fn lemma_queue_wf_head(key: u64, q: Seq<Order>, o: Order)
    requires
        queue_wf(key, q),
        q.len() > 0,
        resting_wf(key, o),
    ensures
        queue_wf(key, q.update(0, o)),
        queue_wf(key, q.skip(1)),
{
    assert forall|i: int| 0 <= i < q.update(0, o).len() implies resting_wf(
        key,
        #[trigger] q.update(0, o)[i],
    ) by {
        if i > 0 {
            assert(q.update(0, o)[i] == q[i]);
        }
    }
    assert forall|i: int| 0 <= i < q.skip(1).len() implies resting_wf(
        key,
        #[trigger] q.skip(1)[i],
    ) by {
        assert(q.skip(1)[i] == q[i + 1]);
    }
}

/// One side stays well formed when its best level's queue is replaced
/// by a non-empty well-formed one, or the best level is dropped.
pub proof fn lemma_side_wf_head(levels: Seq<(u64, Seq<Order>)>, book_side: OrderSide, q2: Seq<Order>)
    requires
        side_wf(book_side, levels),
        levels.len() > 0,
        queue_wf(levels[0].0, q2),
    ensures
        q2.len() > 0 ==> side_wf(book_side, levels.update(0, (levels[0].0, q2))),
        side_wf(book_side, levels.skip(1)),
{
    let u = levels.update(0, (levels[0].0, q2));
    if q2.len() > 0 {
        assert forall|i: int| 0 <= i < u.len() implies (#[trigger] u[i]).1.len() > 0 && queue_wf(
            u[i].0,
            u[i].1,
        ) by {
            if i > 0 {
                assert(u[i] == levels[i]);
            }
        }
        assert forall|i: int, j: int| 0 <= i < j < u.len() implies better_key(
            book_side,
            (#[trigger] u[i]).0,
            (#[trigger] u[j]).0,
        ) by {
            assert(u[i].0 == levels[i].0 && u[j].0 == levels[j].0);
        }
    }
    assert forall|i: int| 0 <= i < levels.skip(1).len() implies (#[trigger] levels.skip(
        1,
    )[i]).1.len() > 0 && queue_wf(levels.skip(1)[i].0, levels.skip(1)[i].1) by {
        assert(levels.skip(1)[i] == levels[i + 1]);
    }
    assert forall|i: int, j: int| 0 <= i < j < levels.skip(1).len() implies better_key(
        book_side,
        (#[trigger] levels.skip(1)[i]).0,
        (#[trigger] levels.skip(1)[j]).0,
    ) by {
        assert(levels.skip(1)[i] == levels[i + 1]);
        assert(levels.skip(1)[j] == levels[j + 1]);
    }
}

} // verus!
