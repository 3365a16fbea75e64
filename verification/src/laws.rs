use vstd::prelude::*;
use crate::model::{
    crosses, fills_qty, lemma_match_levels_props, lemma_qty_at_place, levels_remnant, match_levels,
    match_queue, place_order, qty_at, side_qty, side_wf, trade_matches_fill, trades_match_fills,
    trades_qty, with_remaining, Fill,
};
use crate::types::{Order, OrderSide, Trade};

verus! {

/// Quantity conservation: the fills of one match account exactly for
/// the taker's progress (their total is the taker's quantity less its
/// remainder, so never more than it brought) and for the makers'
/// decrements (the side loses exactly the filled total).
pub proof fn lemma_quantity_conservation(
    levels: Seq<(u64, Seq<Order>)>,
    rem: u64,
    limit: Option<u64>,
    taker_side: OrderSide,
    book_side: OrderSide,
)
    requires
        side_wf(book_side, levels),
    ensures
        ({
            let m = match_levels(levels, rem, limit, taker_side);
            &&& fills_qty(m.0) == rem - m.2
            &&& fills_qty(m.0) <= rem
            &&& side_qty(levels) - side_qty(m.1) == fills_qty(m.0)
        }),
{
    lemma_match_levels_props(levels, rem, limit, taker_side, book_side);
}

/// Monotone remaining: matching only ever lowers remaining quantities.
/// The taker keeps at most what it brought, and the surviving makers
/// are a suffix of the original ones, in their original order, with at
/// most the first survivor's remaining reduced and no other field of
/// any maker changed.
pub proof fn lemma_monotone_remaining(
    levels: Seq<(u64, Seq<Order>)>,
    rem: u64,
    limit: Option<u64>,
    taker_side: OrderSide,
    book_side: OrderSide,
)
    requires
        side_wf(book_side, levels),
    ensures
        ({
            let m = match_levels(levels, rem, limit, taker_side);
            &&& m.2 <= rem
            &&& levels_remnant(levels, m.1)
        }),
{
    lemma_match_levels_props(levels, rem, limit, taker_side, book_side);
}

/// A Limit order that cannot match — empty opposite side, or a best
/// opposite price its own price does not cross — matches nothing: no
/// fills, the opposite side untouched, the order's full quantity left.
/// Resting it then adds exactly its quantity at its own price level and
/// changes no other level's total, which is what the next snapshot
/// shows.
pub proof fn lemma_unmatchable_limit_rests(
    opp: Seq<(u64, Seq<Order>)>,
    same: Seq<(u64, Seq<Order>)>,
    o: Order,
    p: u64,
)
    requires
        o.price == Some(p),
        o.quantity > 0,
        opp.len() > 0 ==> !crosses(o.side, Some(p), opp[0].0),
    ensures
        ({
            let m = match_levels(opp, o.quantity, Some(p), o.side);
            &&& m.0 == Seq::<Fill>::empty()
            &&& m.1 == opp
            &&& m.2 == o.quantity
        }),
        qty_at(place_order(same, o.side, p, with_remaining(o, o.quantity)), p) == qty_at(same, p)
            + o.quantity,
        forall|k: u64|
            k != p ==> qty_at(place_order(same, o.side, p, with_remaining(o, o.quantity)), k)
                == qty_at(same, k),
{
    lemma_qty_at_place(same, o.side, p, with_remaining(o, o.quantity));
}

/// A self-matching pair: with a Buy Limit at price `p` for quantity
/// `q` resting alone on the bids, a Sell Limit at `p` for `q` fills
/// completely in one fill of exactly `(p, q)` against that Buy, and
/// nothing is left on the side. With `add_order`'s contract this is the
/// pair Placed-then-Filled, one trade, both sides empty.
pub proof fn lemma_self_match_pair(buy: Order, p: u64, q: u64)
    requires
        buy.side == OrderSide::Buy,
        buy.price == Some(p),
        buy.quantity == q,
        buy.remaining_quantity == q,
        q > 0,
    ensures
        place_order(Seq::<(u64, Seq<Order>)>::empty(), OrderSide::Buy, p, buy) == seq![
            (p, seq![buy]),
        ],
        ({
            let m = match_levels(seq![(p, seq![buy])], q, Some(p), OrderSide::Sell);
            &&& m.0 == seq![(p, q, buy.id@)]
            &&& m.1 == Seq::<(u64, Seq<Order>)>::empty()
            &&& m.2 == 0
        }),
{
    let bids = seq![(p, seq![buy])];
    assert(crosses(OrderSide::Sell, Some(p), p));
    assert(seq![buy].skip(1) =~= Seq::<Order>::empty());
    let rq = match_queue(p, seq![buy].skip(1), 0);
    assert(rq == (Seq::<Fill>::empty(), Seq::<Order>::empty(), 0u64));
    let r0 = match_queue(p, seq![buy], q);
    assert(r0.0 =~= seq![(p, q, buy.id@)]) by {
        assert(seq![(p, q, buy.id@)] + Seq::<Fill>::empty() =~= seq![(p, q, buy.id@)]);
    }
    assert(r0.1.len() == 0 && r0.2 == 0);
    assert(bids.skip(1) =~= Seq::<(u64, Seq<Order>)>::empty());
    let rest = match_levels(bids.skip(1), 0, Some(p), OrderSide::Sell);
    assert(rest == (Seq::<Fill>::empty(), Seq::<(u64, Seq<Order>)>::empty(), 0u64));
    let m = match_levels(bids, q, Some(p), OrderSide::Sell);
    assert(m.0 =~= seq![(p, q, buy.id@)]) by {
        assert(r0.0 + Seq::<Fill>::empty() =~= r0.0);
    }
    assert(m.1 == rest.1 && m.2 == 0);
}


/// Trades mirror fills one for one, so the total traded quantity is
/// the total filled quantity; with quantity conservation this bounds
/// the trades of one match by what the taker brought.
pub proof fn lemma_trades_qty_matches_fills(
    ts: Seq<Trade>,
    fs: Seq<Fill>,
    taker_side: OrderSide,
    taker_id: Seq<char>,
    now: u64,
)
    requires
        trades_match_fills(ts, fs, taker_side, taker_id, now),
    ensures
        trades_qty(ts) == fills_qty(fs),
    decreases ts.len(),
{
    if ts.len() > 0 {
        assert forall|i: int| 0 <= i < ts.skip(1).len() implies trade_matches_fill(
            #[trigger] ts.skip(1)[i],
            fs.skip(1)[i],
            taker_side,
            taker_id,
            now,
        ) by {
            assert(ts.skip(1)[i] == ts[i + 1]);
            assert(fs.skip(1)[i] == fs[i + 1]);
        }
        lemma_trades_qty_matches_fills(ts.skip(1), fs.skip(1), taker_side, taker_id, now);
        assert(ts[0].quantity == fs[0].1);
    }
}

} // verus!
