use vstd::prelude::*;
use crate::book::{
    all_positive, crosses, filled, ids_distinct, levels, limit_of, lemma_sweep, rest_into, slot,
    side_sorted, submitted, sweep, uncrossed, fill_units, Fill, OrderBook,
};
use crate::order::{Order, OrderSide, OrderType, Trade, TICKS_PER_UNIT};

verus! {

/// Total quantity of a sequence of trades.
pub open spec fn traded(trades: Seq<Trade>) -> nat
    decreases trades.len(),
{
    if trades.len() == 0 {
        0
    } else {
        (trades[0].quantity + traded(trades.drop_first())) as nat
    }
}

/// Volume in whole units of a sequence of trades: each trade's quantity
/// truncated to whole units, summed.
pub open spec fn traded_units(trades: Seq<Trade>) -> nat
    decreases trades.len(),
{
    if trades.len() == 0 {
        0
    } else {
        (traded_units(trades.drop_last()) + trades.last().quantity / TICKS_PER_UNIT) as nat
    }
}

proof fn lemma_traded_units(trades: Seq<Trade>, fills: Seq<Fill>)
    requires
        trades.len() == fills.len(),
        forall|i: int| 0 <= i < trades.len() ==> trades[i].quantity == fills[i].quantity,
    ensures
        traded_units(trades) == fill_units(fills),
    decreases trades.len(),
{
    if trades.len() > 0 {
        let t = trades.drop_last();
        let f = fills.drop_last();
        assert forall|i: int| 0 <= i < t.len() implies t[i].quantity == f[i].quantity by {
            assert(t[i] == trades[i]);
            assert(f[i] == fills[i]);
        }
        lemma_traded_units(t, f);
    }
}

proof fn lemma_traded_filled(trades: Seq<Trade>, fills: Seq<Fill>)
    requires
        trades.len() == fills.len(),
        forall|i: int| 0 <= i < trades.len() ==> trades[i].quantity == fills[i].quantity,
    ensures
        traded(trades) == filled(fills),
    decreases trades.len(),
{
    if trades.len() > 0 {
        let t = trades.drop_first();
        let f = fills.drop_first();
        assert forall|i: int| 0 <= i < t.len() implies t[i].quantity == f[i].quantity by {
            assert(t[i] == trades[i + 1]);
            assert(f[i] == fills[i + 1]);
        }
        lemma_traded_filled(t, f);
    }
}

/// A well-formed book is never crossed: the best bid is strictly below the
/// best ask whenever both exist. Every operation of the book keeps it
/// well-formed, so this holds after any sequence of submits.
pub proof fn lemma_never_crossed(b: &OrderBook)
    requires
        b.wf(),
    ensures
        match (b.best_bid_spec(), b.best_ask_spec()) {
            (Some(x), Some(y)) => x < y,
            _ => true,
        },
{
    b.lemma_book_invariants();
}

/// Every price level of a side holds at least one order and a positive
/// quantity, so a level is listed exactly when its queue is non-empty.
pub proof fn lemma_levels_nonempty(s: Seq<Order>)
    requires
        all_positive(s),
    ensures
        forall|j: int| 0 <= j < levels(s).len() ==> levels(s)[j].2 >= 1 && levels(s)[j].1 >= 1,
    decreases s.len(),
{
    if s.len() > 0 {
        let t = s.drop_last();
        assert forall|i: int| 0 <= i < t.len() implies t[i].quantity > 0 by {
            assert(t[i] == s[i]);
        }
        lemma_levels_nonempty(t);
        let r = levels(t);
        let o = s.last();
        assert(o.quantity > 0);
        if r.len() > 0 && r.last().0 == o.price {
            assert(levels(s) == r.update(r.len() - 1, (o.price, (r.last().1 + o.quantity) as nat, r.last().2 + 1)));
        } else {
            assert(levels(s) == r.push((o.price, o.quantity as nat, 1nat)));
        }
    }
}

/// On a well-formed book each resting order id stands at exactly one place
/// of the two queues, so a lookup by id finds one order.
pub proof fn lemma_resting_ids_unique(b: &OrderBook, i: int, j: int)
    requires
        b.wf(),
        0 <= i < (b.bid_queue() + b.ask_queue()).len(),
        0 <= j < (b.bid_queue() + b.ask_queue()).len(),
        (b.bid_queue() + b.ask_queue())[i].id == (b.bid_queue() + b.ask_queue())[j].id,
    ensures
        i == j,
{
    b.lemma_book_invariants();
    let all = b.bid_queue() + b.ask_queue();
    let n = b.bid_queue().len() as int;
    if i != j {
        if i < n && j < n {
            assert(all[i] == b.bid_queue()[i] && all[j] == b.bid_queue()[j]);
        } else if i >= n && j >= n {
            assert(all[i] == b.ask_queue()[i - n] && all[j] == b.ask_queue()[j - n]);
        } else if i < n {
            assert(all[i] == b.bid_queue()[i] && all[j] == b.ask_queue()[j - n]);
        } else {
            assert(all[j] == b.bid_queue()[j] && all[i] == b.ask_queue()[i - n]);
        }
    }
}

/// A submit conserves quantity: what was traded plus what is left (rested
/// for a limit order, discarded for a market order) is what was submitted;
/// the book's filled lots grow by exactly what was traded, and its volume
/// by each trade's quantity truncated to whole units.
pub proof fn lemma_submit_conserves(pre: OrderBook, post: OrderBook, order: Order, trades: Seq<Trade>)
    requires
        pre.wf(),
        pre.admits(order),
        submitted(pre, post, order, trades),
    ensures
        ({
            let left = sweep(pre.opposite_queue(order.side), order.side, limit_of(order), order.quantity as nat).2;
            &&& traded(trades) + left == order.quantity
            &&& post.lots_filled() == pre.lots_filled() + traded(trades)
            &&& post.volume_units() == pre.volume_units() + traded_units(trades)
            &&& order.order_type == OrderType::Limit && left > 0 ==> post.own_queue(order.side)
                == rest_into(pre.own_queue(order.side), order.side == OrderSide::Buy, order.with_quantity(left as u64))
            &&& order.order_type == OrderType::Market ==> post.own_queue(order.side) == pre.own_queue(order.side)
        }),
{
    pre.lemma_book_invariants();
    let s = sweep(pre.opposite_queue(order.side), order.side, limit_of(order), order.quantity as nat);
    lemma_sweep(pre.opposite_queue(order.side), order.side, limit_of(order), order.quantity as nat);
    lemma_traded_filled(trades, s.0);
    lemma_traded_units(trades, s.0);
}

/// The trades of a submit are numbered consecutively from the book's trade
/// counter, which moves past them, so trade ids only increase.
pub proof fn lemma_trade_ids_increase(pre: OrderBook, post: OrderBook, order: Order, trades: Seq<Trade>)
    requires
        pre.wf(),
        pre.admits(order),
        submitted(pre, post, order, trades),
    ensures
        forall|i: int, j: int| 0 <= i < j < trades.len() ==> trades[i].id < trades[j].id,
        forall|i: int| 0 <= i < trades.len() ==> pre.trade_counter() <= #[trigger] trades[i].id < post.trade_counter(),
        pre.trade_counter() <= post.trade_counter(),
{
    pre.lemma_book_invariants();
    lemma_sweep(pre.opposite_queue(order.side), order.side, limit_of(order), order.quantity as nat);
}

/// The i-th trade of a submit is against the i-th resting order of the
/// opposite side, in priority order, at that maker's price, never at the
/// aggressor's limit unless the two are equal; so within a price level the
/// makers trade in order of admission.
pub proof fn lemma_trades_hit_makers_in_order(pre: OrderBook, post: OrderBook, order: Order, trades: Seq<Trade>)
    requires
        pre.wf(),
        pre.admits(order),
        submitted(pre, post, order, trades),
    ensures
        ({
            let makers = pre.opposite_queue(order.side);
            &&& trades.len() <= makers.len()
            &&& forall|i: int|
                0 <= i < trades.len() ==> trades[i].price == makers[i].price
                    && (if order.side == OrderSide::Buy {
                    trades[i].sell_order_id == makers[i].id && trades[i].buy_order_id == order.id
                } else {
                    trades[i].buy_order_id == makers[i].id && trades[i].sell_order_id == order.id
                })
                    && crosses(order.side, limit_of(order), makers[i].price)
            &&& forall|i: int, j: int|
                0 <= i < j < trades.len() && trades[i].price == trades[j].price ==> makers[i].timestamp
                    <= makers[j].timestamp && makers[i].id < makers[j].id
        }),
{
    pre.lemma_book_invariants();
    let makers = pre.opposite_queue(order.side);
    lemma_sweep(makers, order.side, limit_of(order), order.quantity as nat);
    assert(side_sorted(makers, order.side != OrderSide::Buy));
}

/// The total quantity resting at tick `p` on a side: the size of that
/// price level.
pub open spec fn qty_at(s: Seq<Order>, p: u64) -> nat
    decreases s.len(),
{
    if s.len() == 0 {
        0
    } else {
        ((if s[0].price == p {
            s[0].quantity as nat
        } else {
            0nat
        }) + qty_at(s.drop_first(), p)) as nat
    }
}

proof fn lemma_qty_at_insert(s: Seq<Order>, k: int, o: Order, p: u64)
    requires
        0 <= k <= s.len(),
    ensures
        qty_at(s.insert(k, o), p) == qty_at(s, p) + (if o.price == p {
            o.quantity as nat
        } else {
            0nat
        }),
    decreases k,
{
    if k == 0 {
        assert(s.insert(0, o).drop_first() =~= s);
    } else {
        assert(s.insert(k, o).drop_first() =~= s.drop_first().insert(k - 1, o));
        lemma_qty_at_insert(s.drop_first(), k - 1, o, p);
    }
}

proof fn lemma_slot_bound(s: Seq<Order>, is_bid: bool, price: u64)
    ensures
        slot(s, is_bid, price) <= s.len(),
    decreases s.len(),
{
    if s.len() > 0 {
        lemma_slot_bound(s.drop_first(), is_bid, price);
    }
}

/// A limit order that crosses nothing (the opposite side is empty, or its
/// best price is strictly worse than the limit) trades nothing and rests
/// whole at the tail of its price level.
pub proof fn lemma_passive_limit_rests(pre: OrderBook, post: OrderBook, order: Order, trades: Seq<Trade>)
    requires
        pre.wf(),
        pre.admits(order),
        order.order_type == OrderType::Limit,
        pre.opposite_queue(order.side).len() == 0 || !crosses(
            order.side,
            Some(order.price),
            pre.opposite_queue(order.side)[0].price,
        ),
        submitted(pre, post, order, trades),
    ensures
        trades.len() == 0,
        post.opposite_queue(order.side) == pre.opposite_queue(order.side),
        post.own_queue(order.side) == rest_into(pre.own_queue(order.side), order.side == OrderSide::Buy, order),
        qty_at(post.own_queue(order.side), order.price) == qty_at(pre.own_queue(order.side), order.price)
            + order.quantity,
        forall|p: u64| p != order.price ==> #[trigger] qty_at(post.own_queue(order.side), p) == qty_at(
            pre.own_queue(order.side),
            p,
        ),
{
    assert(order.with_quantity(order.quantity) == order);
    let own = pre.own_queue(order.side);
    let is_bid = order.side == OrderSide::Buy;
    lemma_slot_bound(own, is_bid, order.price);
    lemma_qty_at_insert(own, slot(own, is_bid, order.price) as int, order, order.price);
    assert forall|p: u64| p != order.price implies #[trigger] qty_at(post.own_queue(order.side), p)
        == qty_at(own, p) by {
        lemma_qty_at_insert(own, slot(own, is_bid, order.price) as int, order, p);
    }
}

/// A market order against an empty opposite side trades nothing and leaves
/// the book's queues as they were.
pub proof fn lemma_market_on_empty_side(pre: OrderBook, post: OrderBook, order: Order, trades: Seq<Trade>)
    requires
        pre.wf(),
        pre.admits(order),
        order.order_type == OrderType::Market,
        pre.opposite_queue(order.side).len() == 0,
        submitted(pre, post, order, trades),
    ensures
        trades.len() == 0,
        post.opposite_queue(order.side) == pre.opposite_queue(order.side),
        post.own_queue(order.side) == pre.own_queue(order.side),
{
}

/// When the aggressor meets a best resting order of exactly its quantity,
/// one trade fills both: the maker leaves the book and nothing rests.
pub proof fn lemma_exact_match(pre: OrderBook, post: OrderBook, order: Order, trades: Seq<Trade>)
    requires
        pre.wf(),
        pre.admits(order),
        pre.opposite_queue(order.side).len() > 0,
        pre.opposite_queue(order.side)[0].quantity == order.quantity,
        crosses(order.side, limit_of(order), pre.opposite_queue(order.side)[0].price),
        submitted(pre, post, order, trades),
    ensures
        trades.len() == 1,
        trades[0].quantity == order.quantity,
        post.opposite_queue(order.side) == pre.opposite_queue(order.side).drop_first(),
        post.own_queue(order.side) == pre.own_queue(order.side),
{
    let makers = pre.opposite_queue(order.side);
    let tail = makers.drop_first();
    assert(sweep(tail, order.side, limit_of(order), 0) == (Seq::<Fill>::empty(), tail, 0nat));
}

} // verus!
