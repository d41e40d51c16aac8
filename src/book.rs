use vstd::prelude::*;
use crate::order::{Order, OrderSide, OrderType, Trade, TICKS_PER_UNIT};
use crate::queue::{OrderQueue, queue_get, queue_insert, queue_items, queue_len, queue_new, queue_remove};

verus! {

/// One execution against a resting order, before it is numbered as a trade.
pub struct Fill {
    pub maker_id: u64,
    pub price: u64,
    pub quantity: u64,
}

/// Whether a resting order at `maker_price` may trade with an aggressor on
/// `taker` whose limit is `limit` (`None` for a market order). Equal prices
/// match.
pub open spec fn crosses(taker: OrderSide, limit: Option<u64>, maker_price: u64) -> bool {
    match limit {
        None => true,
        Some(l) => match taker {
            OrderSide::Buy => maker_price <= l,
            OrderSide::Sell => maker_price >= l,
        },
    }
}

/// Walks the opposite side `makers`, best first, with `qty` lots to fill.
/// Returns the fills in order, what is left of the side, and the unfilled
/// quantity of the aggressor.
pub open spec fn sweep(makers: Seq<Order>, taker: OrderSide, limit: Option<u64>, qty: nat) -> (
    Seq<Fill>,
    Seq<Order>,
    nat,
)
    decreases makers.len(),
{
    if qty == 0 || makers.len() == 0 || !crosses(taker, limit, makers[0].price) {
        (Seq::empty(), makers, qty)
    } else if makers[0].quantity <= qty {
        let r = sweep(makers.drop_first(), taker, limit, (qty - makers[0].quantity) as nat);
        (
            seq![Fill { maker_id: makers[0].id, price: makers[0].price, quantity: makers[0].quantity }]
                + r.0,
            r.1,
            r.2,
        )
    } else {
        (
            seq![Fill { maker_id: makers[0].id, price: makers[0].price, quantity: qty as u64 }],
            makers.update(0, makers[0].with_quantity((makers[0].quantity - qty) as u64)),
            0,
        )
    }
}

/// The trade that records `f`, numbered `id`, for the aggressor `taker_id`.
pub open spec fn trade_of(
    f: Fill,
    id: int,
    taker_id: u64,
    taker: OrderSide,
    symbol: String,
    timestamp: u64,
) -> Trade {
    Trade {
        id: id as u64,
        symbol,
        buy_order_id: if taker == OrderSide::Buy { taker_id } else { f.maker_id },
        sell_order_id: if taker == OrderSide::Buy { f.maker_id } else { taker_id },
        price: f.price,
        quantity: f.quantity,
        timestamp,
    }
}

pub open spec fn all_positive(s: Seq<Order>) -> bool {
    forall|i: int| 0 <= i < s.len() ==> s[i].quantity > 0
}

/// Total quantity of a sequence of fills.
pub open spec fn filled(fills: Seq<Fill>) -> nat
    decreases fills.len(),
{
    if fills.len() == 0 {
        0
    } else {
        (fills[0].quantity + filled(fills.drop_first())) as nat
    }
}

/// Traded volume in whole units of a sequence of fills: each fill's
/// quantity truncated to whole units, summed.
pub open spec fn fill_units(fills: Seq<Fill>) -> nat
    decreases fills.len(),
{
    if fills.len() == 0 {
        0
    } else {
        (fill_units(fills.drop_last()) + fills.last().quantity / TICKS_PER_UNIT) as nat
    }
}

proof fn lemma_sweep_step(makers: Seq<Order>, taker: OrderSide, limit: Option<u64>, qty: nat)
    requires
        qty > 0,
        makers.len() > 0,
        crosses(taker, limit, makers[0].price),
    ensures
        makers[0].quantity <= qty ==> sweep(makers, taker, limit, qty) == (
            seq![Fill { maker_id: makers[0].id, price: makers[0].price, quantity: makers[0].quantity }]
                + sweep(makers.drop_first(), taker, limit, (qty - makers[0].quantity) as nat).0,
            sweep(makers.drop_first(), taker, limit, (qty - makers[0].quantity) as nat).1,
            sweep(makers.drop_first(), taker, limit, (qty - makers[0].quantity) as nat).2,
        ),
{
}

/// Fills the aggressor `taker_id` on `taker`, with `qty` lots and limit
/// `limit`, against `makers`, the opposite side best first.
fn fill_from(
    makers: &mut OrderQueue,
    taker_id: u64,
    taker: OrderSide,
    limit: Option<u64>,
    qty: u64,
    symbol: &String,
    first_trade_id: u64,
    now: u64,
) -> (r: (Vec<Trade>, u64, u64))
    requires
        all_positive(queue_items(*old(makers))),
        first_trade_id + queue_items(*old(makers)).len() <= u64::MAX,
    ensures
        ({
            let s = sweep(queue_items(*old(makers)), taker, limit, qty as nat);
            &&& queue_items(*final(makers)) == s.1
            &&& r.1 == s.2
            &&& r.2 == fill_units(s.0)
            &&& r.2 + r.1 <= qty
            &&& r.0@.len() == s.0.len()
            &&& forall|i: int|
                0 <= i < s.0.len() ==> r.0@[i] == trade_of(
                    s.0[i],
                    first_trade_id + i,
                    taker_id,
                    taker,
                    *symbol,
                    now,
                )
        }),
{
    let ghost orig = queue_items(*makers);
    let mut units: u64 = 0;
    let ghost mut done: Seq<Fill> = Seq::empty();
    let mut trades: Vec<Trade> = Vec::new();
    let mut left: u64 = qty;
    loop
        invariant
            all_positive(queue_items(*makers)),
            left > 0 ==> first_trade_id + trades@.len() + queue_items(*makers).len() <= u64::MAX,
            first_trade_id + trades@.len() <= u64::MAX,
            trades@.len() == done.len(),
            units == fill_units(done),
            units + left <= qty,
            forall|i: int|
                0 <= i < done.len() ==> trades@[i] == trade_of(
                    done[i],
                    first_trade_id + i,
                    taker_id,
                    taker,
                    *symbol,
                    now,
                ),
            sweep(orig, taker, limit, qty as nat) == (
                done + sweep(queue_items(*makers), taker, limit, left as nat).0,
                sweep(queue_items(*makers), taker, limit, left as nat).1,
                sweep(queue_items(*makers), taker, limit, left as nat).2,
            ),
        ensures
            sweep(orig, taker, limit, qty as nat) == (done, queue_items(*makers), left as nat),
        decreases left,
    {
        if left == 0 || queue_len(makers) == 0 {
            proof {
                assert(sweep(queue_items(*makers), taker, limit, left as nat) == (
                    Seq::<Fill>::empty(),
                    queue_items(*makers),
                    left as nat,
                ));
                assert(done + Seq::<Fill>::empty() =~= done);
            }
            break;
        }
        let price = queue_get(makers, 0).price;
        let crossing = match limit {
            None => true,
            Some(l) => match taker {
                OrderSide::Buy => price <= l,
                OrderSide::Sell => price >= l,
            },
        };
        if !crossing {
            proof {
                assert(sweep(queue_items(*makers), taker, limit, left as nat) == (
                    Seq::<Fill>::empty(),
                    queue_items(*makers),
                    left as nat,
                ));
                assert(done + Seq::<Fill>::empty() =~= done);
            }
            break;
        }
        let maker_qty = queue_get(makers, 0).quantity;
        let maker_id = queue_get(makers, 0).id;
        let trade_qty = if maker_qty <= left { maker_qty } else { left };
        let ghost f = Fill { maker_id, price, quantity: trade_qty };
        proof {
            assert(done.push(f).drop_last() =~= done);
        }
        units = units + trade_qty / TICKS_PER_UNIT;
        proof {
            lemma_sweep_step(queue_items(*makers), taker, limit, left as nat);
        }
        let (buy_order_id, sell_order_id) = match taker {
            OrderSide::Buy => (taker_id, maker_id),
            OrderSide::Sell => (maker_id, taker_id),
        };
        trades.push(
            Trade {
                id: first_trade_id + trades.len() as u64,
                symbol: symbol.clone(),
                buy_order_id,
                sell_order_id,
                price,
                quantity: trade_qty,
                timestamp: now,
            },
        );
        let ghost before = queue_items(*makers);
        let mut head = queue_remove(makers, 0);
        if maker_qty <= left {
            left = left - maker_qty;
            proof {
                assert(queue_items(*makers) =~= before.drop_first());
                assert(done.push(f) + sweep(queue_items(*makers), taker, limit, left as nat).0 =~= done + (seq![f]
                    + sweep(queue_items(*makers), taker, limit, left as nat).0));
                done = done.push(f);
                assert forall|i: int| 0 <= i < queue_items(*makers).len() implies queue_items(*makers)[i].quantity > 0 by {
                    assert(queue_items(*makers)[i] == before[i + 1]);
                }
            }
        } else {
            head.quantity = maker_qty - left;
            queue_insert(makers, 0, head);
            left = 0;
            proof {
                assert(queue_items(*makers) =~= before.update(0, before[0].with_quantity(head.quantity)));
                assert(done.push(f) + sweep(queue_items(*makers), taker, limit, 0).0 =~= done + seq![f]);
                done = done.push(f);
            }
        }
    }
    (trades, left, units)
}


/// Whether price `a` is at least as good as price `b` on the bid side
/// (higher is better) or on the ask side (lower is better).
pub open spec fn at_least(is_bid: bool, a: u64, b: u64) -> bool {
    if is_bid {
        a >= b
    } else {
        a <= b
    }
}

/// A side of the book, best first: prices in priority order, and within one
/// price (one level) the orders in order of admission.
pub open spec fn side_sorted(s: Seq<Order>, is_bid: bool) -> bool {
    &&& forall|i: int, j: int|
        0 <= i < j < s.len() ==> #[trigger] at_least(is_bid, s[i].price, s[j].price)
    &&& forall|i: int, j: int|
        0 <= i < j < s.len() && s[i].price == s[j].price ==> s[i].id < s[j].id
            && s[i].timestamp <= s[j].timestamp
}

/// The place at which an order priced `price` joins a side: behind every
/// order priced at least as well.
pub open spec fn slot(s: Seq<Order>, is_bid: bool, price: u64) -> nat
    decreases s.len(),
{
    if s.len() == 0 || !at_least(is_bid, s[0].price, price) {
        0
    } else {
        1 + slot(s.drop_first(), is_bid, price)
    }
}

/// The side `s` with `o` appended at the tail of its price level.
pub open spec fn rest_into(s: Seq<Order>, is_bid: bool, o: Order) -> Seq<Order> {
    s.insert(slot(s, is_bid, o.price) as int, o)
}

/// The limit of an order: its price for a limit order, none for a market one.
pub open spec fn limit_of(o: Order) -> Option<u64> {
    if o.order_type == OrderType::Limit {
        Some(o.price)
    } else {
        None
    }
}

proof fn lemma_slot(s: Seq<Order>, is_bid: bool, price: u64, k: int)
    requires
        0 <= k <= s.len(),
        forall|j: int| 0 <= j < k ==> at_least(is_bid, s[j].price, price),
        k == s.len() || !at_least(is_bid, s[k].price, price),
    ensures
        slot(s, is_bid, price) == k,
    decreases k,
{
    if k > 0 {
        lemma_slot(s.drop_first(), is_bid, price, k - 1);
    }
}

/// What a sweep leaves and emits: the fills are against the first resting
/// orders in priority order, at their prices; what is left of the side is
/// the rest, the first perhaps reduced; the quantity is conserved.
pub proof fn lemma_sweep(makers: Seq<Order>, taker: OrderSide, limit: Option<u64>, qty: nat)
    requires
        all_positive(makers),
    ensures
        ({
            let (fills, rest, left) = sweep(makers, taker, limit, qty);
            let d = makers.len() - rest.len();
            &&& rest.len() <= makers.len()
            &&& forall|i: int| 1 <= i < rest.len() ==> rest[i] == makers[i + d]
            &&& rest.len() > 0 ==> rest[0] == makers[d].with_quantity(rest[0].quantity) && 0
                < rest[0].quantity <= makers[d].quantity
            &&& filled(fills) + left == qty
            &&& left > 0 ==> rest.len() == 0 || !crosses(taker, limit, rest[0].price)
            &&& left <= qty
            &&& fills.len() <= makers.len()
            &&& d <= fills.len()
            &&& forall|i: int|
                0 <= i < fills.len() ==> fills[i].maker_id == makers[i].id && fills[i].price
                    == makers[i].price && 0 < fills[i].quantity <= makers[i].quantity
                    && crosses(taker, limit, makers[i].price)
            &&& forall|i: int| 0 <= i < d ==> fills[i].quantity == makers[i].quantity
        }),
    decreases makers.len(),
{
    if qty == 0 || makers.len() == 0 || !crosses(taker, limit, makers[0].price) {
    } else if makers[0].quantity <= qty {
        let tail = makers.drop_first();
        let q2 = (qty - makers[0].quantity) as nat;
        lemma_sweep(tail, taker, limit, q2);
        let r = sweep(tail, taker, limit, q2);
        let f0 = Fill { maker_id: makers[0].id, price: makers[0].price, quantity: makers[0].quantity };
        assert((seq![f0] + r.0).drop_first() =~= r.0);
        let fills = seq![f0] + r.0;
        assert(filled(fills) == f0.quantity + filled(r.0));
        assert forall|i: int| 0 <= i < fills.len() implies fills[i].maker_id == makers[i].id
            && fills[i].price == makers[i].price && 0 < fills[i].quantity <= makers[i].quantity
            && crosses(taker, limit, makers[i].price) by {
            if i > 0 {
                assert(fills[i] == r.0[i - 1]);
                assert(makers[i] == tail[i - 1]);
            }
        }
        let d = makers.len() - r.1.len();
        assert forall|i: int| 0 <= i < d implies fills[i].quantity == makers[i].quantity by {
            if i > 0 {
                assert(fills[i] == r.0[i - 1]);
                assert(makers[i] == tail[i - 1]);
            }
        }
    } else {
        let f = seq![Fill { maker_id: makers[0].id, price: makers[0].price, quantity: qty as u64 }];
        assert(f.drop_first() =~= Seq::<Fill>::empty());
        assert(filled(f.drop_first()) == 0);
    }
}


/// No order id occurs twice on the book.
pub open spec fn ids_distinct(bids: Seq<Order>, asks: Seq<Order>) -> bool {
    &&& forall|i: int, j: int| 0 <= i < j < bids.len() ==> bids[i].id != bids[j].id
    &&& forall|i: int, j: int| 0 <= i < j < asks.len() ==> asks[i].id != asks[j].id
    &&& forall|i: int, j: int| 0 <= i < bids.len() && 0 <= j < asks.len() ==> bids[i].id != asks[j].id
}

/// The best bid is strictly below the best ask whenever both exist.
pub open spec fn uncrossed(bids: Seq<Order>, asks: Seq<Order>) -> bool {
    bids.len() > 0 && asks.len() > 0 ==> bids[0].price < asks[0].price
}

/// Every order on a side was admitted no later than `last_id` / `last_time`.
pub open spec fn admitted_by(s: Seq<Order>, last_id: u64, last_time: u64) -> bool {
    forall|i: int| 0 <= i < s.len() ==> s[i].id <= last_id && s[i].timestamp <= last_time
}

/// `rest` is `orig` from index `d` on, with quantities that may differ.
pub open spec fn keys_from(rest: Seq<Order>, orig: Seq<Order>, d: int) -> bool {
    &&& 0 <= d
    &&& d + rest.len() <= orig.len()
    &&& forall|i: int|
        0 <= i < rest.len() ==> #[trigger] rest[i].id == orig[i + d].id && rest[i].price == orig[i
            + d].price && rest[i].timestamp == orig[i + d].timestamp
}

proof fn lemma_sweep_keys(makers: Seq<Order>, taker: OrderSide, limit: Option<u64>, qty: nat)
    requires
        all_positive(makers),
    ensures
        keys_from(
            sweep(makers, taker, limit, qty).1,
            makers,
            makers.len() - sweep(makers, taker, limit, qty).1.len(),
        ),
        all_positive(sweep(makers, taker, limit, qty).1),
{
    lemma_sweep(makers, taker, limit, qty);
    let rest = sweep(makers, taker, limit, qty).1;
    let d = makers.len() - rest.len();
    assert forall|i: int| 0 <= i < rest.len() implies #[trigger] rest[i].id == makers[i + d].id
        && rest[i].price == makers[i + d].price && rest[i].timestamp == makers[i
        + d].timestamp && rest[i].quantity > 0 by {
        if i > 0 {
            assert(rest[i] == makers[i + d]);
        }
    }
}

/// A side stays sorted, positive and admitted when it loses orders from its
/// front.
proof fn lemma_keys_from_sorted(rest: Seq<Order>, orig: Seq<Order>, d: int, is_bid: bool, last_id: u64, last_time: u64)
    requires
        keys_from(rest, orig, d),
        side_sorted(orig, is_bid),
        admitted_by(orig, last_id, last_time),
    ensures
        side_sorted(rest, is_bid),
        admitted_by(rest, last_id, last_time),
        rest.len() > 0 ==> at_least(is_bid, orig[0].price, rest[0].price),
{
    assert forall|i: int, j: int| 0 <= i < j < rest.len() implies #[trigger] at_least(
        is_bid,
        rest[i].price,
        rest[j].price,
    ) by {
        assert(rest[i].id == orig[i + d].id);
        assert(rest[j].id == orig[j + d].id);
        assert(at_least(is_bid, orig[i + d].price, orig[j + d].price));
    }
    assert forall|i: int, j: int|
        0 <= i < j < rest.len() && rest[i].price == rest[j].price implies rest[i].id < rest[j].id
        && rest[i].timestamp <= rest[j].timestamp by {
        assert(rest[i].id == orig[i + d].id);
        assert(rest[j].id == orig[j + d].id);
    }
    assert forall|i: int| 0 <= i < rest.len() implies rest[i].id <= last_id && rest[i].timestamp
        <= last_time by {
        assert(rest[i].id == orig[i + d].id);
    }
    if rest.len() > 0 {
        assert(rest[0].id == orig[0 + d].id);
        if d > 0 {
            assert(at_least(is_bid, orig[0].price, orig[d].price));
        }
    }
}

proof fn lemma_insert_sorted(s: Seq<Order>, is_bid: bool, k: int, o: Order, last_id: u64, last_time: u64)
    requires
        side_sorted(s, is_bid),
        admitted_by(s, last_id, last_time),
        o.id > last_id,
        o.timestamp >= last_time,
        0 <= k <= s.len(),
        forall|j: int| 0 <= j < k ==> at_least(is_bid, s[j].price, o.price),
        forall|j: int| k <= j < s.len() ==> !at_least(is_bid, s[j].price, o.price),
    ensures
        side_sorted(s.insert(k, o), is_bid),
        admitted_by(s.insert(k, o), o.id, o.timestamp),
        s.insert(k, o)[0] == if k == 0 { o } else { s[0] },
{
    let t = s.insert(k, o);
    assert forall|i: int, j: int| 0 <= i < j < t.len() implies #[trigger] at_least(
        is_bid,
        t[i].price,
        t[j].price,
    ) && (t[i].price == t[j].price ==> t[i].id < t[j].id && t[i].timestamp <= t[j].timestamp) by {
        if j < k {
            assert(at_least(is_bid, s[i].price, s[j].price));
        } else if j == k {
        } else if i < k {
            assert(at_least(is_bid, s[i].price, s[j - 1].price));
        } else if i == k {
        } else {
            assert(at_least(is_bid, s[i - 1].price, s[j - 1].price));
        }
    }
}

/// One aggregated price level: its tick, its total quantity in lots and how
/// many orders it holds.
pub struct DepthLevel {
    pub price: u64,
    pub quantity: u128,
    pub orders: u64,
}

/// The price levels of a side, in the side's order: each is the tick, the
/// total quantity and the number of orders of a run of equal prices.
pub open spec fn levels(s: Seq<Order>) -> Seq<(u64, nat, nat)>
    decreases s.len(),
{
    if s.len() == 0 {
        Seq::empty()
    } else {
        let r = levels(s.drop_last());
        let o = s.last();
        if r.len() > 0 && r.last().0 == o.price {
            r.update(r.len() - 1, (o.price, (r.last().1 + o.quantity) as nat, r.last().2 + 1))
        } else {
            r.push((o.price, o.quantity as nat, 1nat))
        }
    }
}

pub open spec fn depth_matches(out: Seq<DepthLevel>, lv: Seq<(u64, nat, nat)>) -> bool {
    &&& out.len() == lv.len()
    &&& forall|j: int|
        0 <= j < out.len() ==> out[j].price == lv[j].0 && out[j].quantity == lv[j].1
            && out[j].orders == lv[j].2
}

/// The first `n` levels of a side.
fn side_depth(s: &OrderQueue, n: usize) -> (r: Vec<DepthLevel>)
    ensures
        depth_matches(r@, levels(queue_items(*s)).take(if n < levels(queue_items(*s)).len() { n as int } else { levels(queue_items(*s)).len() as int })),
{
    let mut out: Vec<DepthLevel> = Vec::new();
    let mut i: usize = 0;
    while i < queue_len(s)
        invariant
            i <= queue_items(*s).len(),
            depth_matches(out@, levels(queue_items(*s).take(i as int))),
            forall|j: int|
                0 <= j < out@.len() ==> out@[j].orders <= i && out@[j].quantity <= out@[j].orders
                    * 0xffff_ffff_ffff_ffffu128,
        decreases queue_items(*s).len() - i,
    {
        let o = queue_get(s, i);
        proof {
            assert(queue_items(*s).take(i + 1).drop_last() =~= queue_items(*s).take(i as int));
            assert(queue_items(*s).take(i + 1).last() == queue_items(*s)[i as int]);
        }
        let k = out.len();
        if k > 0 && out[k - 1].price == o.price {
            let last = out.pop().unwrap();
            proof {
                assert(last.quantity + o.quantity <= (last.orders + 1) * 0xffff_ffff_ffff_ffffu128)
                    by (nonlinear_arith)
                    requires
                        last.quantity <= last.orders * 0xffff_ffff_ffff_ffffu128,
                        o.quantity <= 0xffff_ffff_ffff_ffffu64,
                ;
                assert((last.orders + 1) * 0xffff_ffff_ffff_ffffu128 <= 0xffff_ffff_ffff_ffffu128
                    * 0xffff_ffff_ffff_ffffu128) by (nonlinear_arith)
                    requires
                        last.orders < 0xffff_ffff_ffff_ffffu64,
                ;
            }
            out.push(
                DepthLevel {
                    price: last.price,
                    quantity: last.quantity + o.quantity as u128,
                    orders: last.orders + 1,
                },
            );
        } else {
            out.push(DepthLevel { price: o.price, quantity: o.quantity as u128, orders: 1 });
        }
        i = i + 1;
    }
    proof {
        assert(queue_items(*s).take(queue_items(*s).len() as int) =~= queue_items(*s));
    }
    let lv_len = out.len();
    let m = if n < lv_len { n } else { lv_len };
    let ghost full = out@;
    out.truncate(m);
    proof {
        assert(out@ =~= full.take(m as int));
    }
    out
}

/// `post` is the book `pre` after `order` was submitted to it, and `trades`
/// what the submission emitted: the fills of a sweep of the opposite side,
/// numbered on from the book's trade counter, at the resting prices; the
/// residue of a limit order rests at the tail of its level; a market
/// order's residue is dropped.
pub open spec fn submitted(pre: OrderBook, post: OrderBook, order: Order, trades: Seq<Trade>) -> bool {
    let s = sweep(pre.opposite_queue(order.side), order.side, limit_of(order), order.quantity as nat);
    &&& trades.len() == s.0.len()
    &&& forall|i: int|
        0 <= i < s.0.len() ==> trades[i] == trade_of(
            s.0[i],
            pre.trade_counter() + i,
            order.id,
            order.side,
            pre.book_symbol(),
            order.timestamp,
        )
    &&& post.opposite_queue(order.side) == s.1
    &&& post.own_queue(order.side) == if order.order_type == OrderType::Limit && s.2 > 0 {
        rest_into(pre.own_queue(order.side), order.side == OrderSide::Buy, order.with_quantity(s.2 as u64))
    } else {
        pre.own_queue(order.side)
    }
    &&& post.trade_counter() == pre.trade_counter() + s.0.len()
    &&& post.lots_filled() == pre.lots_filled() + filled(s.0)
    &&& post.volume_units() == pre.volume_units() + fill_units(s.0)
    &&& post.last_trade_price() == if s.0.len() > 0 {
        Some(s.0.last().price)
    } else {
        pre.last_trade_price()
    }
    &&& post.book_symbol() == pre.book_symbol()
    &&& post.last_admitted_id() == order.id
    &&& post.last_admitted_time() == order.timestamp
}

/// `b` is `a` with only its trade counter moved.
pub open spec fn same_except_counter(a: OrderBook, b: OrderBook) -> bool {
    &&& b.book_symbol() == a.book_symbol()
    &&& b.bid_queue() == a.bid_queue()
    &&& b.ask_queue() == a.ask_queue()
    &&& b.lots_filled() == a.lots_filled()
    &&& b.volume_units() == a.volume_units()
    &&& b.last_trade_price() == a.last_trade_price()
    &&& b.last_admitted_id() == a.last_admitted_id()
    &&& b.last_admitted_time() == a.last_admitted_time()
}

/// The order book of one symbol. Each side is one queue, best price first
/// and first admitted first within a price; a price level is the run of
/// orders at one price, so a level exists exactly when it holds an order.
pub struct OrderBook {
    symbol: String,
    bids: OrderQueue,
    asks: OrderQueue,
    next_trade_id: u64,
    filled_lots: u64,
    volume: u64,
    last_price: Option<u64>,
    last_id: u64,
    last_time: u64,
}

impl OrderBook {
    pub open spec fn symbol_view(&self) -> Seq<char> {
        self.book_symbol()@
    }

    pub closed spec fn book_symbol(&self) -> String {
        self.symbol
    }

    /// The resting buy orders, best first.
    pub closed spec fn bid_queue(&self) -> Seq<Order> {
        queue_items(self.bids)
    }

    /// The resting sell orders, best first.
    pub closed spec fn ask_queue(&self) -> Seq<Order> {
        queue_items(self.asks)
    }

    pub closed spec fn trade_counter(&self) -> u64 {
        self.next_trade_id
    }

    /// The sum, in lots, of every fill this book has emitted.
    pub closed spec fn lots_filled(&self) -> u64 {
        self.filled_lots
    }

    /// The traded volume in whole units: each fill truncated, summed.
    pub closed spec fn volume_units(&self) -> u64 {
        self.volume
    }

    pub closed spec fn last_trade_price(&self) -> Option<u64> {
        self.last_price
    }

    /// The id of the last order admitted (0 before any).
    pub closed spec fn last_admitted_id(&self) -> u64 {
        self.last_id
    }

    /// The timestamp of the last order admitted (0 before any).
    pub closed spec fn last_admitted_time(&self) -> u64 {
        self.last_time
    }

    pub closed spec fn wf(&self) -> bool {
        &&& side_sorted(queue_items(self.bids), true)
        &&& side_sorted(queue_items(self.asks), false)
        &&& all_positive(queue_items(self.bids))
        &&& all_positive(queue_items(self.asks))
        &&& ids_distinct(queue_items(self.bids), queue_items(self.asks))
        &&& uncrossed(queue_items(self.bids), queue_items(self.asks))
        &&& admitted_by(queue_items(self.bids), self.last_id, self.last_time)
        &&& admitted_by(queue_items(self.asks), self.last_id, self.last_time)
    }

    /// The resting queue on the side an order of `side` rests on.
    pub open spec fn own_queue(&self, side: OrderSide) -> Seq<Order> {
        if side == OrderSide::Buy {
            self.bid_queue()
        } else {
            self.ask_queue()
        }
    }

    /// The resting queue an order of `side` trades against.
    pub open spec fn opposite_queue(&self, side: OrderSide) -> Seq<Order> {
        if side == OrderSide::Buy {
            self.ask_queue()
        } else {
            self.bid_queue()
        }
    }

    /// What `add_order` asks of an order: a positive quantity, a positive
    /// limit price, this book's symbol, an id and a timestamp no earlier than
    /// any admitted before, and room in the counters.
    pub open spec fn admits(&self, o: Order) -> bool {
        &&& o.quantity > 0
        &&& o.order_type == OrderType::Limit ==> o.price > 0
        &&& o.symbol@ == self.symbol_view()
        &&& o.id > self.last_admitted_id()
        &&& o.timestamp >= self.last_admitted_time()
        &&& self.trade_counter() + self.bid_queue().len() + self.ask_queue().len() <= u64::MAX
        &&& self.lots_filled() + o.quantity <= u64::MAX
        &&& self.volume_units() + o.quantity <= u64::MAX
    }

    pub fn new(symbol: String) -> (r: OrderBook)
        ensures
            r.wf(),
            r.symbol_view() == symbol@,
            r.bid_queue() == Seq::<Order>::empty(),
            r.ask_queue() == Seq::<Order>::empty(),
            r.trade_counter() == 1,
            r.lots_filled() == 0,
            r.volume_units() == 0,
            r.last_trade_price() == None::<u64>,
            r.last_admitted_id() == 0,
            r.last_admitted_time() == 0,
    {
        OrderBook {
            symbol,
            bids: queue_new(),
            asks: queue_new(),
            next_trade_id: 1,
            filled_lots: 0,
            volume: 0,
            last_price: None,
            last_id: 0,
            last_time: 0,
        }
    }

    /// Trades `order` against the opposite side, with limit `limit`, and
    /// returns the trades and the quantity left unfilled.
    fn take_liquidity(&mut self, order: &Order, limit: Option<u64>) -> (r: (Vec<Trade>, u64))
        requires
            old(self).wf(),
            old(self).admits(*order),
        ensures
            ({
                let s = sweep(old(self).opposite_queue(order.side), order.side, limit, order.quantity as nat);
                &&& final(self).wf()
                &&& r.1 == s.2
                &&& r.0@.len() == s.0.len()
                &&& forall|i: int|
                    0 <= i < s.0.len() ==> r.0@[i] == trade_of(
                        s.0[i],
                        old(self).trade_counter() + i,
                        order.id,
                        order.side,
                        old(self).book_symbol(),
                        order.timestamp,
                    )
                &&& final(self).opposite_queue(order.side) == s.1
                &&& final(self).own_queue(order.side) == old(self).own_queue(order.side)
                &&& final(self).trade_counter() == old(self).trade_counter() + s.0.len()
                &&& final(self).lots_filled() == old(self).lots_filled() + filled(s.0)
                &&& final(self).volume_units() == old(self).volume_units() + fill_units(s.0)
                &&& final(self).last_trade_price() == if s.0.len() > 0 {
                    Some(s.0.last().price)
                } else {
                    old(self).last_trade_price()
                }
                &&& final(self).symbol == old(self).symbol
                &&& final(self).last_id == old(self).last_id
                &&& final(self).last_time == old(self).last_time
            }),
    {
        let ghost makers = self.opposite_queue(order.side);
        proof {
            lemma_sweep(makers, order.side, limit, order.quantity as nat);
            lemma_sweep_keys(makers, order.side, limit, order.quantity as nat);
        }
        let ghost s = sweep(makers, order.side, limit, order.quantity as nat);
        let ghost d = makers.len() - s.1.len();
        let first = self.next_trade_id;
        let r = match order.side {
            OrderSide::Buy => fill_from(
                &mut self.asks,
                order.id,
                order.side,
                limit,
                order.quantity,
                &self.symbol,
                first,
                order.timestamp,
            ),
            OrderSide::Sell => fill_from(
                &mut self.bids,
                order.id,
                order.side,
                limit,
                order.quantity,
                &self.symbol,
                first,
                order.timestamp,
            ),
        };
        proof {
            if order.side == OrderSide::Buy {
                lemma_keys_from_sorted(queue_items(self.asks), makers, d, false, self.last_id, self.last_time);
                assert forall|i: int, j: int| 0 <= i < queue_items(self.bids).len() && 0 <= j < queue_items(self.asks).len()
                    implies queue_items(self.bids)[i].id != queue_items(self.asks)[j].id by {
                    assert(queue_items(self.asks)[j].id == makers[j + d].id);
                }
                assert forall|i: int, j: int| 0 <= i < j < queue_items(self.asks).len()
                    implies queue_items(self.asks)[i].id != queue_items(self.asks)[j].id by {
                    assert(queue_items(self.asks)[i].id == makers[i + d].id);
                    assert(queue_items(self.asks)[j].id == makers[j + d].id);
                }
            } else {
                lemma_keys_from_sorted(queue_items(self.bids), makers, d, true, self.last_id, self.last_time);
                assert forall|i: int, j: int| 0 <= i < queue_items(self.bids).len() && 0 <= j < queue_items(self.asks).len()
                    implies queue_items(self.bids)[i].id != queue_items(self.asks)[j].id by {
                    assert(queue_items(self.bids)[i].id == makers[i + d].id);
                }
                assert forall|i: int, j: int| 0 <= i < j < queue_items(self.bids).len()
                    implies queue_items(self.bids)[i].id != queue_items(self.bids)[j].id by {
                    assert(queue_items(self.bids)[i].id == makers[i + d].id);
                    assert(queue_items(self.bids)[j].id == makers[j + d].id);
                }
            }
        }
        let n = r.0.len();
        self.next_trade_id = first + n as u64;
        self.filled_lots = self.filled_lots + (order.quantity - r.1);
        self.volume = self.volume + r.2;
        if n > 0 {
            self.last_price = Some(r.0[n - 1].price);
        }
        (r.0, r.1)
    }

    /// Puts the unfilled part `o` of a limit order on its own side, at the
    /// tail of its price level.
    #[verifier::rlimit(50)]
    fn rest_order(&mut self, o: Order)
        requires
            old(self).wf(),
            o.quantity > 0,
            o.id > old(self).last_id,
            o.timestamp >= old(self).last_time,
            old(self).opposite_queue(o.side).len() == 0 || !crosses(
                o.side,
                Some(o.price),
                old(self).opposite_queue(o.side)[0].price,
            ),
        ensures
            final(self).wf(),
            final(self).own_queue(o.side) == rest_into(
                old(self).own_queue(o.side),
                o.side == OrderSide::Buy,
                o,
            ),
            final(self).opposite_queue(o.side) == old(self).opposite_queue(o.side),
            final(self).symbol == old(self).symbol,
            final(self).next_trade_id == old(self).next_trade_id,
            final(self).filled_lots == old(self).filled_lots,
            final(self).volume == old(self).volume,
            final(self).last_price == old(self).last_price,
            final(self).last_id == o.id,
            final(self).last_time == o.timestamp,
    {
        let is_bid = match o.side {
            OrderSide::Buy => true,
            OrderSide::Sell => false,
        };
        let ghost side = self.own_queue(o.side);
        let len = if is_bid { queue_len(&self.bids) } else { queue_len(&self.asks) };
        let mut k: usize = 0;
        while k < len
            invariant
                k <= len,
                len == side.len(),
                side == (if is_bid { queue_items(self.bids) } else { queue_items(self.asks) }),
                forall|j: int| 0 <= j < k ==> at_least(is_bid, side[j as int].price, o.price),
            ensures
                k <= len,
                forall|j: int| 0 <= j < k ==> at_least(is_bid, side[j as int].price, o.price),
                k < len ==> !at_least(is_bid, side[k as int].price, o.price),
            decreases len - k,
        {
            let p = if is_bid { queue_get(&self.bids, k).price } else { queue_get(&self.asks, k).price };
            let better = if is_bid { p >= o.price } else { p <= o.price };
            if !better {
                break;
            }
            k = k + 1;
        }
        proof {
            assert(side_sorted(side, is_bid));
            if k < len {
                assert forall|j: int| k <= j < side.len() implies !at_least(
                    is_bid,
                    side[j].price,
                    o.price,
                ) by {
                    if j > k {
                        assert(at_least(is_bid, side[k as int].price, side[j].price));
                    }
                }
            }
            lemma_slot(side, is_bid, o.price, k as int);
            lemma_insert_sorted(side, is_bid, k as int, o, self.last_id, self.last_time);
        }
        let ghost t = side.insert(k as int, o);
        let oid = o.id;
        let ots = o.timestamp;
        if is_bid {
            queue_insert(&mut self.bids, k, o);
        } else {
            queue_insert(&mut self.asks, k, o);
        }
        self.last_id = oid;
        self.last_time = ots;
        proof {
            assert(t[k as int] == o);
            assert forall|i: int| 0 <= i < t.len() && i != k implies t[i].id < o.id by {
                if i < k {
                    assert(t[i] == side[i]);
                } else {
                    assert(t[i] == side[i - 1]);
                }
            }
        }
    }

    /// Matches a market order: it trades down the opposite side until it is
    /// filled or the side is empty; what is left of it is discarded.
    fn match_market(&mut self, order: Order) -> (trades: Vec<Trade>)
        requires
            old(self).wf(),
            old(self).admits(order),
            order.order_type == OrderType::Market,
        ensures
            ({
                let s = sweep(old(self).opposite_queue(order.side), order.side, None, order.quantity as nat);
                &&& final(self).wf()
                &&& trades@.len() == s.0.len()
                &&& forall|i: int|
                    0 <= i < s.0.len() ==> trades@[i] == trade_of(
                        s.0[i],
                        old(self).trade_counter() + i,
                        order.id,
                        order.side,
                        old(self).book_symbol(),
                        order.timestamp,
                    )
                &&& final(self).opposite_queue(order.side) == s.1
                &&& final(self).own_queue(order.side) == old(self).own_queue(order.side)
                &&& final(self).trade_counter() == old(self).trade_counter() + s.0.len()
                &&& final(self).lots_filled() == old(self).lots_filled() + filled(s.0)
                &&& final(self).volume_units() == old(self).volume_units() + fill_units(s.0)
                &&& final(self).last_trade_price() == if s.0.len() > 0 {
                    Some(s.0.last().price)
                } else {
                    old(self).last_trade_price()
                }
                &&& final(self).book_symbol() == old(self).book_symbol()
                &&& final(self).last_admitted_id() == order.id
                &&& final(self).last_admitted_time() == order.timestamp
            }),
    {
        let (trades, _left) = self.take_liquidity(&order, None);
        self.last_id = order.id;
        self.last_time = order.timestamp;
        trades
    }

    /// Matches a limit order: it trades down the opposite side while the
    /// resting price is no worse than its limit; what is left of it rests at
    /// its limit, behind the orders already at that price.
    fn match_limit(&mut self, order: Order) -> (trades: Vec<Trade>)
        requires
            old(self).wf(),
            old(self).admits(order),
            order.order_type == OrderType::Limit,
        ensures
            ({
                let s = sweep(
                    old(self).opposite_queue(order.side),
                    order.side,
                    Some(order.price),
                    order.quantity as nat,
                );
                &&& final(self).wf()
                &&& trades@.len() == s.0.len()
                &&& forall|i: int|
                    0 <= i < s.0.len() ==> trades@[i] == trade_of(
                        s.0[i],
                        old(self).trade_counter() + i,
                        order.id,
                        order.side,
                        old(self).book_symbol(),
                        order.timestamp,
                    )
                &&& final(self).opposite_queue(order.side) == s.1
                &&& final(self).own_queue(order.side) == if s.2 > 0 {
                    rest_into(
                        old(self).own_queue(order.side),
                        order.side == OrderSide::Buy,
                        order.with_quantity(s.2 as u64),
                    )
                } else {
                    old(self).own_queue(order.side)
                }
                &&& final(self).trade_counter() == old(self).trade_counter() + s.0.len()
                &&& final(self).lots_filled() == old(self).lots_filled() + filled(s.0)
                &&& final(self).volume_units() == old(self).volume_units() + fill_units(s.0)
                &&& final(self).last_trade_price() == if s.0.len() > 0 {
                    Some(s.0.last().price)
                } else {
                    old(self).last_trade_price()
                }
                &&& final(self).book_symbol() == old(self).book_symbol()
                &&& final(self).last_admitted_id() == order.id
                &&& final(self).last_admitted_time() == order.timestamp
            }),
    {
        proof {
            lemma_sweep(
                self.opposite_queue(order.side),
                order.side,
                Some(order.price),
                order.quantity as nat,
            );
        }
        let (trades, left) = self.take_liquidity(&order, Some(order.price));
        if left > 0 {
            let residue = Order {
                id: order.id,
                symbol: order.symbol,
                side: order.side,
                order_type: order.order_type,
                quantity: left,
                price: order.price,
                timestamp: order.timestamp,
                user_id: order.user_id,
            };
            self.rest_order(residue);
        } else {
            self.last_id = order.id;
            self.last_time = order.timestamp;
        }
        trades
    }

    /// Submits an order: matches it against the opposite side in price-time
    /// priority and, for a limit order, rests what is left.
    pub fn add_order(&mut self, order: Order) -> (trades: Vec<Trade>)
        requires
            old(self).wf(),
            old(self).admits(order),
        ensures
            final(self).wf(),
            submitted(*old(self), *final(self), order, trades@),
    {
        match order.order_type {
            OrderType::Market => self.match_market(order),
            OrderType::Limit => self.match_limit(order),
        }
    }

    /// What every well-formed book satisfies: both sides are sorted best
    /// first and first admitted first within a price, every resting order
    /// has a positive quantity, no id rests twice, and the book is not
    /// crossed.
    pub proof fn lemma_book_invariants(&self)
        requires
            self.wf(),
        ensures
            side_sorted(self.bid_queue(), true),
            side_sorted(self.ask_queue(), false),
            all_positive(self.bid_queue()),
            all_positive(self.ask_queue()),
            ids_distinct(self.bid_queue(), self.ask_queue()),
            uncrossed(self.bid_queue(), self.ask_queue()),
    {
    }

    /// The highest tick with a resting buy order.
    pub open spec fn best_bid_spec(&self) -> Option<u64> {
        if self.bid_queue().len() > 0 {
            Some(self.bid_queue()[0].price)
        } else {
            None
        }
    }

    /// The lowest tick with a resting sell order.
    pub open spec fn best_ask_spec(&self) -> Option<u64> {
        if self.ask_queue().len() > 0 {
            Some(self.ask_queue()[0].price)
        } else {
            None
        }
    }

    pub fn best_bid(&self) -> (r: Option<u64>)
        ensures
            r == self.best_bid_spec(),
    {
        if queue_len(&self.bids) > 0 {
            Some(queue_get(&self.bids, 0).price)
        } else {
            None
        }
    }

    pub fn best_ask(&self) -> (r: Option<u64>)
        ensures
            r == self.best_ask_spec(),
    {
        if queue_len(&self.asks) > 0 {
            Some(queue_get(&self.asks, 0).price)
        } else {
            None
        }
    }

    /// Best ask minus best bid, in ticks, when both exist; 0 otherwise.
    pub fn get_spread(&self) -> (r: u64)
        requires
            self.wf(),
        ensures
            r == match (self.best_bid_spec(), self.best_ask_spec()) {
                (Some(b), Some(a)) => (a - b) as u64,
                _ => 0,
            },
    {
        match (self.best_bid(), self.best_ask()) {
            (Some(b), Some(a)) => a - b,
            _ => 0,
        }
    }

    pub fn symbol(&self) -> (r: &String)
        ensures
            *r == self.book_symbol(),
    {
        &self.symbol
    }

    /// The tick of the most recent trade, if any.
    pub fn last_price(&self) -> (r: Option<u64>)
        ensures
            r == self.last_trade_price(),
    {
        self.last_price
    }

    /// The sum, in lots, of every fill emitted.
    pub fn filled_lots(&self) -> (r: u64)
        ensures
            r == self.lots_filled(),
    {
        self.filled_lots
    }

    /// The traded volume in whole units: each fill truncated, summed.
    pub fn total_volume(&self) -> (r: u64)
        ensures
            r == self.volume_units(),
    {
        self.volume
    }

    /// Moves the trade counter on to `next`, so that trade ids can be drawn
    /// from a counter shared by several books.
    pub fn renumber_from(&mut self, next: u64)
        requires
            old(self).wf(),
            next >= old(self).trade_counter(),
        ensures
            final(self).wf(),
            same_except_counter(*old(self), *final(self)),
            final(self).trade_counter() == next,
    {
        self.next_trade_id = next;
    }

    /// The id the next trade will carry.
    pub fn next_trade_id(&self) -> (r: u64)
        ensures
            r == self.trade_counter(),
    {
        self.next_trade_id
    }

    /// The number of resting orders on both sides.
    pub fn resting_count(&self) -> (r: u128)
        ensures
            r == self.bid_queue().len() + self.ask_queue().len(),
            r <= 2 * (usize::MAX as int),
    {
        queue_len(&self.bids) as u128 + queue_len(&self.asks) as u128
    }

    /// The id and timestamp of the last order admitted.
    pub fn last_admitted(&self) -> (r: (u64, u64))
        ensures
            r == (self.last_admitted_id(), self.last_admitted_time()),
    {
        (self.last_id, self.last_time)
    }

    /// The top `n` bid levels (highest first) and the top `n` ask levels
    /// (lowest first).
    pub fn depth(&self, n: usize) -> (r: (Vec<DepthLevel>, Vec<DepthLevel>))
        ensures
            depth_matches(r.0@, levels(self.bid_queue()).take(if n < levels(self.bid_queue()).len() {
                n as int
            } else {
                levels(self.bid_queue()).len() as int
            })),
            depth_matches(r.1@, levels(self.ask_queue()).take(if n < levels(self.ask_queue()).len() {
                n as int
            } else {
                levels(self.ask_queue()).len() as int
            })),
    {
        (side_depth(&self.bids, n), side_depth(&self.asks, n))
    }

    /// The resting order with id `id`, if any.
    pub fn get_order(&self, id: u64) -> (r: Option<Order>)
        ensures
            r matches Some(o) ==> exists|i: int|
                0 <= i < (self.bid_queue() + self.ask_queue()).len() && (self.bid_queue()
                    + self.ask_queue())[i] == o && o.id == id,
            r is None ==> forall|i: int|
                0 <= i < (self.bid_queue() + self.ask_queue()).len() ==> (self.bid_queue()
                    + self.ask_queue())[i].id != id,
    {
        let ghost all = queue_items(self.bids) + queue_items(self.asks);
        let mut i: usize = 0;
        while i < queue_len(&self.bids)
            invariant
                all == queue_items(self.bids) + queue_items(self.asks),
                forall|j: int| 0 <= j < i ==> all[j].id != id,
            decreases queue_items(self.bids).len() - i,
        {
            if queue_get(&self.bids, i).id == id {
                let o = queue_get(&self.bids, i).duplicate();
                proof {
                    assert(all[i as int] == o);
                }
                return Some(o);
            }
            i = i + 1;
        }
        let mut k: usize = 0;
        while k < queue_len(&self.asks)
            invariant
                all == queue_items(self.bids) + queue_items(self.asks),
                forall|j: int| 0 <= j < queue_items(self.bids).len() + k ==> all[j].id != id,
            decreases queue_items(self.asks).len() - k,
        {
            if queue_get(&self.asks, k).id == id {
                let o = queue_get(&self.asks, k).duplicate();
                proof {
                    assert(all[queue_items(self.bids).len() + k] == o);
                }
                return Some(o);
            }
            k = k + 1;
        }
        None
    }
}

} // verus!
