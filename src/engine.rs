use vstd::prelude::*;
use crate::book::{depth_matches, levels, same_except_counter, submitted, DepthLevel, OrderBook};
use crate::order::{Order, OrderSide, OrderType, Trade};

verus! {

#[derive(Debug, Clone, Copy, PartialEq, Eq, Structural)]
pub enum EngineError {
    /// No book is registered for the symbol.
    UnknownSymbol,
    /// A zero quantity, or a limit order with a zero price tick.
    InvalidOrder,
    /// A counter of the engine or of the book would overflow.
    Overflow,
}

/// The engine's counters.
pub struct EngineStats {
    pub processed_orders: u64,
    pub total_trades: u64,
    pub active_symbols: usize,
}

/// The state of one book: its top levels, last trade price, spread and
/// volume.
pub struct BookSnapshot {
    pub symbol: String,
    pub bids: Vec<DepthLevel>,
    pub asks: Vec<DepthLevel>,
    pub last_price: Option<u64>,
    pub spread: u64,
    pub total_volume: u64,
}

/// The registry: one order book per symbol, the order id and trade id
/// allocators, an admission clock that never goes back, and the global
/// counters.
pub struct TradingEngine {
    books: Vec<OrderBook>,
    next_order_id: u64,
    next_trade_id: u64,
    processed_orders: u64,
    total_trades: u64,
    clock: u64,
}

/// A fresh, empty book for `sym`.
pub open spec fn is_new_book(b: OrderBook, sym: Seq<char>) -> bool {
    &&& b.wf()
    &&& b.symbol_view() == sym
    &&& b.bid_queue().len() == 0
    &&& b.ask_queue().len() == 0
    &&& b.trade_counter() == 1
    &&& b.lots_filled() == 0
    &&& b.last_trade_price() == None::<u64>
    &&& b.last_admitted_id() == 0
    &&& b.last_admitted_time() == 0
}

impl TradingEngine {
    pub closed spec fn book_list(&self) -> Seq<OrderBook> {
        self.books@
    }

    pub closed spec fn order_counter(&self) -> u64 {
        self.next_order_id
    }

    /// The id the engine's next trade will carry.
    pub closed spec fn trade_id_counter(&self) -> u64 {
        self.next_trade_id
    }

    pub closed spec fn processed(&self) -> u64 {
        self.processed_orders
    }

    pub closed spec fn trades_emitted(&self) -> u64 {
        self.total_trades
    }

    /// The latest admission time.
    pub closed spec fn admission_clock(&self) -> u64 {
        self.clock
    }

    /// The book at `i` is well-formed and behind the engine's counters.
    pub closed spec fn book_ok(&self, i: int) -> bool {
        &&& self.books@[i].wf()
        &&& self.books@[i].trade_counter() <= self.next_trade_id
        &&& self.books@[i].last_admitted_id() < self.next_order_id
        &&& self.books@[i].last_admitted_time() <= self.clock
    }

    pub closed spec fn wf(&self) -> bool {
        &&& self.next_order_id >= 1
        &&& self.next_trade_id >= 1
        &&& forall|i: int| 0 <= i < self.books@.len() ==> #[trigger] self.book_ok(i)
        &&& forall|i: int, j: int|
            0 <= i < j < self.books@.len() ==> self.books@[i].symbol_view()
                != self.books@[j].symbol_view()
    }

    /// `post` is `pre` after an order with these arguments was placed on the
    /// book at `i`, which is the book for `symbol`: the book was submitted
    /// the admitted order, numbered from the engine's trade counter, and the
    /// counters moved on.
    pub open spec fn placed(
        pre: TradingEngine,
        post: TradingEngine,
        i: int,
        symbol: Seq<char>,
        side: OrderSide,
        order_type: OrderType,
        quantity: u64,
        price: u64,
        user_id: u32,
        now: u64,
        trades: Seq<Trade>,
    ) -> bool {

                0 <= i < pre.book_list().len() && pre.book_list()[i].symbol_view()
                    == symbol && {
                    let o = pre.admitted_order(
                        pre.book_list()[i].book_symbol(),
                        side,
                        order_type,
                        quantity,
                        price,
                        user_id,
                        now,
                    );
                    &&& exists|b: OrderBook|
                        same_except_counter(pre.book_list()[i], b) && b.trade_counter()
                            == pre.trade_id_counter() && #[trigger] submitted(
                            b,
                            post.book_list()[i],
                            o,
                            trades,
                        )
                    &&& forall|k: int|
                        0 <= k < trades.len() ==> #[trigger] trades[k].id == pre.trade_id_counter()
                            + k
                    &&& post.trade_id_counter() == pre.trade_id_counter() + trades.len()
                    &&& post.book_list() == pre.book_list().update(
                        i,
                        post.book_list()[i],
                    )
                    &&& post.order_counter() == pre.order_counter() + 1
                    &&& post.processed() == pre.processed() + 1
                    &&& post.trades_emitted() == pre.trades_emitted() + trades.len()
                    &&& post.admission_clock() == o.timestamp
                }
    }

    /// Restates a submit to the book at `idx` in the shape of `place_order`'s
    /// postcondition.
    proof fn lemma_place_post(
        old_e: TradingEngine,
        new_e: TradingEngine,
        idx: int,
        symbol: Seq<char>,
        side: OrderSide,
        order_type: OrderType,
        quantity: u64,
        price: u64,
        user_id: u32,
        now: u64,
        trades: Seq<Trade>,
        synced: OrderBook,
    )
        requires
            0 <= idx < old_e.book_list().len(),
            old_e.book_list()[idx].symbol_view() == symbol,
            same_except_counter(old_e.book_list()[idx], synced),
            synced.trade_counter() == old_e.trade_id_counter(),
            submitted(
                synced,
                new_e.book_list()[idx],
                old_e.admitted_order(
                    old_e.book_list()[idx].book_symbol(),
                    side,
                    order_type,
                    quantity,
                    price,
                    user_id,
                    now,
                ),
                trades,
            ),
            forall|k: int| 0 <= k < trades.len() ==> #[trigger] trades[k].id == old_e.trade_id_counter() + k,
            new_e.trade_id_counter() == old_e.trade_id_counter() + trades.len(),
            new_e.book_list() == old_e.book_list().update(idx, new_e.book_list()[idx]),
            new_e.order_counter() == old_e.order_counter() + 1,
            new_e.processed() == old_e.processed() + 1,
            new_e.trades_emitted() == old_e.trades_emitted() + trades.len(),
            new_e.admission_clock() == old_e.admitted_order(
                old_e.book_list()[idx].book_symbol(),
                side,
                order_type,
                quantity,
                price,
                user_id,
                now,
            ).timestamp,
        ensures
            Self::placed(
                old_e,
                new_e,
                idx,
                symbol,
                side,
                order_type,
                quantity,
                price,
                user_id,
                now,
                trades,
            ),
    {
        let o = old_e.admitted_order(
            old_e.book_list()[idx].book_symbol(),
            side,
            order_type,
            quantity,
            price,
            user_id,
            now,
        );
        assert(exists|p: OrderBook|
            same_except_counter(old_e.book_list()[idx], p) && p.trade_counter() == old_e.trade_id_counter()
                && #[trigger] submitted(p, new_e.book_list()[idx], o, trades));
    }

    /// Whether some book is registered for `sym`.
    pub open spec fn lists(&self, sym: Seq<char>) -> bool {
        exists|i: int| 0 <= i < self.book_list().len() && self.book_list()[i].symbol_view() == sym
    }

    /// Whether the counters can absorb one more order of `quantity` lots on
    /// book `b`.
    pub open spec fn has_room(&self, b: OrderBook, quantity: u64) -> bool {
        &&& self.order_counter() < u64::MAX
        &&& self.processed() < u64::MAX
        &&& self.trades_emitted() + b.bid_queue().len() + b.ask_queue().len() <= u64::MAX
        &&& self.trade_id_counter() + b.bid_queue().len() + b.ask_queue().len() <= u64::MAX
        &&& b.lots_filled() + quantity <= u64::MAX
        &&& b.volume_units() + quantity <= u64::MAX
    }

    /// The order that `place_order` admits with these arguments.
    pub open spec fn admitted_order(
        &self,
        symbol: String,
        side: OrderSide,
        order_type: OrderType,
        quantity: u64,
        price: u64,
        user_id: u32,
        now: u64,
    ) -> Order {
        Order {
            id: self.order_counter(),
            symbol,
            side,
            order_type,
            quantity,
            price,
            timestamp: if now > self.admission_clock() {
                now
            } else {
                self.admission_clock()
            },
            user_id,
        }
    }

    pub fn new() -> (r: TradingEngine)
        ensures
            r.wf(),
            r.book_list().len() == 0,
            r.order_counter() == 1,
            r.trade_id_counter() == 1,
            r.processed() == 0,
            r.trades_emitted() == 0,
            r.admission_clock() == 0,
    {
        TradingEngine {
            books: Vec::new(),
            next_order_id: 1,
            next_trade_id: 1,
            processed_orders: 0,
            total_trades: 0,
            clock: 0,
        }
    }

    /// The position of the book for `symbol`, if one is registered.
    fn find(&self, symbol: &String) -> (r: Option<usize>)
        ensures
            r matches Some(i) ==> i < self.book_list().len() && self.book_list()[i as int].symbol_view()
                == symbol@,
            r is None ==> !self.lists(symbol@),
    {
        let mut i: usize = 0;
        while i < self.books.len()
            invariant
                forall|j: int| 0 <= j < i ==> self.books@[j].symbol_view() != symbol@,
            decreases self.books.len() - i,
        {
            if symbol.eq(self.books[i].symbol()) {
                return Some(i);
            }
            i = i + 1;
        }
        None
    }

    /// Registers an empty book for `symbol`; does nothing if one exists.
    pub fn add_symbol(&mut self, symbol: &str)
        requires
            old(self).wf(),
        ensures
            final(self).wf(),
            old(self).lists(symbol@) ==> *final(self) == *old(self),
            !old(self).lists(symbol@) ==> {
                &&& final(self).book_list().len() == old(self).book_list().len() + 1
                &&& final(self).book_list().take(old(self).book_list().len() as int)
                    == old(self).book_list()
                &&& is_new_book(final(self).book_list().last(), symbol@)
                &&& final(self).order_counter() == old(self).order_counter()
                &&& final(self).trade_id_counter() == old(self).trade_id_counter()
                &&& final(self).processed() == old(self).processed()
                &&& final(self).trades_emitted() == old(self).trades_emitted()
                &&& final(self).admission_clock() == old(self).admission_clock()
            },
    {
        let sym = symbol.to_owned();
        match self.find(&sym) {
            Some(_) => {},
            None => {
                let ghost before = self.books@;
                let ghost old_e = *self;
                proof {
                    assert forall|i: int| 0 <= i < before.len() implies before[i].symbol_view()
                        != symbol@ by {
                        if before[i].symbol_view() == symbol@ {
                            assert(self.book_list()[i].symbol_view() == symbol@);
                            assert(self.lists(symbol@));
                        }
                    }
                }
                self.books.push(OrderBook::new(sym));
                proof {
                    assert(self.books@.take(before.len() as int) =~= before);
                    assert forall|i: int, j: int| 0 <= i < j < self.books@.len() implies self.books@[i].symbol_view()
                        != self.books@[j].symbol_view() by {
                        if j == before.len() {
                            assert(before[i].symbol_view() != symbol@);
                        } else {
                            assert(self.books@[i] == before[i]);
                            assert(self.books@[j] == before[j]);
                        }
                    }
                    assert forall|i: int| 0 <= i < self.books@.len() implies #[trigger] self.book_ok(i) by {
                        if i < before.len() {
                            assert(self.books@[i] == before[i]);
                            assert(old_e.book_ok(i));
                        }
                    }
                }
            },
        }
    }

    /// Validates and admits an order for `symbol`, with the next order id and
    /// an admission time of `now` (or the last admission time, if `now` is
    /// earlier), and submits it to the symbol's book.
    #[verifier::rlimit(80)]
    #[verifier::spinoff_prover]
    pub fn place_order(
        &mut self,
        symbol: &str,
        side: OrderSide,
        order_type: OrderType,
        quantity: u64,
        price: u64,
        user_id: u32,
        now: u64,
    ) -> (r: Result<Vec<Trade>, EngineError>)
        requires
            old(self).wf(),
        ensures
            final(self).wf(),
            !old(self).lists(symbol@) ==> r == Err::<Vec<Trade>, EngineError>(
                EngineError::UnknownSymbol,
            ),
            forall|i: int|
                0 <= i < old(self).book_list().len() && old(self).book_list()[i].symbol_view()
                    == symbol@ ==> {
                    let b = old(self).book_list()[i];
                    if quantity == 0 || (order_type == OrderType::Limit && price == 0) {
                        r == Err::<Vec<Trade>, EngineError>(EngineError::InvalidOrder)
                    } else if !old(self).has_room(b, quantity) {
                        r == Err::<Vec<Trade>, EngineError>(EngineError::Overflow)
                    } else {
                        r is Ok
                    }
                },
            r is Err ==> *final(self) == *old(self),
            r matches Ok(trades) ==> forall|i: int|
                0 <= i < old(self).book_list().len() && #[trigger] old(self).book_list()[i].symbol_view()
                    == symbol@ ==> Self::placed(
                    *old(self),
                    *final(self),
                    i,
                    symbol@,
                    side,
                    order_type,
                    quantity,
                    price,
                    user_id,
                    now,
                    trades@,
                ),
    {
        let sym = symbol.to_owned();
        let idx = match self.find(&sym) {
            Some(i) => i,
            None => {
                return Err(EngineError::UnknownSymbol);
            },
        };
        proof {
            assert forall|j: int|
                0 <= j < self.books@.len() && self.books@[j].symbol_view() == symbol@ implies j
                == idx by {
                if j != idx as int {
                    assert(self.books@[j].symbol_view() != self.books@[idx as int].symbol_view());
                }
            }
        }
        if quantity == 0 || (order_type == OrderType::Limit && price == 0) {
            return Err(EngineError::InvalidOrder);
        }
        let resting = self.books[idx].resting_count();
        if self.next_order_id == u64::MAX || self.processed_orders == u64::MAX
            || self.total_trades as u128 + resting > u64::MAX as u128
            || self.next_trade_id as u128 + resting > u64::MAX as u128
            || self.books[idx].filled_lots() as u128 + quantity as u128 > u64::MAX as u128
            || self.books[idx].total_volume() as u128 + quantity as u128 > u64::MAX as u128 {
            return Err(EngineError::Overflow);
        }
        let timestamp = if now > self.clock {
            now
        } else {
            self.clock
        };
        let ghost pre = self.books@;
        let ghost old_engine = *self;
        proof {
            assert(old_engine == *old(self));
        }
        let order = Order::new(
            self.next_order_id,
            self.books[idx].symbol().clone(),
            side,
            order_type,
            quantity,
            price,
            timestamp,
            user_id,
        );
        let mut book = self.books.remove(idx);
        proof {
            assert(old_engine.book_ok(idx as int));
            assert(book == pre[idx as int]);
            assert(book.wf());
        }
        let ghost old_trade = self.next_trade_id;
        book.renumber_from(self.next_trade_id);
        let ghost synced = book;
        proof {
            book.lemma_book_invariants();
            crate::book::lemma_sweep(
                book.opposite_queue(side),
                side,
                crate::book::limit_of(order),
                quantity as nat,
            );
        }
        let trades = book.add_order(order);
        let ghost post_book = book;
        self.books.insert(idx, book);
        proof {
            assert(self.books@ =~= pre.update(idx as int, post_book));
            assert forall|j: int| 0 <= j < self.books@.len() && j != idx implies #[trigger] self.books@[j]
                == pre[j] by {}
        }
        let ghost old_next = self.next_order_id;
        self.next_order_id = self.next_order_id + 1;
        self.processed_orders = self.processed_orders + 1;
        self.total_trades = self.total_trades + trades.len() as u64;
        self.next_trade_id = self.next_trade_id + trades.len() as u64;
        self.clock = timestamp;
        proof {
            assert forall|i: int| 0 <= i < self.books@.len() implies #[trigger] self.book_ok(i) by {
                if i != idx {
                    assert(self.books@[i] == pre[i]);
                    assert(old_engine.book_ok(i));
                    assert(pre[i].wf());
                    assert(pre[i].last_admitted_id() < old_next);
                    assert(pre[i].trade_counter() <= old_trade);
                } else {
                    assert(self.books@[i] == post_book);
                    assert(post_book.last_admitted_id() == old_next);
                    assert(post_book.trade_counter() == old_trade + trades@.len());
                    assert(post_book.trade_counter() == self.next_trade_id);
                }
            }
            assert forall|i: int, j: int| 0 <= i < j < self.books@.len() implies self.books@[i].symbol_view()
                != self.books@[j].symbol_view() by {
                assert(pre[i].symbol_view() != pre[j].symbol_view());
                if i != idx {
                    assert(self.books@[i] == pre[i]);
                }
                if j != idx {
                    assert(self.books@[j] == pre[j]);
                }
            }
        }
        proof {
            assert(submitted(synced, self.books@[idx as int], order, trades@));
            assert(same_except_counter(pre[idx as int], synced));
            assert forall|k: int| 0 <= k < trades@.len() implies #[trigger] trades@[k].id == old_trade + k by {
                assert(synced.trade_counter() + k <= u64::MAX);
            }
            assert(order == old_engine.admitted_order(
                pre[idx as int].book_symbol(),
                side,
                order_type,
                quantity,
                price,
                user_id,
                now,
            ));
            Self::lemma_place_post(
                old_engine,
                *self,
                idx as int,
                symbol@,
                side,
                order_type,
                quantity,
                price,
                user_id,
                now,
                trades@,
                synced,
            );
            assert forall|i: int|
                0 <= i < old(self).book_list().len() && #[trigger] old(self).book_list()[i].symbol_view()
                    == symbol@ implies Self::placed(
                *old(self),
                *self,
                i,
                symbol@,
                side,
                order_type,
                quantity,
                price,
                user_id,
                now,
                trades@,
            ) by {
                assert(i == idx);
            }
        }
        Ok(trades)
    }

    /// The top `depth` levels of each side of the book for `symbol`, with its
    /// last trade price, spread and volume.
    pub fn get_orderbook(&self, symbol: &str, depth: usize) -> (r: Result<BookSnapshot, EngineError>)
        requires
            self.wf(),
        ensures
            !self.lists(symbol@) ==> r is Err && r->Err_0 == EngineError::UnknownSymbol,
            self.lists(symbol@) ==> r is Ok,
            r matches Ok(snap) ==> exists|i: int|
                0 <= i < self.book_list().len() && self.book_list()[i].symbol_view() == symbol@
                    && {
                    let b = self.book_list()[i];
                    let bl = levels(b.bid_queue());
                    let al = levels(b.ask_queue());
                    &&& snap.symbol@ == symbol@
                    &&& depth_matches(snap.bids@, bl.take(if depth < bl.len() { depth as int } else { bl.len() as int }))
                    &&& depth_matches(snap.asks@, al.take(if depth < al.len() { depth as int } else { al.len() as int }))
                    &&& snap.last_price == b.last_trade_price()
                    &&& snap.spread == match (b.best_bid_spec(), b.best_ask_spec()) {
                        (Some(x), Some(y)) => (y - x) as u64,
                        _ => 0,
                    }
                    &&& snap.total_volume == b.volume_units()
                },
    {
        let sym = symbol.to_owned();
        match self.find(&sym) {
            None => Err(EngineError::UnknownSymbol),
            Some(i) => {
                let b = &self.books[i];
                proof {
                    assert(self.book_ok(i as int));
                    assert(b.wf());
                }
                let (bids, asks) = b.depth(depth);
                Ok(
                    BookSnapshot {
                        symbol: sym,
                        bids,
                        asks,
                        last_price: b.last_price(),
                        spread: b.get_spread(),
                        total_volume: b.total_volume(),
                    },
                )
            },
        }
    }

    /// The book registered for `symbol`, if any.
    pub fn book(&self, symbol: &str) -> (r: Option<&OrderBook>)
        requires
            self.wf(),
        ensures
            !self.lists(symbol@) ==> r is None,
            r matches Some(b) ==> b.wf() && b.symbol_view() == symbol@ && exists|i: int|
                0 <= i < self.book_list().len() && self.book_list()[i] == *b,
            self.lists(symbol@) ==> r is Some,
    {
        let sym = symbol.to_owned();
        match self.find(&sym) {
            None => None,
            Some(i) => {
                proof {
                    assert(self.book_ok(i as int));
                }
                Some(&self.books[i])
            },
        }
    }

    /// The engine's counters and the number of registered symbols.
    pub fn get_stats(&self) -> (r: EngineStats)
        ensures
            r.processed_orders == self.processed(),
            r.total_trades == self.trades_emitted(),
            r.active_symbols == self.book_list().len(),
    {
        EngineStats {
            processed_orders: self.processed_orders,
            total_trades: self.total_trades,
            active_symbols: self.books.len(),
        }
    }
}

} // verus!
