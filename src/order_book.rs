//! The order book: a buy side, a sell side, a sequence source for timestamps and
//! the buffer that holds the trades of the latest call.
use crate::model::{fill, level_of, opposite, rest_in, rests_at, top_of};
use crate::side_book::SideBook;
use crate::types::{Order, Side, Trade};
use vstd::prelude::*;

verus! {

/// Hands out strictly increasing timestamps, starting at 1.
pub struct SequenceSource {
    next: u64,
}

impl SequenceSource {
    /// The timestamp the next call hands out.
    pub closed spec fn upcoming(&self) -> u64 {
        self.next
    }

    /// A source whose first timestamp is 1.
    pub fn new() -> (r: Self)
        ensures
            r.upcoming() == 1,
    {
        SequenceSource { next: 1 }
    }

    /// The next timestamp; every later one is larger.
    pub fn next_timestamp(&mut self) -> (t: u64)
        requires
            old(self).upcoming() < u64::MAX,
        ensures
            t == old(self).upcoming(),
            final(self).upcoming() == old(self).upcoming() + 1,
    {
        let t = self.next;
        self.next = self.next + 1;
        t
    }
}

/// A limit order book for one instrument, matching by price-time priority.
pub struct OrderBook {
    buys: SideBook,
    sells: SideBook,
    sequence: SequenceSource,
    trade_buffer: Vec<Trade>,
}

impl OrderBook {
    /// The resting buy orders, best first (highest price, then earliest arrival).
    pub closed spec fn buy_orders(&self) -> Seq<Order> {
        self.buys.orders()
    }

    /// The resting sell orders, best first (lowest price, then earliest arrival).
    pub closed spec fn sell_orders(&self) -> Seq<Order> {
        self.sells.orders()
    }

    /// The resting orders of `side`.
    pub open spec fn orders_of(&self, side: Side) -> Seq<Order> {
        match side {
            Side::Buy => self.buy_orders(),
            Side::Sell => self.sell_orders(),
        }
    }

    /// The timestamp that the next order to rest would carry.
    pub closed spec fn upcoming_timestamp(&self) -> u64 {
        self.sequence.upcoming()
    }

    /// Both sides are well formed and each holds the side it is named for.
    pub closed spec fn wf(&self) -> bool {
        &&& self.buys.wf()
        &&& self.sells.wf()
        &&& self.buys.side_of() == Side::Buy
        &&& self.sells.side_of() == Side::Sell
    }

    /// What a well-formed book shows of its two sides.
    pub proof fn lemma_wf(&self)
        requires
            self.wf(),
        ensures
            crate::model::priority_sorted(Side::Buy, self.buy_orders()),
            crate::model::priority_sorted(Side::Sell, self.sell_orders()),
            crate::model::all_live(self.buy_orders()),
            crate::model::all_live(self.sell_orders()),
            forall|p: u64| #[trigger] crate::model::level_total(self.buy_orders(), p) <= u64::MAX,
            forall|p: u64| #[trigger] crate::model::level_total(self.sell_orders(), p) <= u64::MAX,
    {
        self.buys.lemma_wf();
        self.sells.lemma_wf();
    }

    /// An empty book with its own sequence source.
    pub fn new() -> (r: Self)
        ensures
            r.wf(),
            r.buy_orders() == Seq::<Order>::empty(),
            r.sell_orders() == Seq::<Order>::empty(),
            r.upcoming_timestamp() == 1,
    {
        Self::with_sequence(SequenceSource::new())
    }

    /// An empty book that takes its timestamps from `sequence`.
    pub fn with_sequence(sequence: SequenceSource) -> (r: Self)
        ensures
            r.wf(),
            r.buy_orders() == Seq::<Order>::empty(),
            r.sell_orders() == Seq::<Order>::empty(),
            r.upcoming_timestamp() == sequence.upcoming(),
    {
        OrderBook {
            buys: SideBook::new(Side::Buy),
            sells: SideBook::new(Side::Sell),
            sequence,
            trade_buffer: Vec::new(),
        }
    }

    /// Places an order of `side` at limit `price` for `quantity`, with id `id`.
    /// It trades against the opposing side while it crosses, best price first and
    /// then in arrival order, each trade at the resting order's price; what is left
    /// rests on its own side with the next timestamp. A zero quantity changes nothing.
    /// Gives the trades in the order they happened.
    pub fn place_order(&mut self, side: Side, price: u64, quantity: u64, id: u64) -> (r: &[Trade])
        requires
            old(self).wf(),
            quantity > 0 ==> old(self).upcoming_timestamp() < u64::MAX,
            quantity > 0 ==> crate::model::level_total(old(self).orders_of(side), price) + fill(
                old(self).orders_of(opposite(side)),
                side,
                price,
                quantity as nat,
                id,
            ).2 <= u64::MAX,
        ensures
            final(self).wf(),
            quantity == 0 ==> ({
                &&& r@ == Seq::<Trade>::empty()
                &&& final(self).buy_orders() == old(self).buy_orders()
                &&& final(self).sell_orders() == old(self).sell_orders()
                &&& final(self).upcoming_timestamp() == old(self).upcoming_timestamp()
            }),
            quantity > 0 ==> ({
                let f = fill(old(self).orders_of(opposite(side)), side, price, quantity as nat, id);
                let left = Order {
                    id,
                    price,
                    quantity: f.2 as u64,
                    timestamp: old(self).upcoming_timestamp(),
                };
                &&& r@ == f.0
                &&& final(self).orders_of(opposite(side)) == f.1
                &&& final(self).orders_of(side) == if f.2 > 0 {
                    rest_in(old(self).orders_of(side), side, left)
                } else {
                    old(self).orders_of(side)
                }
                &&& final(self).upcoming_timestamp() == old(self).upcoming_timestamp() + 1
            }),
    {
        self.trade_buffer.clear();
        if quantity == 0 {
            return self.trade_buffer.as_slice();
        }
        let timestamp = self.sequence.next_timestamp();
        let remaining = match side {
            Side::Buy => self.sells.fill_from(side, price, quantity, id, &mut self.trade_buffer),
            Side::Sell => self.buys.fill_from(side, price, quantity, id, &mut self.trade_buffer),
        };
        if remaining > 0 {
            let order = Order { id, price, quantity: remaining, timestamp };
            match side {
                Side::Buy => self.buys.insert(order),
                Side::Sell => self.sells.insert(order),
            }
        }
        proof {
            assert(self.trade_buffer@ =~= Seq::<Trade>::empty() + fill(
                old(self).orders_of(opposite(side)),
                side,
                price,
                quantity as nat,
                id,
            ).0);
        }
        self.trade_buffer.as_slice()
    }

    /// The best (highest) buy price with the total quantity resting there.
    pub fn best_buy(&self) -> (r: Option<(u64, u64)>)
        requires
            self.wf(),
        ensures
            r == top_of(self.buy_orders()),
    {
        Self::top_of_side(&self.buys)
    }

    /// The best (lowest) sell price with the total quantity resting there.
    pub fn best_sell(&self) -> (r: Option<(u64, u64)>)
        requires
            self.wf(),
        ensures
            r == top_of(self.sell_orders()),
    {
        Self::top_of_side(&self.sells)
    }

    /// The total buy quantity resting at `price`, if any buy order rests there.
    pub fn buy_at(&self, price: u64) -> (r: Option<(u64, u64)>)
        requires
            self.wf(),
        ensures
            r == level_of(self.buy_orders(), price),
    {
        self.buys.quantity_at(price)
    }

    /// The total sell quantity resting at `price`, if any sell order rests there.
    pub fn sell_at(&self, price: u64) -> (r: Option<(u64, u64)>)
        requires
            self.wf(),
        ensures
            r == level_of(self.sell_orders(), price),
    {
        self.sells.quantity_at(price)
    }

    fn top_of_side(book: &SideBook) -> (r: Option<(u64, u64)>)
        requires
            book.wf(),
        ensures
            r == top_of(book.orders()),
    {
        match book.best_price() {
            None => None,
            Some(best) => {
                proof {
                    assert(rests_at(book.orders(), best));
                }
                book.quantity_at(best)
            },
        }
    }
}

} // verus!
