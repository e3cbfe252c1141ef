//! The mathematical model of matching: a side of the book is the sequence of its
//! resting orders in priority order (best price first, then arrival order).
use crate::types::{Order, Side, Trade};
use vstd::prelude::*;

verus! {

/// The side that an order of `side` trades against.
pub open spec fn opposite(side: Side) -> Side {
    match side {
        Side::Buy => Side::Sell,
        Side::Sell => Side::Buy,
    }
}

/// `a` is a strictly better resting price than `b` on `side`:
/// higher for buyers, lower for sellers.
pub open spec fn better(side: Side, a: u64, b: u64) -> bool {
    match side {
        Side::Buy => a > b,
        Side::Sell => a < b,
    }
}

/// An incoming order of `side` limited at `limit` may trade with a resting order at `maker_price`.
pub open spec fn crosses(side: Side, limit: u64, maker_price: u64) -> bool {
    match side {
        Side::Buy => limit >= maker_price,
        Side::Sell => limit <= maker_price,
    }
}

/// Orders of `side` stand in priority order: a price never follows a strictly better one.
pub open spec fn priority_sorted(side: Side, s: Seq<Order>) -> bool {
    forall|i: int, j: int|
        0 <= i < j < s.len() ==> s[i].price == s[j].price || better(side, s[i].price, s[j].price)
}

/// Every order of `s` still has something to fill.
pub open spec fn all_live(s: Seq<Order>) -> bool {
    forall|i: int| 0 <= i < s.len() ==> s[i].quantity > 0
}

/// Some order of `s` rests at `price`.
pub open spec fn rests_at(s: Seq<Order>, price: u64) -> bool {
    exists|i: int| 0 <= i < s.len() && s[i].price == price
}

/// Total remaining quantity of the orders of `s` at `price`.
pub open spec fn level_total(s: Seq<Order>, price: u64) -> nat
    decreases s.len(),
{
    if s.len() == 0 {
        0
    } else {
        (if s[0].price == price { s[0].quantity as nat } else { 0 }) + level_total(
            s.drop_first(),
            price,
        )
    }
}

/// The price of the level at `price` with its total quantity, if an order rests there.
pub open spec fn level_of(s: Seq<Order>, price: u64) -> Option<(u64, u64)> {
    if rests_at(s, price) {
        Some((price, level_total(s, price) as u64))
    } else {
        None
    }
}

/// The best price of `s` with its total quantity, if any order rests in `s`.
pub open spec fn top_of(s: Seq<Order>) -> Option<(u64, u64)> {
    if s.len() == 0 {
        None
    } else {
        Some((s[0].price, level_total(s, s[0].price) as u64))
    }
}

/// Total remaining quantity of the orders of `s`.
pub open spec fn order_sum(s: Seq<Order>) -> nat
    decreases s.len(),
{
    if s.len() == 0 {
        0
    } else {
        s[0].quantity as nat + order_sum(s.drop_first())
    }
}

/// Total quantity of the trades of `t`.
pub open spec fn trade_sum(t: Seq<Trade>) -> nat
    decreases t.len(),
{
    if t.len() == 0 {
        0
    } else {
        t[0].quantity as nat + trade_sum(t.drop_first())
    }
}

/// `o` with `quantity` left.
pub open spec fn with_quantity(o: Order, quantity: u64) -> Order {
    Order { id: o.id, price: o.price, quantity, timestamp: o.timestamp }
}

/// Matching an incoming order of `side` (limit `limit`, quantity `qty`, id `taker`)
/// against the opposing orders `book`, given in priority order.
/// Gives the trades in the order they happen, the opposing orders left, and the
/// quantity of the incoming order left unfilled.
pub open spec fn fill(book: Seq<Order>, side: Side, limit: u64, qty: nat, taker: u64) -> (Seq<
    Trade,
>, Seq<Order>, nat)
    decreases book.len(),
{
    if qty == 0 || book.len() == 0 || !crosses(side, limit, book[0].price) {
        (Seq::empty(), book, qty)
    } else {
        let maker = book[0];
        if maker.quantity as nat <= qty {
            let t = Trade {
                price: maker.price,
                quantity: maker.quantity,
                maker_id: maker.id,
                taker_id: taker,
            };
            let r = fill(book.drop_first(), side, limit, (qty - maker.quantity) as nat, taker);
            (seq![t] + r.0, r.1, r.2)
        } else {
            let t = Trade { price: maker.price, quantity: qty as u64, maker_id: maker.id, taker_id: taker };
            (seq![t], book.update(0, with_quantity(maker, (maker.quantity - qty) as u64)), 0)
        }
    }
}

/// The orders of `side` after `o` comes to rest among them: behind every order at
/// its price or a better one, ahead of every order at a worse price.
pub open spec fn rest_in(book: Seq<Order>, side: Side, o: Order) -> Seq<Order>
    decreases book.len(),
{
    if book.len() == 0 {
        seq![o]
    } else if better(side, o.price, book[0].price) {
        seq![o] + book
    } else {
        seq![book[0]] + rest_in(book.drop_first(), side, o)
    }
}

/// The quantity at a price adds up over two runs of orders.
pub proof fn lemma_level_total_concat(a: Seq<Order>, b: Seq<Order>, price: u64)
    ensures
        level_total(a + b, price) == level_total(a, price) + level_total(b, price),
    decreases a.len(),
{
    if a.len() > 0 {
        assert((a + b).drop_first() =~= a.drop_first() + b);
        lemma_level_total_concat(a.drop_first(), b, price);
    } else {
        assert(a + b =~= b);
    }
}

/// A run of orders that all stand at one price `q` holds its whole quantity at `q`
/// and nothing elsewhere.
pub proof fn lemma_level_total_uniform(s: Seq<Order>, q: u64, price: u64)
    requires
        forall|i: int| 0 <= i < s.len() ==> s[i].price == q,
    ensures
        level_total(s, price) == if q == price { order_sum(s) } else { 0 },
    decreases s.len(),
{
    if s.len() > 0 {
        lemma_level_total_uniform(s.drop_first(), q, price);
    }
}

/// Where every order has something left, an order rests at a price exactly when
/// the quantity there is positive.
pub proof fn lemma_rests_at_iff_total(s: Seq<Order>, price: u64)
    requires
        all_live(s),
    ensures
        rests_at(s, price) <==> level_total(s, price) > 0,
    decreases s.len(),
{
    if s.len() > 0 {
        let t = s.drop_first();
        lemma_rests_at_iff_total(t, price);
        if rests_at(t, price) {
            let i = choose|i: int| 0 <= i < t.len() && t[i].price == price;
            assert(s[i + 1].price == price);
        }
        if rests_at(s, price) && s[0].price != price {
            let i = choose|i: int| 0 <= i < s.len() && s[i].price == price;
            assert(t[i - 1].price == price);
        }
    }
}

/// A new order passes over a run of orders none of which it betters.
pub proof fn lemma_rest_in_concat(a: Seq<Order>, b: Seq<Order>, side: Side, o: Order)
    requires
        forall|i: int| 0 <= i < a.len() ==> !better(side, o.price, #[trigger] a[i].price),
    ensures
        rest_in(a + b, side, o) == a + rest_in(b, side, o),
    decreases a.len(),
{
    if a.len() > 0 {
        assert((a + b).drop_first() =~= a.drop_first() + b);
        assert((a + b)[0] == a[0]);
        lemma_rest_in_concat(a.drop_first(), b, side, o);
        assert(seq![a[0]] + (a.drop_first() + rest_in(b, side, o)) =~= a + rest_in(b, side, o));
    } else {
        assert(a + b =~= b);
        assert(a + rest_in(b, side, o) =~= rest_in(b, side, o));
    }
}

/// Adding one order to the back adds its quantity to the total.
pub proof fn lemma_order_sum_push(s: Seq<Order>, o: Order)
    ensures
        order_sum(s.push(o)) == order_sum(s) + o.quantity,
    decreases s.len(),
{
    if s.len() > 0 {
        assert(s.push(o).drop_first() =~= s.drop_first().push(o));
        lemma_order_sum_push(s.drop_first(), o);
    } else {
        assert(s.push(o).drop_first() =~= s);
    }
}

/// Decides `better`.
pub fn is_better(side: Side, a: u64, b: u64) -> (r: bool)
    ensures
        r == better(side, a, b),
{
    match side {
        Side::Buy => a > b,
        Side::Sell => a < b,
    }
}

/// Decides `crosses`.
pub fn does_cross(side: Side, limit: u64, maker_price: u64) -> (r: bool)
    ensures
        r == crosses(side, limit, maker_price),
{
    match side {
        Side::Buy => limit >= maker_price,
        Side::Sell => limit <= maker_price,
    }
}

} // verus!
