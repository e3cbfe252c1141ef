//! What matching guarantees, stated over the model and proved.
use crate::model::{
    all_live, better, fill, level_of, level_total, opposite, order_sum, priority_sorted, rests_at,
    top_of, trade_sum, with_quantity,
};
use crate::order_book::OrderBook;
use crate::types::{Order, Side, Trade};
use vstd::prelude::*;

verus! {

/// The trades of a match take the opposing orders from the front, one trade per
/// order, each fully consumed but perhaps the last, which may be left partly filled
/// at the front of what remains.
pub open spec fn consumes_prefix(book: Seq<Order>, taker: u64, f: (Seq<Trade>, Seq<Order>, nat)) -> bool {
    let n = f.0.len();
    &&& n <= book.len()
    &&& forall|k: int|
        0 <= k < n ==> (#[trigger] f.0[k]).maker_id == book[k].id && f.0[k].price == book[k].price
            && f.0[k].taker_id == taker
    &&& forall|k: int| 0 <= k < n - 1 ==> (#[trigger] f.0[k]).quantity == book[k].quantity
    &&& n == 0 ==> f.1 == book
    &&& n > 0 ==> {
        ||| f.0[n - 1].quantity == book[n - 1].quantity && f.1 == book.skip(n as int)
        ||| f.0[n - 1].quantity < book[n - 1].quantity && f.2 == 0 && f.1 == book.skip(n - 1).update(
            0,
            with_quantity(book[n - 1], (book[n - 1].quantity - f.0[n - 1].quantity) as u64),
        )
    }
}

proof fn lemma_fill_consumes_prefix(book: Seq<Order>, side: Side, limit: u64, qty: nat, taker: u64)
    ensures
        consumes_prefix(book, taker, fill(book, side, limit, qty, taker)),
    decreases book.len(),
{
    if !(qty == 0 || book.len() == 0 || !crate::model::crosses(side, limit, book[0].price)) {
        let maker = book[0];
        if maker.quantity as nat <= qty {
            let rest = book.drop_first();
            let q = (qty - maker.quantity) as nat;
            lemma_fill_consumes_prefix(rest, side, limit, q, taker);
            let r = fill(rest, side, limit, q, taker);
            let f = fill(book, side, limit, qty, taker);
            let n = f.0.len();
            assert forall|k: int| 1 <= k < n implies f.0[k] == r.0[k - 1] by {}
            assert forall|k: int| 0 <= k < n implies (#[trigger] f.0[k]).maker_id == book[k].id
                && f.0[k].price == book[k].price && f.0[k].taker_id == taker by {
                if k > 0 {
                    assert(f.0[k] == r.0[k - 1]);
                }
            }
            assert forall|k: int| 0 <= k < n - 1 implies (#[trigger] f.0[k]).quantity
                == book[k].quantity by {
                if k > 0 {
                    assert(f.0[k] == r.0[k - 1]);
                }
            }
            if r.0.len() == 0 {
                assert(rest =~= book.skip(1));
            } else {
                assert(rest.skip(r.0.len() as int) =~= book.skip(n as int));
                assert(rest.skip(r.0.len() - 1) =~= book.skip(n - 1));
            }
        } else {
            assert(book.skip(0) =~= book);
        }
    }
}

proof fn lemma_fill_conserves(book: Seq<Order>, side: Side, limit: u64, qty: nat, taker: u64)
    requires
        all_live(book),
    ensures
        ({
            let f = fill(book, side, limit, qty, taker);
            &&& trade_sum(f.0) + f.2 == qty
            &&& order_sum(book) == order_sum(f.1) + trade_sum(f.0)
            &&& forall|k: int| 0 <= k < f.0.len() ==> (#[trigger] f.0[k]).quantity > 0
        }),
    decreases book.len(),
{
    if !(qty == 0 || book.len() == 0 || !crate::model::crosses(side, limit, book[0].price)) {
        let maker = book[0];
        let f = fill(book, side, limit, qty, taker);
        if maker.quantity as nat <= qty {
            let rest = book.drop_first();
            let q = (qty - maker.quantity) as nat;
            lemma_fill_conserves(rest, side, limit, q, taker);
            let r = fill(rest, side, limit, q, taker);
            assert(f.0.drop_first() =~= r.0);
            assert(trade_sum(f.0) == maker.quantity + trade_sum(r.0));
            assert(order_sum(book) == maker.quantity + order_sum(rest));
            assert forall|k: int| 0 <= k < f.0.len() implies (#[trigger] f.0[k]).quantity > 0 by {
                if k > 0 {
                    assert(f.0[k] == r.0[k - 1]);
                }
            }
        } else {
            assert(f.1.drop_first() =~= book.drop_first());
            assert(f.0.drop_first() =~= Seq::<Trade>::empty());
            assert(f.0[0].quantity == qty);
            assert(trade_sum(f.0.drop_first()) == 0);
            assert(trade_sum(f.0) == qty);
            assert(order_sum(f.1) == f.1[0].quantity + order_sum(book.drop_first()));
        }
    }
}

/// Price priority: an incoming order trades at the best opposing prices first.
/// The prices of its trades never improve from one trade to the next, and no
/// opposing order left in the book stands at a price better than any of them.
pub proof fn law_price_priority(book: OrderBook, side: Side, price: u64, quantity: u64, id: u64)
    requires
        book.wf(),
    ensures
        ({
            let makers = opposite(side);
            let f = fill(book.orders_of(makers), side, price, quantity as nat, id);
            &&& forall|i: int, j: int|
                0 <= i < j < f.0.len() ==> f.0[i].price == f.0[j].price || better(
                    makers,
                    f.0[i].price,
                    f.0[j].price,
                )
            &&& forall|k: int, j: int|
                0 <= k < f.0.len() && 0 <= j < f.1.len() ==> !better(
                    makers,
                    f.1[j].price,
                    f.0[k].price,
                )
        }),
{
    book.lemma_wf();
    let makers = opposite(side);
    let s = book.orders_of(makers);
    assert(priority_sorted(makers, s)) by {
        match side {
            Side::Buy => {},
            Side::Sell => {},
        }
    }
    lemma_fill_consumes_prefix(s, side, price, quantity as nat, id);
    let f = fill(s, side, price, quantity as nat, id);
    let n = f.0.len();
    assert forall|k: int, j: int| 0 <= k < n && 0 <= j < f.1.len() implies !better(
        makers,
        f.1[j].price,
        f.0[k].price,
    ) by {
        let m = if f.1 == s.skip(n as int) { j + n } else { j + n - 1 };
        assert(f.1[j].price == s[m].price);
        if m > k {
            assert(s[k].price == s[m].price || better(makers, s[k].price, s[m].price));
        }
    }
    assert forall|i: int, j: int| 0 <= i < j < n implies f.0[i].price == f.0[j].price || better(
        makers,
        f.0[i].price,
        f.0[j].price,
    ) by {
        assert(f.0[i].price == s[i].price && f.0[j].price == s[j].price);
    }
}

/// Time priority: among opposing orders, the incoming order trades with them in
/// book order, which at one price is arrival order. Its trades go to a prefix of
/// the opposing orders, one trade each, never skipping one; all but the last of
/// those are consumed whole, and the last is consumed whole or left partly filled.
pub proof fn law_fifo(book: OrderBook, side: Side, price: u64, quantity: u64, id: u64)
    ensures
        consumes_prefix(
            book.orders_of(opposite(side)),
            id,
            fill(book.orders_of(opposite(side)), side, price, quantity as nat, id),
        ),
{
    lemma_fill_consumes_prefix(book.orders_of(opposite(side)), side, price, quantity as nat, id);
}

/// Quantity conservation: the traded quantity plus what is left to rest equals the
/// incoming quantity, the opposing side loses exactly the traded quantity, and no
/// trade is for zero.
pub proof fn law_quantity_conservation(book: OrderBook, side: Side, price: u64, quantity: u64, id: u64)
    requires
        book.wf(),
    ensures
        ({
            let makers = book.orders_of(opposite(side));
            let f = fill(makers, side, price, quantity as nat, id);
            &&& trade_sum(f.0) + f.2 == quantity
            &&& order_sum(makers) == order_sum(f.1) + trade_sum(f.0)
            &&& forall|k: int| 0 <= k < f.0.len() ==> (#[trigger] f.0[k]).quantity > 0
        }),
{
    book.lemma_wf();
    let makers = book.orders_of(opposite(side));
    assert(all_live(makers)) by {
        match side {
            Side::Buy => {},
            Side::Sell => {},
        }
    }
    lemma_fill_conserves(makers, side, price, quantity as nat, id);
}

/// No empty level is ever reported: a level that `level_of` or `top_of` reports has
/// an order resting at its price and a positive total, and a price where no order
/// rests reports nothing.
pub proof fn law_no_empty_level(book: OrderBook, side: Side, price: u64)
    requires
        book.wf(),
    ensures
        ({
            let s = book.orders_of(side);
            &&& level_of(s, price) is None <==> !rests_at(s, price)
            &&& level_of(s, price) matches Some((p, total)) ==> p == price && total > 0
            &&& top_of(s) matches Some((p, total)) ==> rests_at(s, p) && total > 0
        }),
{
    book.lemma_wf();
    let s = book.orders_of(side);
    assert(all_live(s)) by {
        match side {
            Side::Buy => {},
            Side::Sell => {},
        }
    }
    crate::model::lemma_rests_at_iff_total(s, price);
    if s.len() > 0 {
        assert(rests_at(s, s[0].price));
        crate::model::lemma_rests_at_iff_total(s, s[0].price);
    }
    assert(level_total(s, price) <= u64::MAX);
    if s.len() > 0 {
        assert(level_total(s, s[0].price) <= u64::MAX);
    }
}

} // verus!
