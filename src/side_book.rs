//! One side of the book: its price levels, kept sorted from the worst price to the
//! best, so that the best level is the last one.
use crate::model::{
    crosses, does_cross, fill, opposite,
    all_live, better, is_better, lemma_level_total_concat, lemma_level_total_uniform,
    lemma_order_sum_push, lemma_rest_in_concat, lemma_rests_at_iff_total, rest_in,
    level_of, level_total, order_sum, priority_sorted, rests_at,
};
use crate::types::{Order, PriceLevel, Side, Trade};
use std::collections::VecDeque;
use vstd::prelude::*;

verus! {

/// The resting orders of `levels` in priority order: the last (best) level first,
/// each level in arrival order.
pub open spec fn flatten(levels: Seq<PriceLevel>) -> Seq<Order>
    decreases levels.len(),
{
    if levels.len() == 0 {
        Seq::empty()
    } else {
        levels.last().orders@ + flatten(levels.drop_last())
    }
}

/// A level holds at least one order, every order at the level's price with
/// something left, and its total fits in a `u64`.
pub open spec fn level_wf(level: PriceLevel) -> bool {
    &&& level.orders@.len() > 0
    &&& forall|i: int|
        0 <= i < level.orders@.len() ==> (#[trigger] level.orders@[i]).price == level.price
            && level.orders@[i].quantity > 0
    &&& order_sum(level.orders@) <= u64::MAX
}

/// Well-formed levels of `side`: each level is well formed and every level stands
/// at a strictly better price than the ones before it.
pub open spec fn levels_wf(side: Side, levels: Seq<PriceLevel>) -> bool {
    &&& forall|k: int| 0 <= k < levels.len() ==> level_wf(#[trigger] levels[k])
    &&& forall|k: int, l: int|
        0 <= k < l < levels.len() ==> better(side, levels[l].price, levels[k].price)
}

/// If every level stands at a price strictly worse than `p`, so does every order.
proof fn lemma_flatten_worse(side: Side, levels: Seq<PriceLevel>, p: u64)
    requires
        levels_wf(side, levels),
        forall|k: int| 0 <= k < levels.len() ==> better(side, p, #[trigger] levels[k].price),
    ensures
        forall|i: int|
            0 <= i < flatten(levels).len() ==> better(side, p, #[trigger] flatten(levels)[i].price),
    decreases levels.len(),
{
    if levels.len() > 0 {
        let n = levels.len() - 1;
        let rest = levels.drop_last();
        let top = levels[n].orders@;
        assert(level_wf(levels[n]));
        lemma_flatten_worse(side, rest, p);
        assert forall|i: int| 0 <= i < flatten(levels).len() implies better(
            side,
            p,
            #[trigger] flatten(levels)[i].price,
        ) by {
            if i < top.len() {
                assert(top[i].price == levels[n].price);
            } else {
                assert(flatten(levels)[i] == flatten(rest)[i - top.len()]);
            }
        }
    }
}

/// The flattened orders of well-formed levels are in priority order, all live.
pub proof fn lemma_flatten_sorted(side: Side, levels: Seq<PriceLevel>)
    requires
        levels_wf(side, levels),
    ensures
        priority_sorted(side, flatten(levels)),
        all_live(flatten(levels)),
        flatten(levels).len() == 0 <==> levels.len() == 0,
        levels.len() > 0 ==> flatten(levels)[0] == levels.last().orders@[0],
    decreases levels.len(),
{
    if levels.len() > 0 {
        let n = levels.len() - 1;
        let rest = levels.drop_last();
        let top = levels[n].orders@;
        let f = flatten(rest);
        assert(level_wf(levels[n]));
        lemma_flatten_sorted(side, rest);
        assert forall|k: int| 0 <= k < rest.len() implies better(
            side,
            levels[n].price,
            #[trigger] rest[k].price,
        ) by {}
        lemma_flatten_worse(side, rest, levels[n].price);
        let s = top + f;
        assert forall|i: int, j: int| 0 <= i < j < s.len() implies s[i].price == s[j].price
            || better(side, s[i].price, s[j].price) by {
            if j < top.len() {
                assert(top[i].price == levels[n].price && top[j].price == levels[n].price);
            } else if i < top.len() {
                assert(top[i].price == levels[n].price);
                assert(better(side, levels[n].price, f[j - top.len()].price));
            } else {
                assert(s[i] == f[i - top.len()] && s[j] == f[j - top.len()]);
            }
        }
        assert forall|i: int| 0 <= i < s.len() implies s[i].quantity > 0 by {
            if i < top.len() {
                assert(top[i].quantity > 0);
            } else {
                assert(s[i] == f[i - top.len()]);
            }
        }
    }
}

/// The quantity at the price of level `k` is that level's total.
pub proof fn lemma_flatten_level(side: Side, levels: Seq<PriceLevel>, k: int)
    requires
        levels_wf(side, levels),
        0 <= k < levels.len(),
    ensures
        level_total(flatten(levels), levels[k].price) == order_sum(levels[k].orders@),
        rests_at(flatten(levels), levels[k].price),
    decreases levels.len(),
{
    let n = levels.len() - 1;
    let rest = levels.drop_last();
    let p = levels[k].price;
    assert(level_wf(levels[n]));
    assert(level_wf(levels[k]));
    lemma_level_total_concat(levels[n].orders@, flatten(rest), p);
    lemma_level_total_uniform(levels[n].orders@, levels[n].price, p);
    if k == n {
        assert forall|j: int| 0 <= j < rest.len() implies (#[trigger] rest[j]).price != p by {
            assert(better(side, levels[n].price, levels[j].price));
        }
        lemma_flatten_absent(side, rest, p);
        assert(flatten(levels)[0] == levels[n].orders@[0]);
    } else {
        assert(better(side, levels[n].price, levels[k].price));
        lemma_flatten_level(side, rest, k);
        let i = choose|i: int| 0 <= i < flatten(rest).len() && flatten(rest)[i].price == p;
        assert(flatten(levels)[i + levels[n].orders@.len()] == flatten(rest)[i]);
    }
}

/// A price at which no level stands holds no order.
pub proof fn lemma_flatten_absent(side: Side, levels: Seq<PriceLevel>, p: u64)
    requires
        levels_wf(side, levels),
        forall|k: int| 0 <= k < levels.len() ==> (#[trigger] levels[k]).price != p,
    ensures
        level_total(flatten(levels), p) == 0,
        !rests_at(flatten(levels), p),
    decreases levels.len(),
{
    if levels.len() > 0 {
        let n = levels.len() - 1;
        let rest = levels.drop_last();
        assert(level_wf(levels[n]));
        assert(levels[n].price != p);
        lemma_level_total_concat(levels[n].orders@, flatten(rest), p);
        lemma_level_total_uniform(levels[n].orders@, levels[n].price, p);
        lemma_flatten_absent(side, rest, p);
    }
    lemma_flatten_sorted(side, levels);
    lemma_rests_at_iff_total(flatten(levels), p);
}

/// One side of the book. The levels double as the price index: they stand sorted
/// from the worst price to the best, each holding at least one order, so the best
/// price is that of the last level and a level leaves as soon as it drains.
pub struct SideBook {
    side: Side,
    levels: Vec<PriceLevel>,
}

impl SideBook {
    /// The resting orders of this side in priority order.
    pub closed spec fn orders(&self) -> Seq<Order> {
        flatten(self.levels@)
    }

    /// The side this book holds.
    pub closed spec fn side_of(&self) -> Side {
        self.side
    }

    /// The levels are well formed for this side.
    pub closed spec fn wf(&self) -> bool {
        levels_wf(self.side, self.levels@)
    }

    /// What a well-formed side shows of its orders.
    pub proof fn lemma_wf(&self)
        requires
            self.wf(),
        ensures
            priority_sorted(self.side_of(), self.orders()),
            all_live(self.orders()),
            forall|p: u64| #[trigger] level_total(self.orders(), p) <= u64::MAX,
    {
        lemma_flatten_sorted(self.side, self.levels@);
        assert forall|p: u64| #[trigger] level_total(self.orders(), p) <= u64::MAX by {
            if exists|k: int| 0 <= k < self.levels@.len() && self.levels@[k].price == p {
                let k = choose|k: int| 0 <= k < self.levels@.len() && self.levels@[k].price == p;
                assert(level_wf(self.levels@[k]));
                lemma_flatten_level(self.side, self.levels@, k);
            } else {
                lemma_flatten_absent(self.side, self.levels@, p);
            }
        }
    }

    /// An empty side.
    pub fn new(side: Side) -> (r: Self)
        ensures
            r.wf(),
            r.side_of() == side,
            r.orders() == Seq::<Order>::empty(),
    {
        SideBook { side, levels: Vec::new() }
    }

    /// The best price at which an order rests, if any.
    pub fn best_price(&self) -> (r: Option<u64>)
        requires
            self.wf(),
        ensures
            r == if self.orders().len() == 0 {
                None
            } else {
                Some(self.orders()[0].price)
            },
    {
        proof {
            lemma_flatten_sorted(self.side, self.levels@);
        }
        let n = self.levels.len();
        if n == 0 {
            None
        } else {
            proof {
                assert(level_wf(self.levels@[n - 1]));
            }
            Some(self.levels[n - 1].price)
        }
    }

    /// Total quantity of the orders of a well-formed level.
    fn level_sum(level: &PriceLevel) -> (r: u64)
        requires
            level_wf(*level),
        ensures
            r == order_sum(level.orders@),
    {
        let ghost s = level.orders@;
        let mut i: usize = level.orders.len();
        let mut sum: u64 = 0;
        proof {
            lemma_suffix_sum(s, i as int);
        }
        while i > 0
            invariant
                s == level.orders@,
                i <= s.len(),
                sum == order_sum(s.subrange(i as int, s.len() as int)),
                order_sum(s) <= u64::MAX,
            decreases i,
        {
            let ghost after = s.subrange(i as int, s.len() as int);
            proof {
                assert(s.subrange(i - 1, s.len() as int).drop_first() =~= after);
                lemma_suffix_sum(s, i - 1);
            }
            sum = sum + level.orders[i - 1].quantity;
            i = i - 1;
        }
        proof {
            assert(s.subrange(0, s.len() as int) =~= s);
        }
        sum
    }

    /// The price and total quantity of the level at `price`, if an order rests there.
    pub fn quantity_at(&self, price: u64) -> (r: Option<(u64, u64)>)
        requires
            self.wf(),
        ensures
            r == level_of(self.orders(), price),
    {
        let mut k: usize = 0;
        while k < self.levels.len()
            invariant
                self.wf(),
                k <= self.levels@.len(),
                forall|j: int| 0 <= j < k ==> (#[trigger] self.levels@[j]).price != price,
            decreases self.levels@.len() - k,
        {
            if self.levels[k].price == price {
                proof {
                    lemma_flatten_level(self.side, self.levels@, k as int);
                    assert(level_wf(self.levels@[k as int]));
                }
                return Some((price, Self::level_sum(&self.levels[k])));
            }
            k = k + 1;
        }
        proof {
            lemma_flatten_absent(self.side, self.levels@, price);
        }
        None
    }

    /// Rests `order` behind every order at its price or a better one: at the back
    /// of its price's level, or in a new level placed by price.
    pub fn insert(&mut self, order: Order)
        requires
            old(self).wf(),
            order.quantity > 0,
            level_total(old(self).orders(), order.price) + order.quantity <= u64::MAX,
        ensures
            final(self).wf(),
            final(self).side_of() == old(self).side_of(),
            final(self).orders() == rest_in(old(self).orders(), old(self).side_of(), order),
    {
        let n = self.levels.len();
        let mut j: usize = 0;
        while j < n && is_better(self.side, order.price, self.levels[j].price)
            invariant
                n == self.levels@.len(),
                j <= n,
                forall|k: int| 0 <= k < j ==> better(self.side, order.price, #[trigger] self.levels@[k].price),
            decreases n - j,
        {
            j = j + 1;
        }
        let ghost old_levels = self.levels@;
        if j < n && self.levels[j].price == order.price {
            proof {
                lemma_flatten_level(self.side, old_levels, j as int);
                assert(level_wf(old_levels[j as int]));
                lemma_order_sum_push(old_levels[j as int].orders@, order);
                lemma_flatten_append(self.side, old_levels, j as int, order);
            }
            self.levels[j].orders.push_back(order);
            proof {
                assert(self.levels@ =~= old_levels.update(j as int, self.levels@[j as int]));
                assert(level_wf(self.levels@[j as int]));
                assert forall|k: int| 0 <= k < self.levels@.len() implies level_wf(#[trigger] self.levels@[k]) by {
                    if k != j {
                        assert(level_wf(old_levels[k]));
                    }
                }
            }
        } else {
            let mut orders = VecDeque::new();
            orders.push_back(order);
            let level = PriceLevel { price: order.price, orders };
            proof {
                assert forall|k: int| j <= k < n implies better(self.side, #[trigger] old_levels[k].price, order.price) by {
                    if k > j {
                        assert(better(self.side, old_levels[k].price, old_levels[j as int].price));
                    }
                }
                assert(order_sum(level.orders@.drop_first()) == 0);
                lemma_flatten_new_level(self.side, old_levels, j as int, level);
            }
            self.levels.insert(j, level);
            proof {
                let new_levels = self.levels@;
                assert forall|k: int| 0 <= k < new_levels.len() implies level_wf(#[trigger] new_levels[k]) by {
                    if k < j {
                        assert(new_levels[k] == old_levels[k]);
                    } else if k > j {
                        assert(new_levels[k] == old_levels[k - 1]);
                    }
                }
                assert forall|k: int, l: int| 0 <= k < l < new_levels.len() implies better(
                    self.side,
                    new_levels[l].price,
                    new_levels[k].price,
                ) by {
                    if l < j {
                    } else if l == j {
                    } else if k < j {
                        assert(better(self.side, old_levels[l - 1].price, order.price));
                        assert(better(self.side, order.price, old_levels[k].price));
                    } else if k == j {
                    } else {
                        assert(better(self.side, old_levels[l - 1].price, old_levels[k - 1].price));
                    }
                }
            }
        }
    }
}

/// The total of a suffix never exceeds the whole.
proof fn lemma_suffix_sum(s: Seq<Order>, i: int)
    requires
        0 <= i <= s.len(),
    ensures
        order_sum(s.subrange(i, s.len() as int)) <= order_sum(s),
    decreases i,
{
    if i > 0 {
        assert(s.drop_first().subrange(i - 1, s.len() - 1) =~= s.subrange(i, s.len() as int));
        lemma_suffix_sum(s.drop_first(), i - 1);
    } else {
        assert(s.subrange(0, s.len() as int) =~= s);
    }
}

impl SideBook {
    /// Matches an incoming order of `side` (limit `limit`, quantity `quantity`, id
    /// `taker`) against this, the opposing side: best level first, each level from
    /// the front. Appends the trades to `trades` and gives the quantity left unfilled.
    pub fn fill_from(
        &mut self,
        side: Side,
        limit: u64,
        quantity: u64,
        taker: u64,
        trades: &mut Vec<Trade>,
    ) -> (remaining: u64)
        requires
            old(self).wf(),
            old(self).side_of() == opposite(side),
        ensures
            final(self).wf(),
            final(self).side_of() == old(self).side_of(),
            ({
                let r = fill(old(self).orders(), side, limit, quantity as nat, taker);
                &&& final(trades)@ == old(trades)@ + r.0
                &&& final(self).orders() == r.1
                &&& remaining as nat == r.2
            }),
    {
        let ghost goal = fill(self.orders(), side, limit, quantity as nat, taker);
        let ghost start = trades@;
        let mut remaining = quantity;
        loop
            invariant
                self.wf(),
                self.side == opposite(side),
                start + goal.0 == trades@ + fill(self.orders(), side, limit, remaining as nat, taker).0,
                goal.1 == fill(self.orders(), side, limit, remaining as nat, taker).1,
                goal.2 == fill(self.orders(), side, limit, remaining as nat, taker).2,
            ensures
                self.wf(),
                self.side == opposite(side),
                start + goal.0 == trades@,
                goal.1 == self.orders(),
                goal.2 == remaining,
            decreases self.levels@.len() + if remaining > 0 { 1int } else { 0int },
        {
            proof {
                lemma_flatten_sorted(self.side, self.levels@);
            }
            let n = self.levels.len();
            if remaining == 0 || n == 0 {
                proof {
                    assert(trades@ + Seq::<Trade>::empty() =~= trades@);
                }
                break;
            }
            let best = self.levels[n - 1].price;
            proof {
                assert(level_wf(self.levels@[n - 1]));
            }
            if !does_cross(side, limit, best) {
                proof {
                    assert(self.orders()[0].price == best);
                    assert(trades@ + Seq::<Trade>::empty() =~= trades@);
                }
                break;
            }
            let ghost before = self.levels@;
            let mut level = self.levels.pop().unwrap();
            proof {
                assert(self.levels@ =~= before.drop_last());
                assert forall|k: int| 0 <= k < self.levels@.len() implies better(
                    self.side,
                    best,
                    #[trigger] self.levels@[k].price,
                ) by {
                    assert(better(self.side, before[n - 1].price, before[k].price));
                }
            }
            while remaining > 0 && level.orders.len() > 0
                invariant
                    self.wf(),
                    self.side == opposite(side),
                    level.price == best,
                    crosses(side, limit, best),
                    forall|k: int| 0 <= k < self.levels@.len() ==> better(self.side, best, #[trigger] self.levels@[k].price),
                    forall|i: int| 0 <= i < level.orders@.len() ==> (#[trigger] level.orders@[i]).price == best
                        && level.orders@[i].quantity > 0,
                    order_sum(level.orders@) <= u64::MAX,
                    start + goal.0 == trades@ + fill(level.orders@ + flatten(self.levels@), side, limit, remaining as nat, taker).0,
                    goal.1 == fill(level.orders@ + flatten(self.levels@), side, limit, remaining as nat, taker).1,
                    goal.2 == fill(level.orders@ + flatten(self.levels@), side, limit, remaining as nat, taker).2,
                decreases level.orders@.len() + if remaining > 0 { 1int } else { 0int },
            {
                let ghost c = level.orders@ + flatten(self.levels@);
                let ghost tail = level.orders@.drop_first();
                let mut o = level.orders.pop_front().unwrap();
                proof {
                    assert(c[0] == o);
                    assert(c.drop_first() =~= tail + flatten(self.levels@));
                    assert(level.orders@ =~= tail);
                }
                let t = if o.quantity <= remaining { o.quantity } else { remaining };
                trades.push(Trade { price: best, quantity: t, maker_id: o.id, taker_id: taker });
                o.quantity = o.quantity - t;
                remaining = remaining - t;
                if o.quantity > 0 {
                    level.orders.push_front(o);
                    proof {
                        assert(level.orders@ + flatten(self.levels@) =~= c.update(0, o));
                        assert((seq![o] + tail).drop_first() =~= tail);
                    }
                }
            }
            if level.orders.len() > 0 {
                self.levels.push(level);
                proof {
                    assert(self.levels@.drop_last() =~= before.drop_last());
                    assert(level_wf(level));
                    assert forall|k: int| 0 <= k < self.levels@.len() implies level_wf(#[trigger] self.levels@[k]) by {
                        if k < n - 1 {
                            assert(self.levels@[k] == before[k]);
                        }
                    }
                }
            } else {
                proof {
                    assert(level.orders@ + flatten(self.levels@) =~= flatten(self.levels@));
                }
            }
        }
        remaining
    }
}

/// Appending `o` to the level at its own price `j` rests it as `rest_in` says.
proof fn lemma_flatten_append(side: Side, levels: Seq<PriceLevel>, j: int, o: Order)
    requires
        levels_wf(side, levels),
        0 <= j < levels.len(),
        levels[j].price == o.price,
    ensures
        forall|level: PriceLevel|
            level.price == o.price && level.orders@ == levels[j].orders@.push(o) ==> flatten(
                #[trigger] levels.update(j, level),
            ) == rest_in(flatten(levels), side, o),
    decreases levels.len(),
{
    let n = levels.len() - 1;
    let rest = levels.drop_last();
    let top = levels[n].orders@;
    assert(level_wf(levels[n]));
    assert forall|i: int| 0 <= i < top.len() implies !better(side, o.price, #[trigger] top[i].price) by {
        if j < n {
            assert(better(side, levels[n].price, levels[j].price));
        }
    }
    lemma_rest_in_concat(top, flatten(rest), side, o);
    assert forall|level: PriceLevel|
        level.price == o.price && level.orders@ == levels[j].orders@.push(o) implies flatten(
            #[trigger] levels.update(j, level),
        ) == rest_in(flatten(levels), side, o) by {
        let upd = levels.update(j, level);
        if j == n {
            assert(upd.drop_last() =~= rest);
            assert forall|k: int| 0 <= k < rest.len() implies better(side, o.price, #[trigger] rest[k].price) by {
                assert(better(side, levels[n].price, levels[k].price));
            }
            lemma_flatten_worse(side, rest, o.price);
            lemma_flatten_sorted(side, rest);
            assert(rest_in(flatten(rest), side, o) == seq![o] + flatten(rest));
            assert(top.push(o) + flatten(rest) =~= top + (seq![o] + flatten(rest)));
        } else {
            assert(upd.drop_last() =~= rest.update(j, level));
            assert(upd.last() == levels[n]);
            assert(levels_wf(side, rest));
            lemma_flatten_append(side, rest, j, o);
        }
    }
}

/// A new level for `o` placed between the worse and the better levels rests it as
/// `rest_in` says.
proof fn lemma_flatten_new_level(side: Side, levels: Seq<PriceLevel>, j: int, level: PriceLevel)
    requires
        levels_wf(side, levels),
        0 <= j <= levels.len(),
        level.orders@.len() == 1,
        level.orders@[0].price == level.price,
        forall|k: int| 0 <= k < j ==> better(side, level.price, #[trigger] levels[k].price),
        forall|k: int| j <= k < levels.len() ==> better(side, #[trigger] levels[k].price, level.price),
    ensures
        flatten(levels.insert(j, level)) == rest_in(flatten(levels), side, level.orders@[0]),
    decreases levels.len(),
{
    let o = level.orders@[0];
    let ins = levels.insert(j, level);
    if j == levels.len() {
        assert(ins.drop_last() =~= levels);
        lemma_flatten_worse(side, levels, o.price);
        lemma_flatten_sorted(side, levels);
        assert(level.orders@ =~= seq![o]);
    } else {
        let n = levels.len() - 1;
        let rest = levels.drop_last();
        let top = levels[n].orders@;
        assert(level_wf(levels[n]));
        assert(ins.drop_last() =~= rest.insert(j, level));
        assert(ins.last() == levels[n]);
        lemma_flatten_new_level(side, rest, j, level);
        assert forall|i: int| 0 <= i < top.len() implies !better(side, o.price, #[trigger] top[i].price) by {}
        lemma_rest_in_concat(top, flatten(rest), side, o);
    }
}

} // verus!
