//! Price levels: all resting orders at one exact price, in arrival order,
//! and the single fill primitive that consumes them strictly head-first.

use vstd::prelude::*;

use crate::order::Order;
use crate::order::Quantity;

verus! {

/// The order `o` with its remaining size replaced by `n`.
pub open spec fn with_size(o: Order, n: nat) -> Order {
    Order { bid_or_ask: o.bid_or_ask, size: Quantity { hundredths: n as u64 } }
}

/// The resting orders after one fill walk, before the purge: the walk goes
/// head to tail, fully consuming each resting order that the incoming
/// remainder covers, reducing the first one it cannot cover, and leaving
/// everything beyond that point untouched.
pub open spec fn filled_orders(s: Seq<Order>, inc: nat) -> Seq<Order>
    decreases s.len(),
{
    if s.len() == 0 {
        s
    } else if inc >= s[0].size@ {
        seq![with_size(s[0], 0)] + filled_orders(s.drop_first(), (inc - s[0].size@) as nat)
    } else {
        seq![with_size(s[0], (s[0].size@ - inc) as nat)] + s.drop_first()
    }
}

/// What remains of the incoming order after the same walk.
pub open spec fn remaining_after(s: Seq<Order>, inc: nat) -> nat
    decreases s.len(),
{
    if s.len() == 0 {
        inc
    } else if inc >= s[0].size@ {
        remaining_after(s.drop_first(), (inc - s[0].size@) as nat)
    } else {
        0
    }
}

/// The orders with every fully consumed (zero-size) order removed,
/// survivors kept in their original relative order.
pub open spec fn purged(s: Seq<Order>) -> Seq<Order>
    decreases s.len(),
{
    if s.len() == 0 {
        s
    } else if s[0].size@ == 0 {
        purged(s.drop_first())
    } else {
        seq![s[0]] + purged(s.drop_first())
    }
}

/// The sum of the remaining sizes of a sequence of orders.
pub open spec fn volume(s: Seq<Order>) -> nat
    decreases s.len(),
{
    if s.len() == 0 {
        0
    } else {
        s[0].size@ + volume(s.drop_first())
    }
}

/// A fill walk with nothing incoming leaves the resting orders as they are
/// and nothing remains of the incoming order.
pub proof fn lemma_fill_nothing(s: Seq<Order>)
    ensures
        filled_orders(s, 0) == s,
        remaining_after(s, 0) == 0,
    decreases s.len(),
{
    if s.len() > 0 {
        lemma_fill_nothing(s.drop_first());
        if 0 >= s[0].size@ {
            assert(with_size(s[0], 0) == s[0]);
        } else {
            assert(with_size(s[0], (s[0].size@ - 0) as nat) == s[0]);
        }
        assert(filled_orders(s, 0) =~= s);
    }
}

/// Purging a sequence of orders that are all unfilled changes nothing.
pub proof fn lemma_purged_all_positive(s: Seq<Order>)
    requires
        forall|i: int| 0 <= i < s.len() ==> s[i].size@ > 0,
    ensures
        purged(s) == s,
    decreases s.len(),
{
    if s.len() > 0 {
        lemma_purged_all_positive(s.drop_first());
        assert(purged(s) =~= s);
    }
}

/// No purged sequence holds a zero-size order.
pub proof fn lemma_purged_no_zeros(s: Seq<Order>)
    ensures
        forall|i: int| 0 <= i < purged(s).len() ==> purged(s)[i].size@ > 0,
    decreases s.len(),
{
    if s.len() > 0 {
        lemma_purged_no_zeros(s.drop_first());
    }
}

/// Purging removes only zero-size orders, so it keeps the total volume.
pub proof fn lemma_volume_purged(s: Seq<Order>)
    ensures
        volume(purged(s)) == volume(s),
    decreases s.len(),
{
    if s.len() > 0 {
        lemma_volume_purged(s.drop_first());
        if s[0].size@ != 0 {
            let t = seq![s[0]] + purged(s.drop_first());
            assert(t.drop_first() =~= purged(s.drop_first()));
        }
    }
}

/// Fill conservation: whatever the incoming order loses in a fill walk, the
/// resting orders lose in total, exactly — whether measured before or after
/// the purge — and neither side's loss is negative.
pub proof fn lemma_fill_conservation(s: Seq<Order>, inc: nat)
    ensures
        remaining_after(s, inc) <= inc,
        volume(filled_orders(s, inc)) <= volume(s),
        inc - remaining_after(s, inc) == volume(s) - volume(filled_orders(s, inc)),
        inc - remaining_after(s, inc) == volume(s) - volume(purged(filled_orders(s, inc))),
    decreases s.len(),
{
    lemma_volume_purged(filled_orders(s, inc));
    if s.len() > 0 {
        if inc >= s[0].size@ {
            lemma_fill_conservation(s.drop_first(), (inc - s[0].size@) as nat);
            let t = seq![with_size(s[0], 0)] + filled_orders(
                s.drop_first(),
                (inc - s[0].size@) as nat,
            );
            assert(t.drop_first() =~= filled_orders(s.drop_first(), (inc - s[0].size@) as nat));
        } else {
            let t = seq![with_size(s[0], (s[0].size@ - inc) as nat)] + s.drop_first();
            assert(t.drop_first() =~= s.drop_first());
        }
    }
}

/// A fill walk whose incoming size equals the level's whole volume consumes
/// every resting order exactly: nothing remains incoming, and the purge
/// leaves the level empty.
pub proof fn lemma_fill_exact_volume(s: Seq<Order>)
    ensures
        remaining_after(s, volume(s)) == 0,
        purged(filled_orders(s, volume(s))) == Seq::<Order>::empty(),
    decreases s.len(),
{
    if s.len() == 0 {
        assert(purged(filled_orders(s, volume(s))) =~= Seq::<Order>::empty());
    } else {
        let rest = s.drop_first();
        lemma_fill_exact_volume(rest);
        assert(volume(s) - s[0].size@ == volume(rest));
        let f = seq![with_size(s[0], 0)] + filled_orders(rest, volume(rest));
        assert(f.drop_first() =~= filled_orders(rest, volume(rest)));
        assert(purged(f) == purged(filled_orders(rest, volume(rest))));
    }
}

/// The survivors `t` of a fill pass on `s` are exactly a suffix of `s`
/// starting at position `k`, kept in arrival order, except that the oldest
/// survivor may have been partially reduced (never to zero).
pub open spec fn fifo_suffix(s: Seq<Order>, t: Seq<Order>, k: int) -> bool {
    &&& 0 <= k <= s.len()
    &&& t.len() == s.len() - k
    &&& forall|j: int| 1 <= j < t.len() ==> t[j] == s[k + j]
    &&& t.len() > 0 ==> {
        &&& t[0].bid_or_ask == s[k].bid_or_ask
        &&& 0 < t[0].size@ <= s[k].size@
    }
}

/// Price-time priority: a fill pass exhausts resting orders in strict
/// first-in-first-out arrival order. The orders that survive it are a suffix
/// of the original sequence, never reordered, with at most the oldest
/// survivor reduced in size.
pub proof fn lemma_fill_fifo(s: Seq<Order>, inc: nat)
    requires
        forall|i: int| 0 <= i < s.len() ==> s[i].size@ > 0,
    ensures
        exists|k: int| #[trigger] fifo_suffix(s, purged(filled_orders(s, inc)), k),
    decreases s.len(),
{
    let t = purged(filled_orders(s, inc));
    if s.len() == 0 {
        assert(fifo_suffix(s, t, 0));
    } else if inc >= s[0].size@ {
        let rest = s.drop_first();
        let f = seq![with_size(s[0], 0)] + filled_orders(rest, (inc - s[0].size@) as nat);
        assert(f.drop_first() =~= filled_orders(rest, (inc - s[0].size@) as nat));
        lemma_fill_fifo(rest, (inc - s[0].size@) as nat);
        let k0 = choose|k: int|
            #[trigger] fifo_suffix(rest, purged(filled_orders(rest, (inc - s[0].size@) as nat)), k);
        assert(fifo_suffix(s, t, k0 + 1));
    } else {
        let rest = s.drop_first();
        let reduced = with_size(s[0], (s[0].size@ - inc) as nat);
        let f = seq![reduced] + rest;
        assert(f.drop_first() =~= rest);
        lemma_purged_all_positive(rest);
        assert(t =~= seq![reduced] + rest);
        assert(fifo_suffix(s, t, 0));
    }
}

/// The mathematical view of a price level: its price and its resting orders.
pub struct LevelView {
    pub price: u64,
    pub orders: Seq<Order>,
}

/// All resting orders at one exact price, oldest first.
#[derive(Debug)]
pub struct Limit {
    /// The price of this level; every order resting here belongs at it.
    pub price: u64,
    /// The resting orders, in arrival order (head is oldest).
    pub orders: Vec<Order>,
}

impl View for Limit {
    type V = LevelView;

    open spec fn view(&self) -> LevelView {
        LevelView { price: self.price, orders: self.orders@ }
    }
}

impl Limit {
    /// An empty price level at the given price.
    pub fn new(price: u64) -> (l: Limit)
        ensures
            l.price == price,
            l.orders@.len() == 0,
    {
        Limit { price, orders: Vec::new() }
    }

    /// Appends an order at the tail: the newest arrival has the lowest
    /// priority at this level.
    pub fn add_order(&mut self, order: Order)
        ensures
            final(self).price == old(self).price,
            final(self).orders@ == old(self).orders@.push(order),
    {
        self.orders.push(order);
    }

    /// The sum of the remaining sizes of all resting orders at this level.
    /// The aggregate is undefined on an empty level, so one is ruled out.
    pub fn total_volume(&self) -> (r: Quantity)
        requires
            self.orders@.len() > 0,
            volume(self.orders@) <= u64::MAX,
        ensures
            r@ == volume(self.orders@),
    {
        let ghost all = self.orders@;
        let mut acc: u64 = 0;
        let mut i: usize = 0;
        proof {
            assert(all.skip(0) =~= all);
        }
        while i < self.orders.len()
            invariant
                i <= self.orders@.len(),
                self.orders@ == all,
                volume(all) <= u64::MAX,
                acc + volume(all.skip(i as int)) == volume(all),
            decreases self.orders@.len() - i,
        {
            proof {
                assert(all.skip(i as int).drop_first() =~= all.skip(i as int + 1));
            }
            acc = acc + self.orders[i].size.hundredths;
            i = i + 1;
        }
        proof {
            assert(all.skip(all.len() as int) =~= Seq::<Order>::empty());
        }
        Quantity { hundredths: acc }
    }

    /// Purges every fully consumed order, preserving the relative order of
    /// the survivors.
    pub fn remove_filled_orders(&mut self)
        ensures
            final(self).price == old(self).price,
            final(self).orders@ == purged(old(self).orders@),
    {
        let ghost all = self.orders@;
        let mut kept: Vec<Order> = Vec::new();
        let mut i: usize = 0;
        proof {
            assert(all.skip(0) =~= all);
            assert(kept@ + purged(all) =~= purged(all));
        }
        while i < self.orders.len()
            invariant
                i <= self.orders@.len(),
                self.orders@ == all,
                purged(all) == kept@ + purged(all.skip(i as int)),
            decreases self.orders@.len() - i,
        {
            let ghost pre = kept@;
            proof {
                assert(all.skip(i as int).drop_first() =~= all.skip(i as int + 1));
            }
            let o = self.orders[i];
            if o.size.hundredths > 0 {
                kept.push(o);
                proof {
                    assert(all.skip(i as int)[0] == all[i as int]);
                    assert(pre + (seq![o] + purged(all.skip(i as int + 1))) =~= kept@ + purged(
                        all.skip(i as int + 1),
                    ));
                }
            }
            i = i + 1;
        }
        proof {
            assert(all.skip(all.len() as int) =~= Seq::<Order>::empty());
            assert(kept@ + purged(all.skip(all.len() as int)) =~= kept@);
        }
        self.orders = kept;
    }

    /// The core matching primitive. Walks the resting orders oldest-first,
    /// consuming each one the incoming remainder covers and reducing the
    /// first it cannot cover; stops as soon as the incoming order is filled;
    /// then purges the fully consumed resting orders.
    pub fn fill_order(&mut self, market_order: &mut Order)
        ensures
            final(self).price == old(self).price,
            final(self).orders@ == purged(
                filled_orders(old(self).orders@, old(market_order).size@),
            ),
            final(market_order).size@ == remaining_after(
                old(self).orders@,
                old(market_order).size@,
            ),
            final(market_order).bid_or_ask == old(market_order).bid_or_ask,
            forall|i: int| 0 <= i < final(self).orders@.len() ==> final(self).orders@[i].size@ > 0,
    {
        let ghost orig = self.orders@;
        let ghost inc0 = market_order.size@;
        let n = self.orders.len();
        let mut i: usize = 0;
        proof {
            assert(orig.skip(0) =~= orig);
            assert(self.orders@.take(0) + filled_orders(orig.skip(0), inc0) =~= filled_orders(
                orig,
                inc0,
            ));
        }
        while i < n && market_order.size.hundredths > 0
            invariant
                i <= n,
                n == self.orders@.len(),
                n == orig.len(),
                self.price == old(self).price,
                market_order.bid_or_ask == old(market_order).bid_or_ask,
                self.orders@.skip(i as int) == orig.skip(i as int),
                filled_orders(orig, inc0) == self.orders@.take(i as int) + filled_orders(
                    orig.skip(i as int),
                    market_order.size@,
                ),
                remaining_after(orig, inc0) == remaining_after(
                    orig.skip(i as int),
                    market_order.size@,
                ),
            decreases n - i,
        {
            let ghost pre = self.orders@;
            let ghost inc = market_order.size@;
            let ghost t = orig.skip(i as int);
            proof {
                assert(t[0] == pre.skip(i as int)[0]);
                assert(pre.skip(i as int)[0] == pre[i as int]);
                assert(t.drop_first() =~= orig.skip(i as int + 1));
            }
            let cur = self.orders[i];
            if market_order.size.hundredths >= cur.size.hundredths {
                market_order.size = Quantity {
                    hundredths: market_order.size.hundredths - cur.size.hundredths,
                };
                self.orders[i] = Order {
                    bid_or_ask: cur.bid_or_ask,
                    size: Quantity { hundredths: 0 },
                };
                proof {
                    assert(self.orders@ =~= pre.update(i as int, with_size(t[0], 0)));
                    assert(self.orders@.take(i as int + 1) =~= pre.take(i as int) + seq![
                        with_size(t[0], 0),
                    ]);
                    assert(self.orders@.skip(i as int + 1) =~= orig.skip(i as int + 1));
                    assert(pre.take(i as int) + (seq![with_size(t[0], 0)] + filled_orders(
                        orig.skip(i as int + 1),
                        market_order.size@,
                    )) =~= self.orders@.take(i as int + 1) + filled_orders(
                        orig.skip(i as int + 1),
                        market_order.size@,
                    ));
                }
            } else {
                self.orders[i] = Order {
                    bid_or_ask: cur.bid_or_ask,
                    size: Quantity { hundredths: cur.size.hundredths - market_order.size.hundredths },
                };
                market_order.size = Quantity { hundredths: 0 };
                proof {
                    let reduced = with_size(t[0], (t[0].size@ - inc) as nat);
                    assert(self.orders@ =~= pre.update(i as int, reduced));
                    assert(self.orders@.take(i as int + 1) =~= pre.take(i as int) + seq![reduced]);
                    assert(self.orders@.skip(i as int + 1) =~= orig.skip(i as int + 1));
                    lemma_fill_nothing(orig.skip(i as int + 1));
                    assert(pre.take(i as int) + (seq![reduced] + orig.skip(i as int + 1))
                        =~= self.orders@.take(i as int + 1) + filled_orders(
                        orig.skip(i as int + 1),
                        0,
                    ));
                }
            }
            i = i + 1;
        }
        proof {
            if i == n {
                assert(orig.skip(n as int) =~= Seq::<Order>::empty());
                assert(self.orders@.take(n as int) =~= self.orders@);
                assert(self.orders@.take(n as int) + filled_orders(
                    orig.skip(n as int),
                    market_order.size@,
                ) =~= self.orders@);
            } else {
                assert(market_order.size@ == 0);
                lemma_fill_nothing(orig.skip(i as int));
                assert(self.orders@.take(i as int) + orig.skip(i as int) =~= self.orders@);
            }
            assert(self.orders@ == filled_orders(orig, inc0));
            assert(market_order.size@ == remaining_after(orig, inc0));
        }
        self.remove_filled_orders();
        proof {
            lemma_purged_no_zeros(filled_orders(orig, inc0));
        }
    }
}

} // verus!
