//! The order book for one trading pair: per-price levels on the bid side and
//! the ask side, and the best-price-first sweep for market orders.

use vstd::prelude::*;

use crate::limit::filled_orders;
use crate::limit::purged;
use crate::limit::remaining_after;
use crate::limit::volume;
use crate::limit::LevelView;
use crate::limit::Limit;
use crate::order::BidOrAsk;
use crate::order::Order;

verus! {

/// The views of a sequence of price levels.
pub open spec fn level_views(s: Seq<Limit>) -> Seq<LevelView> {
    s.map_values(|l: Limit| l@)
}

/// Prices strictly increase along the sequence (ask side: best price first).
pub open spec fn sorted_ascending(s: Seq<Limit>) -> bool {
    forall|i: int, j: int| 0 <= i < j < s.len() ==> s[i].price < s[j].price
}

/// Prices strictly decrease along the sequence (bid side: best price first).
pub open spec fn sorted_descending(s: Seq<Limit>) -> bool {
    forall|i: int, j: int| 0 <= i < j < s.len() ==> s[i].price > s[j].price
}

/// Every level holds at least one resting order.
pub open spec fn all_levels_nonempty(s: Seq<Limit>) -> bool {
    forall|i: int| 0 <= i < s.len() ==> s[i].orders@.len() > 0
}

/// The levels with every empty level removed, order kept.
pub open spec fn kept_levels(s: Seq<Limit>) -> Seq<Limit>
    decreases s.len(),
{
    if s.len() == 0 {
        s
    } else if s[0].orders@.len() == 0 {
        kept_levels(s.drop_first())
    } else {
        seq![s[0]] + kept_levels(s.drop_first())
    }
}

/// One side of the book after a limit order is placed at `price`: the order
/// joins the tail of the level with that exact price if one exists; otherwise
/// a fresh level is created at the position that keeps the side sorted
/// (ascending prices when `ascending`, else descending).
pub open spec fn placed(ls: Seq<LevelView>, price: u64, order: Order, ascending: bool) -> Seq<
    LevelView,
>
    decreases ls.len(),
{
    if ls.len() == 0 {
        seq![LevelView { price, orders: seq![order] }]
    } else if ls[0].price == price {
        seq![LevelView { price, orders: ls[0].orders.push(order) }] + ls.drop_first()
    } else if (ascending && price < ls[0].price) || (!ascending && price > ls[0].price) {
        seq![LevelView { price, orders: seq![order] }] + ls
    } else {
        seq![ls[0]] + placed(ls.drop_first(), price, order, ascending)
    }
}

/// One side of the book after a market order of size `inc` sweeps it: each
/// level is filled and purged in turn, best price first, and the sweep stops
/// with the level that exhausts the incoming order. Levels beyond that one
/// are untouched.
pub open spec fn swept_levels(ls: Seq<LevelView>, inc: nat) -> Seq<LevelView>
    decreases ls.len(),
{
    if ls.len() == 0 {
        ls
    } else {
        let head = LevelView { price: ls[0].price, orders: purged(filled_orders(ls[0].orders, inc)) };
        let rem = remaining_after(ls[0].orders, inc);
        if rem == 0 {
            seq![head] + ls.drop_first()
        } else {
            seq![head] + swept_levels(ls.drop_first(), rem)
        }
    }
}

/// What remains of a market order of size `inc` after it sweeps the levels.
pub open spec fn swept_remaining(ls: Seq<LevelView>, inc: nat) -> nat
    decreases ls.len(),
{
    if ls.len() == 0 {
        inc
    } else {
        let rem = remaining_after(ls[0].orders, inc);
        if rem == 0 {
            0
        } else {
            swept_remaining(ls.drop_first(), rem)
        }
    }
}

/// The level views with every empty level removed, order kept.
pub open spec fn nonempty_levels(ls: Seq<LevelView>) -> Seq<LevelView>
    decreases ls.len(),
{
    if ls.len() == 0 {
        ls
    } else if ls[0].orders.len() == 0 {
        nonempty_levels(ls.drop_first())
    } else {
        seq![ls[0]] + nonempty_levels(ls.drop_first())
    }
}

/// Some level in the sequence carries this exact price.
pub open spec fn contains_price(s: Seq<Limit>, price: u64) -> bool {
    exists|i: int| 0 <= i < s.len() && s[i].price == price
}

/// The book `after` is the book `before` with `order` rested at `price` on
/// the side matching the order's own side, the other side untouched.
pub open spec fn book_placed(before: OrderBook, after: OrderBook, price: u64, order: Order) -> bool {
    if order.bid_or_ask == BidOrAsk::Bid {
        &&& level_views(after.bids@) == placed(level_views(before.bids@), price, order, false)
        &&& after.asks@ == before.asks@
    } else {
        &&& level_views(after.asks@) == placed(level_views(before.asks@), price, order, true)
        &&& after.bids@ == before.bids@
    }
}

/// The book `after` is the book `before` after a market order of size `inc`
/// on side `side` swept the opposite side, emptied levels dropped; the
/// incoming order's own side is untouched.
pub open spec fn book_swept(before: OrderBook, after: OrderBook, side: BidOrAsk, inc: nat) -> bool {
    if side == BidOrAsk::Bid {
        &&& level_views(after.asks@) == nonempty_levels(
            swept_levels(level_views(before.asks@), inc),
        )
        &&& after.bids@ == before.bids@
    } else {
        &&& level_views(after.bids@) == nonempty_levels(
            swept_levels(level_views(before.bids@), inc),
        )
        &&& after.asks@ == before.asks@
    }
}

/// What remains of a market order of size `inc` on side `side` after it
/// sweeps the opposite side of the book `before`.
pub open spec fn book_swept_remaining(before: OrderBook, side: BidOrAsk, inc: nat) -> nat {
    if side == BidOrAsk::Bid {
        swept_remaining(level_views(before.asks@), inc)
    } else {
        swept_remaining(level_views(before.bids@), inc)
    }
}

/// The set of price levels on both sides of one market.
#[derive(Debug)]
pub struct OrderBook {
    /// Ask levels, sorted by ascending price: the best (lowest) ask first.
    pub asks: Vec<Limit>,
    /// Bid levels, sorted by descending price: the best (highest) bid first.
    pub bids: Vec<Limit>,
}

impl OrderBook {
    /// Both sides sorted best price first, one level per price, and no level
    /// left empty once an operation has returned.
    pub open spec fn wf(&self) -> bool {
        &&& sorted_ascending(self.asks@)
        &&& sorted_descending(self.bids@)
        &&& all_levels_nonempty(self.asks@)
        &&& all_levels_nonempty(self.bids@)
    }

    /// An empty book: no resting orders on either side.
    pub fn new() -> (b: OrderBook)
        ensures
            b.asks@.len() == 0,
            b.bids@.len() == 0,
            b.wf(),
    {
        OrderBook { asks: Vec::new(), bids: Vec::new() }
    }

    /// The ask levels, best (lowest) price first.
    pub fn ask_limits(&self) -> (r: &Vec<Limit>)
        ensures
            r@ == self.asks@,
    {
        &self.asks
    }

    /// The bid levels, best (highest) price first.
    pub fn bid_limits(&self) -> (r: &Vec<Limit>)
        ensures
            r@ == self.bids@,
    {
        &self.bids
    }

    /// The ask level at exactly `price`, if one exists.
    pub fn ask_limit_at(&self, price: u64) -> (r: Option<&Limit>)
        ensures
            match r {
                Some(l) => l.price == price && contains_price(self.asks@, price) && exists|i: int|
                    0 <= i < self.asks@.len() && self.asks@[i] == *l,
                None => !contains_price(self.asks@, price),
            },
    {
        find_level(&self.asks, price)
    }

    /// The bid level at exactly `price`, if one exists.
    pub fn bid_limit_at(&self, price: u64) -> (r: Option<&Limit>)
        ensures
            match r {
                Some(l) => l.price == price && contains_price(self.bids@, price) && exists|i: int|
                    0 <= i < self.bids@.len() && self.bids@[i] == *l,
                None => !contains_price(self.bids@, price),
            },
    {
        find_level(&self.bids, price)
    }

    /// Purges the levels whose order sequence has become empty, on both sides.
    pub fn remove_empty_limits(&mut self)
        ensures
            final(self).asks@ == kept_levels(old(self).asks@),
            final(self).bids@ == kept_levels(old(self).bids@),
    {
        remove_empty(&mut self.asks);
        remove_empty(&mut self.bids);
    }

    /// Rests a limit order at `price` on the side matching the order's own
    /// side. No crossing check is made: a limit order is never matched
    /// against the opposite side at insertion time, even at a price that
    /// would cross the spread; it purely rests.
    pub fn add_limit_order(&mut self, price: u64, order: Order)
        requires
            old(self).wf(),
        ensures
            final(self).wf(),
            book_placed(*old(self), *final(self), price, order),
    {
        match order.bid_or_ask {
            BidOrAsk::Bid => place_in_levels(&mut self.bids, price, order, false),
            BidOrAsk::Ask => place_in_levels(&mut self.asks, price, order, true),
        }
    }

    /// Sweeps the side opposite the incoming market order, best price first,
    /// filling level after level until the order is exhausted or the side
    /// runs out; then drops the levels that were emptied. Whatever portion of
    /// the incoming order is not matched is simply not filled: a market order
    /// is never added to the book.
    pub fn fill_market_order(&mut self, market_order: &mut Order)
        requires
            old(self).wf(),
        ensures
            final(self).wf(),
            final(market_order).bid_or_ask == old(market_order).bid_or_ask,
            book_swept(*old(self), *final(self), old(market_order).bid_or_ask, old(market_order).size@),
            final(market_order).size@ == book_swept_remaining(
                *old(self),
                old(market_order).bid_or_ask,
                old(market_order).size@,
            ),
            all_levels_nonempty(final(self).asks@),
            all_levels_nonempty(final(self).bids@),
    {
        match market_order.bid_or_ask {
            BidOrAsk::Bid => sweep(&mut self.asks, market_order),
            BidOrAsk::Ask => sweep(&mut self.bids, market_order),
        }
        let ghost mid = *self;
        proof {
            if old(market_order).bid_or_ask == BidOrAsk::Bid {
                lemma_kept_levels_identity(mid.bids@);
                lemma_kept_is_nonempty_views(mid.asks@);
            } else {
                lemma_kept_levels_identity(mid.asks@);
                lemma_kept_is_nonempty_views(mid.bids@);
            }
            assert(sorted_ascending(mid.asks@));
            assert(sorted_descending(mid.bids@));
        }
        self.remove_empty_limits();
        proof {
            lemma_kept_levels_sorted(mid.asks@);
            lemma_kept_levels_sorted(mid.bids@);
        }
    }
}

/// Whether a level at price `a` stands before one at price `b` on a side
/// sorted ascending (asks) or descending (bids).
fn comes_before(a: u64, b: u64, ascending: bool) -> (r: bool)
    ensures
        ascending ==> r == (a < b),
        !ascending ==> r == (a > b),
{
    if ascending {
        a < b
    } else {
        a > b
    }
}

/// Scans the levels for the one at exactly `price`.
fn find_level(levels: &Vec<Limit>, price: u64) -> (r: Option<&Limit>)
    ensures
        match r {
            Some(l) => l.price == price && contains_price(levels@, price) && exists|i: int|
                0 <= i < levels@.len() && levels@[i] == *l,
            None => !contains_price(levels@, price),
        },
{
    let mut i: usize = 0;
    while i < levels.len()
        invariant
            i <= levels@.len(),
            forall|j: int| 0 <= j < i ==> levels@[j].price != price,
        decreases levels@.len() - i,
    {
        if levels[i].price == price {
            return Some(&levels[i]);
        }
        i = i + 1;
    }
    None
}

/// Removes the empty levels in place, keeping the order of the others.
fn remove_empty(levels: &mut Vec<Limit>)
    ensures
        final(levels)@ == kept_levels(old(levels)@),
{
    let ghost orig = old(levels)@;
    let mut kept: Vec<Limit> = Vec::new();
    proof {
        assert(kept@ + kept_levels(orig) =~= kept_levels(orig));
    }
    while levels.len() > 0
        invariant
            kept_levels(orig) == kept@ + kept_levels(levels@),
        decreases levels@.len(),
    {
        let ghost pre = levels@;
        let ghost prekept = kept@;
        let l = levels.remove(0);
        proof {
            assert(levels@ =~= pre.drop_first());
        }
        if l.orders.len() > 0 {
            kept.push(l);
            proof {
                assert(prekept + (seq![l] + kept_levels(pre.drop_first())) =~= kept@ + kept_levels(
                    pre.drop_first(),
                ));
            }
        }
    }
    proof {
        assert(kept@ + kept_levels(levels@) =~= kept@);
    }
    *levels = kept;
}

/// Placing at a price that every level before position `k` precedes leaves
/// those levels alone: the placement happens entirely within the suffix.
proof fn lemma_placed_skip(ls: Seq<LevelView>, price: u64, order: Order, ascending: bool, k: int)
    requires
        0 <= k <= ls.len(),
        forall|j: int|
            0 <= j < k ==> (if ascending {
                ls[j].price < price
            } else {
                ls[j].price > price
            }),
    ensures
        placed(ls, price, order, ascending) == ls.take(k) + placed(
            ls.skip(k),
            price,
            order,
            ascending,
        ),
    decreases k,
{
    if k == 0 {
        assert(ls.skip(0) =~= ls);
        assert(ls.take(0) + placed(ls, price, order, ascending) =~= placed(
            ls,
            price,
            order,
            ascending,
        ));
    } else {
        let rest = ls.drop_first();
        lemma_placed_skip(rest, price, order, ascending, k - 1);
        assert(rest.take(k - 1) =~= ls.take(k).drop_first());
        assert(rest.skip(k - 1) =~= ls.skip(k));
        assert(seq![ls[0]] + (rest.take(k - 1) + placed(rest.skip(k - 1), price, order, ascending))
            =~= ls.take(k) + placed(ls.skip(k), price, order, ascending));
    }
}

/// Inserts the order into one side of the book, kept sorted best price first.
fn place_in_levels(levels: &mut Vec<Limit>, price: u64, order: Order, ascending: bool)
    requires
        ascending ==> sorted_ascending(old(levels)@),
        !ascending ==> sorted_descending(old(levels)@),
        all_levels_nonempty(old(levels)@),
    ensures
        level_views(final(levels)@) == placed(level_views(old(levels)@), price, order, ascending),
        ascending ==> sorted_ascending(final(levels)@),
        !ascending ==> sorted_descending(final(levels)@),
        all_levels_nonempty(final(levels)@),
{
    let ghost orig = old(levels)@;
    let n = levels.len();
    let mut i: usize = 0;
    while i < n && comes_before(levels[i].price, price, ascending)
        invariant
            i <= n,
            n == levels@.len(),
            levels@ == orig,
            forall|j: int|
                0 <= j < i ==> (if ascending {
                    orig[j].price < price
                } else {
                    orig[j].price > price
                }),
        decreases n - i,
    {
        i = i + 1;
    }
    proof {
        lemma_placed_skip(level_views(orig), price, order, ascending, i as int);
        assert(level_views(orig).skip(i as int) =~= level_views(orig.skip(i as int)));
        assert(level_views(orig).take(i as int) =~= level_views(orig.take(i as int)));
    }
    if i < n && levels[i].price == price {
        levels[i].orders.push(order);
        proof {
            let lv = level_views(orig).skip(i as int);
            assert(lv[0] == orig[i as int]@);
            assert(placed(lv, price, order, ascending) =~= seq![
                LevelView { price, orders: orig[i as int].orders@.push(order) },
            ] + lv.drop_first());
            assert(levels@ =~= orig.update(
                i as int,
                Limit { price, orders: levels@[i as int].orders },
            ));
            assert(lv.drop_first() =~= level_views(orig).skip(i as int + 1));
            assert(level_views(levels@) =~= level_views(orig).take(i as int) + (seq![
                LevelView { price, orders: orig[i as int].orders@.push(order) },
            ] + level_views(orig).skip(i as int + 1)));
        }
    } else {
        let mut limit = Limit::new(price);
        limit.add_order(order);
        levels.insert(i, limit);
        proof {
            let lv = level_views(orig).skip(i as int);
            let fresh = LevelView { price, orders: seq![order] };
            assert(limit.orders@ =~= seq![order]);
            assert(limit@ == fresh);
            orig.insert_ensures(i as int, limit);
            if i < n {
                assert(lv[0] == orig[i as int]@);
                assert(orig[i as int].price != price);
                assert(placed(lv, price, order, ascending) == seq![fresh] + lv);
            } else {
                assert(lv =~= Seq::<LevelView>::empty());
                assert(placed(lv, price, order, ascending) =~= seq![fresh] + lv);
            }
            assert(level_views(levels@) =~= level_views(orig).take(i as int) + (seq![fresh]
                + level_views(orig).skip(i as int)));
            assert(forall|a: int, b: int|
                0 <= a < b < levels@.len() ==> (if ascending {
                    levels@[a].price < levels@[b].price
                } else {
                    levels@[a].price > levels@[b].price
                }));
        }
    }
}

/// Sweeps the levels best-first with the incoming market order, filling and
/// purging level after level until the order is exhausted or the levels run
/// out. Prices and the number of levels do not change; emptied levels stay
/// in place for the caller to drop.
fn sweep(levels: &mut Vec<Limit>, market_order: &mut Order)
    ensures
        final(levels)@.len() == old(levels)@.len(),
        forall|j: int|
            0 <= j < final(levels)@.len() ==> final(levels)@[j].price == old(levels)@[j].price,
        level_views(final(levels)@) == swept_levels(
            level_views(old(levels)@),
            old(market_order).size@,
        ),
        final(market_order).size@ == swept_remaining(
            level_views(old(levels)@),
            old(market_order).size@,
        ),
        final(market_order).bid_or_ask == old(market_order).bid_or_ask,
{
    let ghost orig = old(levels)@;
    let ghost inc0 = old(market_order).size@;
    let n = levels.len();
    let mut i: usize = 0;
    proof {
        assert(orig.skip(0) =~= orig);
        assert(level_views(levels@.take(0)) + swept_levels(level_views(orig), inc0)
            =~= swept_levels(level_views(orig), inc0));
    }
    while i < n && (i == 0 || market_order.size.hundredths > 0)
        invariant
            i <= n,
            n == levels@.len(),
            n == orig.len(),
            forall|m: int| i <= m < n ==> levels@[m] == orig[m],
            forall|j: int| 0 <= j < n ==> levels@[j].price == orig[j].price,
            market_order.bid_or_ask == old(market_order).bid_or_ask,
            (i == 0 || market_order.size@ > 0) ==> {
                &&& swept_levels(level_views(orig), inc0) == level_views(levels@.take(i as int))
                    + swept_levels(level_views(orig.skip(i as int)), market_order.size@)
                &&& swept_remaining(level_views(orig), inc0) == swept_remaining(
                    level_views(orig.skip(i as int)),
                    market_order.size@,
                )
                &&& (i == 0 ==> market_order.size@ == inc0)
            },
            (i > 0 && market_order.size@ == 0) ==> {
                &&& swept_levels(level_views(orig), inc0) == level_views(levels@.take(i as int))
                    + level_views(orig.skip(i as int))
                &&& swept_remaining(level_views(orig), inc0) == 0
            },
        decreases n - i,
    {
        let ghost pre = levels@;
        let ghost inc = market_order.size@;
        let ghost t = level_views(orig.skip(i as int));
        proof {
            assert(pre[i as int] == orig[i as int]);
            assert(t[0] == orig[i as int]@);
        }
        levels[i].fill_order(market_order);
        proof {
            let head = LevelView {
                price: t[0].price,
                orders: purged(filled_orders(t[0].orders, inc)),
            };
            assert(levels@[i as int]@ == head);
            assert(levels@ =~= pre.update(i as int, levels@[i as int]));
            assert(forall|m: int| i + 1 <= m < n ==> levels@[m] == orig[m]);
            assert(levels@.take(i as int + 1) =~= pre.take(i as int).push(levels@[i as int]));
            assert(level_views(levels@.take(i as int + 1)) =~= level_views(pre.take(i as int))
                + seq![head]);
            assert(t.drop_first() =~= level_views(orig.skip(i as int + 1)));
            let rem = remaining_after(t[0].orders, inc);
            assert(market_order.size@ == rem);
            if rem == 0 {
                assert(swept_levels(t, inc) == seq![head] + t.drop_first());
                assert(level_views(pre.take(i as int)) + (seq![head] + t.drop_first())
                    =~= level_views(levels@.take(i as int + 1)) + level_views(
                    orig.skip(i as int + 1),
                ));
                assert(swept_remaining(t, inc) == 0);
            } else {
                assert(swept_levels(t, inc) == seq![head] + swept_levels(t.drop_first(), rem));
                assert(level_views(pre.take(i as int)) + (seq![head] + swept_levels(
                    t.drop_first(),
                    rem,
                )) =~= level_views(levels@.take(i as int + 1)) + swept_levels(
                    level_views(orig.skip(i as int + 1)),
                    rem,
                ));
                assert(swept_remaining(t, inc) == swept_remaining(t.drop_first(), rem));
            }
        }
        i = i + 1;
    }
    proof {
        if i == 0 || market_order.size@ > 0 {
            assert(i == n);
            assert(orig.skip(n as int) =~= Seq::<Limit>::empty());
            assert(level_views(orig.skip(n as int)) =~= Seq::<LevelView>::empty());
            assert(levels@.take(n as int) =~= levels@);
            assert(level_views(levels@) + swept_levels(Seq::<LevelView>::empty(), market_order.size@)
                =~= level_views(levels@));
        } else {
            assert(level_views(levels@.take(i as int)) + level_views(orig.skip(i as int))
                =~= level_views(levels@.take(i as int) + levels@.skip(i as int)));
            assert(levels@.take(i as int) + levels@.skip(i as int) =~= levels@);
        }
    }
}

/// Removing empty levels from a side that has none changes nothing.
pub proof fn lemma_kept_levels_identity(s: Seq<Limit>)
    requires
        all_levels_nonempty(s),
    ensures
        kept_levels(s) == s,
    decreases s.len(),
{
    if s.len() > 0 {
        lemma_kept_levels_identity(s.drop_first());
        assert(kept_levels(s) =~= s);
    }
}

/// Dropping empty levels commutes with taking level views.
pub proof fn lemma_kept_is_nonempty_views(s: Seq<Limit>)
    ensures
        level_views(kept_levels(s)) == nonempty_levels(level_views(s)),
    decreases s.len(),
{
    if s.len() == 0 {
        assert(level_views(kept_levels(s)) =~= nonempty_levels(level_views(s)));
    } else {
        lemma_kept_is_nonempty_views(s.drop_first());
        assert(level_views(s).drop_first() =~= level_views(s.drop_first()));
        if s[0].orders@.len() == 0 {
            assert(level_views(kept_levels(s)) =~= nonempty_levels(level_views(s)));
        } else {
            assert(level_views(seq![s[0]] + kept_levels(s.drop_first())) =~= seq![s[0]@]
                + level_views(kept_levels(s.drop_first())));
            assert(nonempty_levels(level_views(s)) == seq![level_views(s)[0]] + nonempty_levels(
                level_views(s).drop_first(),
            ));
            assert(level_views(kept_levels(s)) =~= nonempty_levels(level_views(s)));
        }
    }
}

/// Dropping empty levels keeps the remaining levels strictly sorted, leaves
/// none of them empty, and never brings in a better price than the side
/// already had at its head.
pub proof fn lemma_kept_levels_sorted(s: Seq<Limit>)
    ensures
        sorted_ascending(s) ==> sorted_ascending(kept_levels(s)),
        sorted_descending(s) ==> sorted_descending(kept_levels(s)),
        all_levels_nonempty(kept_levels(s)),
        s.len() > 0 && sorted_ascending(s) ==> forall|j: int|
            0 <= j < kept_levels(s).len() ==> (#[trigger] kept_levels(s)[j]).price >= s[0].price,
        s.len() > 0 && sorted_descending(s) ==> forall|j: int|
            0 <= j < kept_levels(s).len() ==> (#[trigger] kept_levels(s)[j]).price <= s[0].price,
    decreases s.len(),
{
    if s.len() > 0 {
        let rest = s.drop_first();
        lemma_kept_levels_sorted(rest);
        assert(forall|m: int| 0 <= m < rest.len() ==> rest[m] == s[m + 1]);
        if s[0].orders@.len() != 0 {
            let k = seq![s[0]] + kept_levels(rest);
            assert(forall|j: int| 1 <= j < k.len() ==> k[j] == kept_levels(rest)[j - 1]);
        }
    }
}

/// Keeping only the non-empty levels of a side that has no empty level
/// changes nothing.
pub proof fn lemma_nonempty_levels_identity(ls: Seq<LevelView>)
    requires
        forall|j: int| 0 <= j < ls.len() ==> (#[trigger] ls[j]).orders.len() > 0,
    ensures
        nonempty_levels(ls) == ls,
    decreases ls.len(),
{
    if ls.len() > 0 {
        lemma_nonempty_levels_identity(ls.drop_first());
        assert(nonempty_levels(ls) =~= ls);
    }
}

/// Best price first: a market order whose size equals exactly the volume of
/// the best level empties that level and only it. Every worse-priced level is
/// left untouched, and nothing of the incoming order remains unfilled.
pub proof fn lemma_best_price_first(ls: Seq<LevelView>, inc: nat)
    requires
        ls.len() > 0,
        inc == volume(ls[0].orders),
        forall|j: int| 1 <= j < ls.len() ==> (#[trigger] ls[j]).orders.len() > 0,
    ensures
        swept_remaining(ls, inc) == 0,
        nonempty_levels(swept_levels(ls, inc)) == ls.drop_first(),
{
    crate::limit::lemma_fill_exact_volume(ls[0].orders);
    let head = LevelView { price: ls[0].price, orders: purged(filled_orders(ls[0].orders, inc)) };
    let sw = seq![head] + ls.drop_first();
    assert(swept_levels(ls, inc) == sw);
    assert(sw[0].orders.len() == 0);
    assert(sw.drop_first() =~= ls.drop_first());
    assert(forall|j: int|
        0 <= j < ls.drop_first().len() ==> (#[trigger] ls.drop_first()[j]).orders.len() > 0);
    lemma_nonempty_levels_identity(ls.drop_first());
}

/// The total resting volume across a sequence of levels.
pub open spec fn levels_volume(ls: Seq<LevelView>) -> nat
    decreases ls.len(),
{
    if ls.len() == 0 {
        0
    } else {
        volume(ls[0].orders) + levels_volume(ls.drop_first())
    }
}

/// An empty level carries no volume, so dropping empty levels keeps the
/// total resting volume.
pub proof fn lemma_nonempty_levels_volume(ls: Seq<LevelView>)
    ensures
        levels_volume(nonempty_levels(ls)) == levels_volume(ls),
    decreases ls.len(),
{
    if ls.len() > 0 {
        lemma_nonempty_levels_volume(ls.drop_first());
        if ls[0].orders.len() != 0 {
            let t = seq![ls[0]] + nonempty_levels(ls.drop_first());
            assert(t.drop_first() =~= nonempty_levels(ls.drop_first()));
        }
    }
}

/// Sweep conservation: whatever an incoming market order loses across the
/// whole sweep, the swept side loses in total, exactly, whether the emptied
/// levels are counted or already dropped; and neither loss is negative.
pub proof fn lemma_sweep_conservation(ls: Seq<LevelView>, inc: nat)
    ensures
        swept_remaining(ls, inc) <= inc,
        levels_volume(swept_levels(ls, inc)) <= levels_volume(ls),
        inc - swept_remaining(ls, inc) == levels_volume(ls) - levels_volume(
            swept_levels(ls, inc),
        ),
        inc - swept_remaining(ls, inc) == levels_volume(ls) - levels_volume(
            nonempty_levels(swept_levels(ls, inc)),
        ),
    decreases ls.len(),
{
    lemma_nonempty_levels_volume(swept_levels(ls, inc));
    if ls.len() > 0 {
        let head = LevelView {
            price: ls[0].price,
            orders: purged(filled_orders(ls[0].orders, inc)),
        };
        crate::limit::lemma_fill_conservation(ls[0].orders, inc);
        let rem = remaining_after(ls[0].orders, inc);
        if rem == 0 {
            let sw = seq![head] + ls.drop_first();
            assert(sw.drop_first() =~= ls.drop_first());
        } else {
            lemma_sweep_conservation(ls.drop_first(), rem);
            let sw = seq![head] + swept_levels(ls.drop_first(), rem);
            assert(sw.drop_first() =~= swept_levels(ls.drop_first(), rem));
        }
    }
}

} // verus!
