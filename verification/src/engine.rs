//! The matching engine: the front door that owns one order book per trading
//! pair and routes order placement to it.

use vstd::prelude::*;

use crate::order::Order;
use crate::orderbook::book_placed;
use crate::orderbook::book_swept;
use crate::orderbook::book_swept_remaining;
use crate::orderbook::OrderBook;

verus! {

/// A trading pair: base and quote symbol, used purely as a lookup key.
#[derive(Debug)]
pub struct TradingPair {
    pub base: String,
    pub quote: String,
}

impl View for TradingPair {
    type V = (Seq<char>, Seq<char>);

    open spec fn view(&self) -> (Seq<char>, Seq<char>) {
        (self.base@, self.quote@)
    }
}

impl Clone for TradingPair {
    fn clone(&self) -> (r: Self)
        ensures
            r@ == self@,
    {
        TradingPair { base: self.base.clone(), quote: self.quote.clone() }
    }
}

impl TradingPair {
    pub fn new(base: String, quote: String) -> (p: TradingPair)
        ensures
            p@ == (base@, quote@),
    {
        TradingPair { base, quote }
    }

    /// The pair written `BASE_QUOTE`, as it appears in messages.
    pub fn label(&self) -> (r: String)
        ensures
            r@ == self@.0 + "_"@ + self@.1,
    {
        concat3(self.base.as_str(), "_", self.quote.as_str())
    }

    /// Whether two pairs name the same market.
    pub fn same_as(&self, other: &TradingPair) -> (r: bool)
        ensures
            r == (self@ == other@),
    {
        self.base == other.base && self.quote == other.quote
    }
}

/// Relies on std's `format!`: formatting three `{}` arguments in a row yields
/// exactly the concatenation of the three strings.
#[verifier::external_body]
fn concat3(a: &str, b: &str, c: &str) -> (r: String)
    ensures
        r@ == a@ + b@ + c@,
{
    format!("{}{}{}", a, b, c)
}

/// The failure message for an operation on a market nobody registered.
pub open spec fn market_not_found_message(key: (Seq<char>, Seq<char>)) -> Seq<char> {
    "the orderbook for the given trading pair ("@ + key.0 + "_"@ + key.1 + ") does not exist"@
}

/// Some registered market carries this pair.
pub open spec fn has_market(books: Seq<(TradingPair, OrderBook)>, key: (Seq<char>, Seq<char>)) -> bool {
    exists|i: int| 0 <= i < books.len() && (#[trigger] books[i]).0@ == key
}

/// The multi-market front door: one order book per registered trading pair.
pub struct MatchingEngine {
    /// The registered markets, each pair appearing at most once.
    pub orderbooks: Vec<(TradingPair, OrderBook)>,
}

impl MatchingEngine {
    /// Each pair is registered at most once, and every book is well formed.
    pub open spec fn wf(&self) -> bool {
        &&& forall|i: int, j: int|
            0 <= i < j < self.orderbooks@.len() ==> (#[trigger] self.orderbooks@[i]).0@ != (
            #[trigger] self.orderbooks@[j]).0@
        &&& forall|i: int|
            0 <= i < self.orderbooks@.len() ==> (#[trigger] self.orderbooks@[i]).1.wf()
    }

    /// An engine with no registered market.
    pub fn new() -> (e: MatchingEngine)
        ensures
            e.orderbooks@.len() == 0,
            e.wf(),
    {
        MatchingEngine { orderbooks: Vec::new() }
    }

    /// The order book registered for `pair`, if any.
    pub fn get_orderbook(&self, pair: &TradingPair) -> (r: Option<&OrderBook>)
        ensures
            match r {
                Some(b) => exists|i: int|
                    0 <= i < self.orderbooks@.len() && (#[trigger] self.orderbooks@[i]).0@ == pair@
                        && self.orderbooks@[i].1 == *b,
                None => !has_market(self.orderbooks@, pair@),
            },
    {
        let mut i: usize = 0;
        while i < self.orderbooks.len()
            invariant
                i <= self.orderbooks@.len(),
                forall|j: int| 0 <= j < i ==> (#[trigger] self.orderbooks@[j]).0@ != pair@,
            decreases self.orderbooks@.len() - i,
        {
            if self.orderbooks[i].0.same_as(pair) {
                return Some(&self.orderbooks[i].1);
            }
            i = i + 1;
        }
        None
    }

    /// Registers a fresh, empty order book for `pair`. Registering a pair
    /// that already has a book replaces that book, silently discarding every
    /// order resting in it: re-registration is a caller hazard, not guarded
    /// here.
    pub fn add_new_market(&mut self, pair: TradingPair)
        requires
            old(self).wf(),
        ensures
            final(self).wf(),
            has_market(final(self).orderbooks@, pair@),
            has_market(old(self).orderbooks@, pair@) ==> {
                &&& final(self).orderbooks@.len() == old(self).orderbooks@.len()
                &&& exists|i: int|
                    {
                        &&& 0 <= i < old(self).orderbooks@.len()
                        &&& (#[trigger] old(self).orderbooks@[i]).0@ == pair@
                        &&& final(self).orderbooks@ == old(self).orderbooks@.update(
                            i,
                            final(self).orderbooks@[i],
                        )
                        &&& final(self).orderbooks@[i].0@ == pair@
                        &&& final(self).orderbooks@[i].1.asks@.len() == 0
                        &&& final(self).orderbooks@[i].1.bids@.len() == 0
                    }
            },
            !has_market(old(self).orderbooks@, pair@) ==> {
                &&& final(self).orderbooks@.len() == old(self).orderbooks@.len() + 1
                &&& final(self).orderbooks@.drop_last() == old(self).orderbooks@
                &&& final(self).orderbooks@.last().0@ == pair@
                &&& final(self).orderbooks@.last().1.asks@.len() == 0
                &&& final(self).orderbooks@.last().1.bids@.len() == 0
            },
    {
        let n = self.orderbooks.len();
        let mut i: usize = 0;
        while i < n
            invariant
                i <= n,
                n == self.orderbooks@.len(),
                *self == *old(self),
                old(self).wf(),
                forall|j: int| 0 <= j < i ==> (#[trigger] self.orderbooks@[j]).0@ != pair@,
            decreases n - i,
        {
            if self.orderbooks[i].0.same_as(&pair) {
                self.orderbooks[i] = (pair, OrderBook::new());
                proof {
                    assert(self.orderbooks@ =~= old(self).orderbooks@.update(
                        i as int,
                        self.orderbooks@[i as int],
                    ));
                    assert((self.orderbooks@[i as int]).0@ == pair@);
                    assert(has_market(self.orderbooks@, pair@));
                }
                return ;
            }
            i = i + 1;
        }
        self.orderbooks.push((pair, OrderBook::new()));
        proof {
            assert(self.orderbooks@.drop_last() =~= old(self).orderbooks@);
            assert((self.orderbooks@[self.orderbooks@.len() - 1]).0@ == pair@);
            assert(has_market(self.orderbooks@, pair@));
        }
    }

    /// Rests a limit order at `price` in the book for `pair`. Fails with a
    /// market-not-found message, touching nothing, when no book exists for
    /// `pair`; once the market exists, placement always succeeds.
    pub fn place_limit_order(&mut self, pair: TradingPair, price: u64, order: Order) -> (r: Result<
        (),
        String,
    >)
        requires
            old(self).wf(),
        ensures
            final(self).wf(),
            has_market(old(self).orderbooks@, pair@) ==> {
                &&& r is Ok
                &&& exists|i: int|
                    {
                        &&& 0 <= i < old(self).orderbooks@.len()
                        &&& (#[trigger] old(self).orderbooks@[i]).0@ == pair@
                        &&& final(self).orderbooks@ == old(self).orderbooks@.update(
                            i,
                            final(self).orderbooks@[i],
                        )
                        &&& final(self).orderbooks@[i].0 == old(self).orderbooks@[i].0
                        &&& book_placed(
                            old(self).orderbooks@[i].1,
                            final(self).orderbooks@[i].1,
                            price,
                            order,
                        )
                    }
            },
            !has_market(old(self).orderbooks@, pair@) ==> {
                &&& r is Err
                &&& *final(self) == *old(self)
                &&& (r matches Err(m) ==> m@ == market_not_found_message(pair@))
            },
    {
        let n = self.orderbooks.len();
        let mut i: usize = 0;
        while i < n
            invariant
                i <= n,
                n == self.orderbooks@.len(),
                *self == *old(self),
                old(self).wf(),
                forall|j: int| 0 <= j < i ==> (#[trigger] self.orderbooks@[j]).0@ != pair@,
            decreases n - i,
        {
            if self.orderbooks[i].0.same_as(&pair) {
                proof {
                    assert(self.orderbooks@[i as int].1.wf());
                }
                let b = book_at(&mut self.orderbooks, i);
                b.add_limit_order(price, order);
                proof {
                    assert(self.orderbooks@ =~= old(self).orderbooks@.update(
                        i as int,
                        self.orderbooks@[i as int],
                    ));
                    assert(self.orderbooks@[i as int].1.wf());
                    assert(forall|j: int|
                        0 <= j < self.orderbooks@.len() && j != i ==> self.orderbooks@[j] == old(
                            self,
                        ).orderbooks@[j]);
                    assert(self.wf());
                }
                return Ok(());
            }
            i = i + 1;
        }
        Err(market_not_found(&pair))
    }

    /// Attempts to fill a market order against the book for `pair`, mutating
    /// the order in place. Fails with a market-not-found message, touching
    /// nothing, when no book exists for `pair`. Otherwise the call succeeds
    /// whether or not liquidity sufficed: the incoming order is never added
    /// to the book, any unmatched portion is simply dropped, and the caller
    /// reads the outcome off the order's remaining size.
    pub fn place_market_order(&mut self, pair: TradingPair, order: &mut Order) -> (r: Result<
        (),
        String,
    >)
        requires
            old(self).wf(),
        ensures
            final(self).wf(),
            final(order).bid_or_ask == old(order).bid_or_ask,
            has_market(old(self).orderbooks@, pair@) ==> {
                &&& r is Ok
                &&& exists|i: int|
                    {
                        &&& 0 <= i < old(self).orderbooks@.len()
                        &&& (#[trigger] old(self).orderbooks@[i]).0@ == pair@
                        &&& final(self).orderbooks@ == old(self).orderbooks@.update(
                            i,
                            final(self).orderbooks@[i],
                        )
                        &&& final(self).orderbooks@[i].0 == old(self).orderbooks@[i].0
                        &&& book_swept(
                            old(self).orderbooks@[i].1,
                            final(self).orderbooks@[i].1,
                            old(order).bid_or_ask,
                            old(order).size@,
                        )
                        &&& final(order).size@ == book_swept_remaining(
                            old(self).orderbooks@[i].1,
                            old(order).bid_or_ask,
                            old(order).size@,
                        )
                    }
            },
            !has_market(old(self).orderbooks@, pair@) ==> {
                &&& r is Err
                &&& *final(self) == *old(self)
                &&& *final(order) == *old(order)
                &&& (r matches Err(m) ==> m@ == market_not_found_message(pair@))
            },
    {
        let n = self.orderbooks.len();
        let mut i: usize = 0;
        while i < n
            invariant
                i <= n,
                n == self.orderbooks@.len(),
                *self == *old(self),
                old(self).wf(),
                *order == *old(order),
                forall|j: int| 0 <= j < i ==> (#[trigger] self.orderbooks@[j]).0@ != pair@,
            decreases n - i,
        {
            if self.orderbooks[i].0.same_as(&pair) {
                proof {
                    assert(self.orderbooks@[i as int].1.wf());
                }
                let b = book_at(&mut self.orderbooks, i);
                b.fill_market_order(order);
                proof {
                    assert(self.orderbooks@ =~= old(self).orderbooks@.update(
                        i as int,
                        self.orderbooks@[i as int],
                    ));
                    assert(self.orderbooks@[i as int].1.wf());
                    assert(forall|j: int|
                        0 <= j < self.orderbooks@.len() && j != i ==> self.orderbooks@[j] == old(
                            self,
                        ).orderbooks@[j]);
                    assert(self.wf());
                }
                return Ok(());
            }
            i = i + 1;
        }
        Err(market_not_found(&pair))
    }
}

/// A mutable borrow of the book in entry `i`, related to the whole table:
/// when the borrow ends, only that entry's book has changed.
fn book_at(books: &mut Vec<(TradingPair, OrderBook)>, i: usize) -> (r: &mut OrderBook)
    requires
        i < old(books)@.len(),
    ensures
        *r == old(books)@[i as int].1,
        final(books)@ == old(books)@.update(
            i as int,
            (old(books)@[i as int].0, *final(r)),
        ),
{
    &mut books[i].1
}

/// Builds the market-not-found failure message for `pair`.
fn market_not_found(pair: &TradingPair) -> (r: String)
    ensures
        r@ == market_not_found_message(pair@),
{
    let label = pair.label();
    let r = concat3("the orderbook for the given trading pair (", label.as_str(), ") does not exist");
    proof {
        assert(r@ =~= market_not_found_message(pair@));
    }
    r
}

} // verus!
