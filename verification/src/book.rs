//! The per-symbol order book: two price-sorted sides of resting limit
//! orders, each price level holding a first-in-first-out queue.
//!
//! Price-time priority is structural: the best price level stands first
//! on its side, and the head of a level's queue is the oldest order at
//! that price.

use vstd::prelude::*;

use crate::order::Order;
use crate::order::OrderSide;

verus! {

/// One price level: the orders resting at `price`, oldest first.
#[derive(Debug)]
pub struct PriceLevel {
    pub price: u64,
    pub orders: Vec<Order>,
}

/// An aggregated view of one price level, as reported in market depth.
#[derive(Debug)]
pub struct OrderBookLevel {
    pub price: u64,
    pub quantity: u128,
    pub order_count: usize,
}

impl Clone for OrderBookLevel {
    fn clone(&self) -> (r: Self)
        ensures
            r == *self,
    {
        OrderBookLevel { price: self.price, quantity: self.quantity, order_count: self.order_count }
    }
}

/// One symbol's book: bids with the highest price first, asks with the
/// lowest price first.
#[derive(Debug)]
pub struct OrderBook {
    pub symbol: String,
    pub bids: Vec<PriceLevel>,
    pub asks: Vec<PriceLevel>,
}

/// The price a resting order is keyed under: its limit price, or zero
/// when it carries none. A stop order without a limit price therefore
/// rests at price zero: a bid nobody matches, or an ask that is
/// immediately marketable against any resting bid.
pub open spec fn price_key(o: Order) -> u64 {
    match o.price {
        Some(p) => p,
        None => 0,
    }
}

/// Whether `side` keeps better prices first: strictly descending for
/// bids, strictly ascending for asks.
pub open spec fn side_sorted(side: Seq<PriceLevel>, s: OrderSide) -> bool {
    forall|i: int, j: int|
        0 <= i < j < side.len() ==> match s {
            OrderSide::Buy => (#[trigger] side[i]).price > (#[trigger] side[j]).price,
            OrderSide::Sell => (#[trigger] side[i]).price < (#[trigger] side[j]).price,
        }
}

/// A well-formed side: sorted best-first, no empty level, and every
/// order on the right side of the book under its own price key.
pub open spec fn side_well_formed(side: Seq<PriceLevel>, s: OrderSide) -> bool {
    &&& side_sorted(side, s)
    &&& forall|i: int| 0 <= i < side.len() ==> (#[trigger] side[i]).orders@.len() > 0
    &&& forall|i: int, k: int|
        0 <= i < side.len() && 0 <= k < side[i].orders@.len() ==> (#[trigger] side[i].orders@[k]).side
            == s && price_key(side[i].orders@[k]) == side[i].price
}

/// Whether some order on `side` carries `id`.
pub open spec fn side_has_id(side: Seq<PriceLevel>, id: u128) -> bool {
    exists|i: int, k: int|
        0 <= i < side.len() && 0 <= k < side[i].orders@.len() && (#[trigger] side[i].orders@[k]).id
            == id
}

/// Whether `o` itself rests somewhere on `side`.
pub open spec fn order_on_side(side: Seq<PriceLevel>, o: Order) -> bool {
    exists|i: int, k: int|
        0 <= i < side.len() && 0 <= k < side[i].orders@.len() && (#[trigger] side[i].orders@[k])
            == o
}

/// No two resting positions on `side` carry the same order id.
pub open spec fn side_ids_unique(side: Seq<PriceLevel>) -> bool {
    forall|i: int, k: int, j: int, l: int|
        #![trigger side[i].orders@[k].id, side[j].orders@[l].id]
        0 <= i < side.len() && 0 <= k < side[i].orders@.len() && 0 <= j < side.len() && 0 <= l
            < side[j].orders@.len() && side[i].orders@[k].id == side[j].orders@[l].id ==> i == j
            && k == l
}

/// The total remaining quantity of a queue of orders.
pub open spec fn level_total(orders: Seq<Order>) -> int
    decreases orders.len(),
{
    if orders.len() == 0 {
        0
    } else {
        orders[0].remaining_quantity + level_total(orders.drop_first())
    }
}

/// The total remaining quantity resting on a side.
pub open spec fn side_total(side: Seq<PriceLevel>) -> int
    decreases side.len(),
{
    if side.len() == 0 {
        0
    } else {
        level_total(side[0].orders@) + side_total(side.drop_first())
    }
}

/// The number of orders resting on a side.
pub open spec fn side_order_count(side: Seq<PriceLevel>) -> int
    decreases side.len(),
{
    if side.len() == 0 {
        0
    } else {
        side[0].orders@.len() + side_order_count(side.drop_first())
    }
}

impl OrderBook {
    /// Structural well-formedness of the whole book.
    pub open spec fn wf(self) -> bool {
        &&& side_well_formed(self.bids@, OrderSide::Buy)
        &&& side_well_formed(self.asks@, OrderSide::Sell)
        &&& side_ids_unique(self.bids@)
        &&& side_ids_unique(self.asks@)
        &&& forall|id: u128|
            #![trigger side_has_id(self.bids@, id)]
            !(side_has_id(self.bids@, id) && side_has_id(self.asks@, id))
    }

    /// Whether some resting order carries `id`.
    pub open spec fn has_order_id(self, id: u128) -> bool {
        side_has_id(self.bids@, id) || side_has_id(self.asks@, id)
    }

    pub open spec fn spec_best_bid(self) -> Option<u64> {
        if self.bids@.len() == 0 {
            None
        } else {
            Some(self.bids@[0].price)
        }
    }

    pub open spec fn spec_best_ask(self) -> Option<u64> {
        if self.asks@.len() == 0 {
            None
        } else {
            Some(self.asks@[0].price)
        }
    }

    /// A crossed book: both sides resting and the best bid at or above
    /// the best ask. A well-run book never stays in this state.
    pub open spec fn crossed(self) -> bool {
        self.bids@.len() > 0 && self.asks@.len() > 0 && self.bids@[0].price >= self.asks@[0].price
    }

    pub fn new(symbol: String) -> (r: OrderBook)
        ensures
            r.symbol@ == symbol@,
            r.bids@.len() == 0,
            r.asks@.len() == 0,
            r.wf(),
            !r.crossed(),
    {
        OrderBook { symbol, bids: Vec::new(), asks: Vec::new() }
    }

    /// The highest price with resting bids.
    pub fn get_best_bid(&self) -> (r: Option<u64>)
        ensures
            r == self.spec_best_bid(),
    {
        if self.bids.len() > 0 {
            Some(self.bids[0].price)
        } else {
            None
        }
    }

    /// The lowest price with resting asks.
    pub fn get_best_ask(&self) -> (r: Option<u64>)
        ensures
            r == self.spec_best_ask(),
    {
        if self.asks.len() > 0 {
            Some(self.asks[0].price)
        } else {
            None
        }
    }

    /// Best ask minus best bid; absent unless both sides rest. Negative
    /// exactly when the book is crossed.
    pub fn get_spread(&self) -> (r: Option<i128>)
        ensures
            match r {
                Some(v) => self.bids@.len() > 0 && self.asks@.len() > 0 && v
                    == self.asks@[0].price - self.bids@[0].price,
                None => self.bids@.len() == 0 || self.asks@.len() == 0,
            },
    {
        if self.bids.len() > 0 && self.asks.len() > 0 {
            Some(self.asks[0].price as i128 - self.bids[0].price as i128)
        } else {
            None
        }
    }

    /// Appends `order` to the queue at its price on its own side; a new
    /// price level is created in sorted position when none exists. The
    /// caller is responsible for validation.
    pub fn add_order(&mut self, order: Order)
        requires
            old(self).wf(),
            !old(self).has_order_id(order.id),
        ensures
            final(self).wf(),
            final(self).symbol == old(self).symbol,
            final(self).has_order_id(order.id),
            forall|id2: u128|
                id2 != order.id ==> #[trigger] final(self).has_order_id(id2) == old(
                    self,
                ).has_order_id(id2),
            order.side == OrderSide::Buy ==> {
                &&& final(self).asks == old(self).asks
                &&& side_inserted(old(self).bids@, final(self).bids@, order)
            },
            order.side == OrderSide::Sell ==> {
                &&& final(self).bids == old(self).bids
                &&& side_inserted(old(self).asks@, final(self).asks@, order)
            },
    {
        match order.side {
            OrderSide::Buy => {
                insert_into_side(&mut self.bids, order, OrderSide::Buy);
            },
            OrderSide::Sell => {
                insert_into_side(&mut self.asks, order, OrderSide::Sell);
            },
        }
    }

    /// Scans both sides for `order_id`, removes and returns the first
    /// match, dropping its price level once the queue is empty. Reports
    /// `None` when no resting order carries the id.
    pub fn remove_order(&mut self, order_id: u128) -> (r: Option<Order>)
        requires
            old(self).wf(),
        ensures
            final(self).wf(),
            final(self).symbol == old(self).symbol,
            !final(self).has_order_id(order_id),
            match r {
                None => *final(self) == *old(self) && !old(self).has_order_id(order_id),
                Some(o) => {
                    &&& o.id == order_id
                    &&& old(self).has_order_id(order_id)
                    &&& (order_on_side(old(self).bids@, o) || order_on_side(old(self).asks@, o))
                    &&& side_removed(old(self).bids@, final(self).bids@, order_id)
                    &&& side_removed(old(self).asks@, final(self).asks@, order_id)
                    &&& forall|id2: u128|
                        id2 != order_id ==> #[trigger] final(self).has_order_id(id2) == old(
                            self,
                        ).has_order_id(id2)
                },
            },
            forall|o2: Order|
                #![trigger order_on_side(final(self).bids@, o2)]
                order_on_side(final(self).bids@, o2) ==> order_on_side(old(self).bids@, o2),
            forall|o2: Order|
                #![trigger order_on_side(final(self).asks@, o2)]
                order_on_side(final(self).asks@, o2) ==> order_on_side(old(self).asks@, o2),
    {
        let r = side_remove(&mut self.bids, order_id, OrderSide::Buy);
        match r {
            Some(o) => Some(o),
            None => side_remove(&mut self.asks, order_id, OrderSide::Sell),
        }
    }
}

/// How a side looks after one order is queued into it: either appended
/// at the back of its existing price level, or resting alone in a new
/// level spliced in at some position.
pub open spec fn side_inserted(before: Seq<PriceLevel>, after: Seq<PriceLevel>, order: Order) -> bool {
    if exists|i: int| 0 <= i < before.len() && (#[trigger] before[i]).price == price_key(order) {
        let i = choose|i: int|
            0 <= i < before.len() && (#[trigger] before[i]).price == price_key(order);
        &&& after.len() == before.len()
        &&& after[i].price == price_key(order)
        &&& after[i].orders@ == before[i].orders@.push(order)
        &&& forall|j: int| 0 <= j < before.len() && j != i ==> after[j] == before[j]
    } else {
        exists|p: int|
            {
                &&& 0 <= p <= before.len()
                &&& after.len() == before.len() + 1
                &&& (#[trigger] after[p]).price == price_key(order)
                &&& after[p].orders@.len() == 1
                &&& after[p].orders@[0] == order
                &&& (forall|j: int| 0 <= j < p ==> after[j] == before[j])
                &&& (forall|j: int| p <= j < before.len() ==> after[j + 1] == before[j])
            }
    }
}

/// How a side looks after the order with `id` is removed from it, if it
/// was there at all: every remaining order rested before, in the same
/// relative position, and nothing else changed.
pub open spec fn side_removed(before: Seq<PriceLevel>, after: Seq<PriceLevel>, id: u128) -> bool {
    if !side_has_id(before, id) {
        after == before
    } else {
        exists|i: int, k: int|
            {
                &&& 0 <= i < before.len()
                &&& 0 <= k < before[i].orders@.len()
                &&& (#[trigger] before[i].orders@[k]).id == id
                &&& if before[i].orders@.len() > 1 {
                    &&& after.len() == before.len()
                    &&& after[i].price == before[i].price
                    &&& after[i].orders@ == before[i].orders@.remove(k)
                    &&& forall|j: int| 0 <= j < before.len() && j != i ==> after[j] == before[j]
                } else {
                    &&& after.len() == before.len() - 1
                    &&& (forall|j: int| 0 <= j < i ==> after[j] == before[j])
                    &&& (forall|j: int| i < j < before.len() ==> after[j - 1] == before[j])
                }
            }
    }
}

/// Queues `order` into `side` under its price key, appending at the
/// back of its level or splicing in a new sorted level.
fn insert_into_side(side: &mut Vec<PriceLevel>, order: Order, s: OrderSide)
    requires
        side_well_formed(old(side)@, s),
        side_ids_unique(old(side)@),
        !side_has_id(old(side)@, order.id),
        order.side == s,
    ensures
        side_well_formed(final(side)@, s),
        side_ids_unique(final(side)@),
        side_has_id(final(side)@, order.id),
        forall|id2: u128|
            id2 != order.id ==> side_has_id(final(side)@, id2) == side_has_id(old(side)@, id2),
        side_inserted(old(side)@, final(side)@, order),
{
    let key = match order.price {
        Some(p) => p,
        None => 0,
    };
    let descending = match s {
        OrderSide::Buy => true,
        OrderSide::Sell => false,
    };
    let n = side.len();
    let mut i: usize = 0;
    while i < n && (descending && side[i].price > key || !descending && side[i].price < key)
        invariant
            n == side@.len(),
            0 <= i <= n,
            forall|j: int|
                0 <= j < i ==> (if descending {
                    (#[trigger] side@[j]).price > key
                } else {
                    side@[j].price < key
                }),
        decreases n - i,
    {
        i = i + 1;
    }
    if i < n && side[i].price == key {
        let ghost before = side@;
        let mut level = side.remove(i);
        level.orders.push(order);
        let ghost newlevel = level;
        side.insert(i, level);
        proof {
            assert(side@ =~= before.update(i as int, newlevel));
            lemma_insert_existing(before, side@, order, i as int, s);
        }
    } else {
        let ghost before = side@;
        let level = PriceLevel { price: key, orders: vec![order] };
        side.insert(i, level);
        proof {
            lemma_insert_new(before, side@, order, i as int, s, descending);
        }
    }
}

/// Appending to the queue of the level at `i` preserves well-formedness
/// and yields `side_inserted`.
proof fn lemma_insert_existing(
    before: Seq<PriceLevel>,
    after: Seq<PriceLevel>,
    order: Order,
    i: int,
    s: OrderSide,
)
    requires
        side_well_formed(before, s),
        side_ids_unique(before),
        !side_has_id(before, order.id),
        order.side == s,
        0 <= i < before.len(),
        before[i].price == price_key(order),
        after.len() == before.len(),
        after[i].price == before[i].price,
        after[i].orders@ == before[i].orders@.push(order),
        forall|j: int| 0 <= j < before.len() && j != i ==> after[j] == before[j],
    ensures
        side_well_formed(after, s),
        side_ids_unique(after),
        side_has_id(after, order.id),
        forall|id2: u128| id2 != order.id ==> side_has_id(after, id2) == side_has_id(before, id2),
        side_inserted(before, after, order),
{
    let q = before[i].orders@;
    assert(after[i].orders@[q.len() as int] == order);
    assert(side_has_id(after, order.id));
    assert forall|j: int, k: int|
        0 <= j < after.len() && 0 <= k < after[j].orders@.len() implies (#[trigger] after[j].orders@[k]).side
        == s && price_key(after[j].orders@[k]) == after[j].price by {
        if j == i && k < q.len() {
            assert(after[j].orders@[k] == before[j].orders@[k]);
        } else if j == i {
            assert(after[j].orders@[k] == order);
        } else {
            assert(after[j] == before[j]);
        }
    };
    assert forall|j: int, k: int, j2: int, l: int|
        0 <= j < after.len() && 0 <= k < after[j].orders@.len() && 0 <= j2 < after.len() && 0 <= l
            < after[j2].orders@.len() && after[j].orders@[k].id == after[j2].orders@[l].id implies j
        == j2 && k == l by {
        let id1 = after[j].orders@[k].id;
        if (j == i && k == q.len()) && (j2 == i && l == q.len()) {
        } else if j == i && k == q.len() {
            assert(after[j2].orders@[l] == before[j2].orders@[l]);
            assert(side_has_id(before, order.id));
            assert(false);
        } else if j2 == i && l == q.len() {
            assert(after[j].orders@[k] == before[j].orders@[k]);
            assert(side_has_id(before, order.id));
            assert(false);
        } else {
            assert(after[j].orders@[k] == before[j].orders@[k]);
            assert(after[j2].orders@[l] == before[j2].orders@[l]);
        }
    };
    assert forall|id2: u128| id2 != order.id implies side_has_id(after, id2) == side_has_id(
        before,
        id2,
    ) by {
        if side_has_id(before, id2) {
            let (j, k) = choose|j: int, k: int|
                0 <= j < before.len() && 0 <= k < before[j].orders@.len() && (#[trigger] before[j].orders@[k]).id
                    == id2;
            assert(after[j].orders@[k].id == id2);
        }
        if side_has_id(after, id2) {
            let (j, k) = choose|j: int, k: int|
                0 <= j < after.len() && 0 <= k < after[j].orders@.len() && (#[trigger] after[j].orders@[k]).id
                    == id2;
            if j == i && k == q.len() {
                assert(false);
            } else {
                assert(after[j].orders@[k] == before[j].orders@[k]);
            }
        }
    };
    assert(side_inserted(before, after, order)) by {
        let i2 = choose|x: int|
            0 <= x < before.len() && (#[trigger] before[x]).price == price_key(order);
        assert(side_sorted(before, s));
        if i2 != i {
            assert(before[i2].price == before[i].price);
            assert(false);
        }
    };
}

/// Splicing a fresh single-order level in at sorted position `i`
/// preserves well-formedness and yields `side_inserted`.
proof fn lemma_insert_new(
    before: Seq<PriceLevel>,
    after: Seq<PriceLevel>,
    order: Order,
    i: int,
    s: OrderSide,
    descending: bool,
)
    requires
        side_well_formed(before, s),
        side_ids_unique(before),
        !side_has_id(before, order.id),
        order.side == s,
        descending == (s == OrderSide::Buy),
        0 <= i <= before.len(),
        forall|j: int|
            0 <= j < i ==> (if descending {
                (#[trigger] before[j]).price > price_key(order)
            } else {
                before[j].price < price_key(order)
            }),
        i < before.len() ==> (if descending {
            !(before[i].price > price_key(order))
        } else {
            !(before[i].price < price_key(order))
        }),
        i < before.len() ==> before[i].price != price_key(order),
        after.len() == before.len() + 1,
        after[i].price == price_key(order),
        after[i].orders@.len() == 1,
        after[i].orders@[0] == order,
        forall|j: int| 0 <= j < i ==> after[j] == before[j],
        forall|j: int| i <= j < before.len() ==> after[j + 1] == before[j],
    ensures
        side_well_formed(after, s),
        side_ids_unique(after),
        side_has_id(after, order.id),
        forall|id2: u128| id2 != order.id ==> side_has_id(after, id2) == side_has_id(before, id2),
        side_inserted(before, after, order),
{
    assert forall|x: int| 0 <= x < before.len() implies (#[trigger] before[x]).price != price_key(
        order,
    ) by {
        if x < i {
        } else if x == i {
        } else {
            assert(side_sorted(before, s));
            assert(i < before.len());
        }
    };
    assert forall|j: int| 0 <= j < after.len() implies (#[trigger] after[j]).orders@.len() > 0 by {
        if j < i {
        } else if j == i {
        } else {
            assert(after[j] == before[j - 1]);
        }
    };
    assert(side_sorted(after, s)) by {
        assert forall|x: int, y: int| 0 <= x < y < after.len() implies match s {
            OrderSide::Buy => (#[trigger] after[x]).price > (#[trigger] after[y]).price,
            OrderSide::Sell => (#[trigger] after[x]).price < (#[trigger] after[y]).price,
        } by {
            if x < i && y < i {
            } else if x < i && y == i {
            } else if x < i && y > i {
                assert(after[y] == before[y - 1]);
            } else if x == i && y > i {
                assert(after[y] == before[y - 1]);
                assert(i <= y - 1 < before.len());
            } else if x > i && y > i {
                assert(after[x] == before[x - 1]);
                assert(after[y] == before[y - 1]);
            }
        };
    };
    assert forall|j: int, k: int|
        0 <= j < after.len() && 0 <= k < after[j].orders@.len() implies (#[trigger] after[j].orders@[k]).side
        == s && price_key(after[j].orders@[k]) == after[j].price by {
        if j < i {
        } else if j == i {
            assert(after[j].orders@[k] == order);
        } else {
            assert(after[j] == before[j - 1]);
        }
    };
    assert(side_has_id(after, order.id)) by {
        assert(after[i].orders@[0].id == order.id);
    };
    assert forall|j: int, k: int, j2: int, l: int|
        0 <= j < after.len() && 0 <= k < after[j].orders@.len() && 0 <= j2 < after.len() && 0 <= l
            < after[j2].orders@.len() && after[j].orders@[k].id == after[j2].orders@[l].id implies j
        == j2 && k == l by {
        if j == i && j2 == i {
        } else if j == i {
            let jb = if j2 < i { j2 } else { j2 - 1 };
            assert(after[j2] == before[jb]);
            assert(side_has_id(before, order.id));
            assert(false);
        } else if j2 == i {
            let jb = if j < i { j } else { j - 1 };
            assert(after[j] == before[jb]);
            assert(side_has_id(before, order.id));
            assert(false);
        } else {
            let jb = if j < i { j } else { j - 1 };
            let jb2 = if j2 < i { j2 } else { j2 - 1 };
            assert(after[j] == before[jb]);
            assert(after[j2] == before[jb2]);
        }
    };
    assert forall|id2: u128| id2 != order.id implies side_has_id(after, id2) == side_has_id(
        before,
        id2,
    ) by {
        if side_has_id(before, id2) {
            let (j, k) = choose|j: int, k: int|
                0 <= j < before.len() && 0 <= k < before[j].orders@.len() && (#[trigger] before[j].orders@[k]).id
                    == id2;
            if j < i {
                assert(after[j].orders@[k].id == id2);
            } else {
                assert(after[j + 1].orders@[k].id == id2);
            }
        }
        if side_has_id(after, id2) {
            let (j, k) = choose|j: int, k: int|
                0 <= j < after.len() && 0 <= k < after[j].orders@.len() && (#[trigger] after[j].orders@[k]).id
                    == id2;
            if j == i {
                assert(false);
            } else {
                let jb = if j < i { j } else { j - 1 };
                assert(after[j] == before[jb]);
                assert(before[jb].orders@[k].id == id2);
            }
        }
    };
    assert(side_inserted(before, after, order));
}

/// Removes the first order carrying `order_id` from `side`, if any,
/// dropping its level once empty.
fn side_remove(side: &mut Vec<PriceLevel>, order_id: u128, s: OrderSide) -> (r: Option<Order>)
    requires
        side_well_formed(old(side)@, s),
        side_ids_unique(old(side)@),
    ensures
        side_well_formed(final(side)@, s),
        side_ids_unique(final(side)@),
        !side_has_id(final(side)@, order_id),
        side_removed(old(side)@, final(side)@, order_id),
        forall|id2: u128|
            id2 != order_id ==> side_has_id(final(side)@, id2) == side_has_id(old(side)@, id2),
        forall|o2: Order|
            #![trigger order_on_side(final(side)@, o2)]
            order_on_side(final(side)@, o2) ==> order_on_side(old(side)@, o2),
        match r {
            None => *final(side) == *old(side) && !side_has_id(old(side)@, order_id),
            Some(o) => o.id == order_id && side_has_id(old(side)@, order_id) && order_on_side(
                old(side)@,
                o,
            ),
        },
{
    let n = side.len();
    let mut i: usize = 0;
    while i < n
        invariant
            n == side@.len(),
            0 <= i <= n,
            *side == *old(side),
            forall|j: int, k: int|
                0 <= j < i && 0 <= k < side@[j].orders@.len() ==> (#[trigger] side@[j].orders@[k]).id
                    != order_id,
        decreases n - i,
    {
        let m = side[i].orders.len();
        let mut k: usize = 0;
        while k < m
            invariant
                n == side@.len(),
                0 <= i < n,
                *side == *old(side),
                m == side@[i as int].orders@.len(),
                0 <= k <= m,
                forall|j: int, k2: int|
                    0 <= j < i && 0 <= k2 < side@[j].orders@.len() ==> (#[trigger] side@[j].orders@[k2]).id
                        != order_id,
                forall|l: int|
                    0 <= l < k ==> (#[trigger] side@[i as int].orders@[l]).id != order_id,
            decreases m - k,
        {
            if side[i].orders[k].id == order_id {
                let ghost before = side@;
                let mut level = side.remove(i);
                let removed = level.orders.remove(k);
                if level.orders.len() > 0 {
                    let ghost newlevel = level;
                    side.insert(i, level);
                    proof {
                        assert(side@ =~= before.update(i as int, newlevel));
                        lemma_remove_from_level(before, side@, order_id, i as int, k as int, s);
                    }
                } else {
                    proof {
                        assert(side@ =~= before.remove(i as int));
                        lemma_remove_level(before, side@, order_id, i as int, s);
                    }
                }
                return Some(removed);
            }
            k = k + 1;
        }
        i = i + 1;
    }
    proof {
        assert(!side_has_id(side@, order_id));
    }
    None
}

/// Taking one order out of a level that keeps other orders preserves
/// well-formedness and yields `side_removed`.
pub proof fn lemma_remove_from_level(
    before: Seq<PriceLevel>,
    after: Seq<PriceLevel>,
    id: u128,
    i: int,
    k: int,
    s: OrderSide,
)
    requires
        side_well_formed(before, s),
        side_ids_unique(before),
        0 <= i < before.len(),
        0 <= k < before[i].orders@.len(),
        before[i].orders@[k].id == id,
        before[i].orders@.len() > 1,
        after.len() == before.len(),
        after[i].price == before[i].price,
        after[i].orders@ == before[i].orders@.remove(k),
        forall|j: int| 0 <= j < before.len() && j != i ==> after[j] == before[j],
    ensures
        side_well_formed(after, s),
        side_ids_unique(after),
        !side_has_id(after, id),
        side_removed(before, after, id),
        forall|id2: u128| id2 != id ==> side_has_id(after, id2) == side_has_id(before, id2),
        forall|o2: Order|
            #![trigger order_on_side(after, o2)]
            order_on_side(after, o2) ==> order_on_side(before, o2),
{
    let q = before[i].orders@;
    assert(q.remove(k).len() == q.len() - 1);
    assert(forall|l: int| 0 <= l < k ==> q.remove(k)[l] == q[l]);
    assert(forall|l: int| k <= l < q.len() - 1 ==> q.remove(k)[l] == q[l + 1]);
    assert forall|j: int, l: int|
        0 <= j < after.len() && 0 <= l < after[j].orders@.len() implies (#[trigger] after[j].orders@[l]).side
        == s && price_key(after[j].orders@[l]) == after[j].price by {
        if j != i {
            assert(after[j] == before[j]);
        } else {
            if l < k {
                assert(after[j].orders@[l] == q[l]);
            } else {
                assert(after[j].orders@[l] == q[l + 1]);
            }
        }
    };
    assert forall|j: int, l: int, j2: int, l2: int|
        0 <= j < after.len() && 0 <= l < after[j].orders@.len() && 0 <= j2 < after.len() && 0 <= l2
            < after[j2].orders@.len() && after[j].orders@[l].id == after[j2].orders@[l2].id implies j
        == j2 && l == l2 by {
        let lb = if j == i && l >= k {
            l + 1
        } else {
            l
        };
        let lb2 = if j2 == i && l2 >= k {
            l2 + 1
        } else {
            l2
        };
        assert(after[j].orders@[l] == before[j].orders@[lb]);
        assert(after[j2].orders@[l2] == before[j2].orders@[lb2]);
    };
    assert forall|j: int, l: int|
        0 <= j < after.len() && 0 <= l < after[j].orders@.len() implies (#[trigger] after[j].orders@[l]).id
        != id by {
        let lb = if j == i && l >= k {
            l + 1
        } else {
            l
        };
        assert(after[j].orders@[l] == before[j].orders@[lb]);
        if after[j].orders@[l].id == id {
            assert(before[j].orders@[lb].id == before[i].orders@[k].id);
            assert(j == i && lb == k);
            assert(false);
        }
    };
    assert(!side_has_id(after, id));
    assert forall|id2: u128| id2 != id implies side_has_id(after, id2) == side_has_id(
        before,
        id2,
    ) by {
        if side_has_id(before, id2) {
            let (j, l) = choose|j: int, l: int|
                0 <= j < before.len() && 0 <= l < before[j].orders@.len() && (#[trigger] before[j].orders@[l]).id
                    == id2;
            if j != i {
                assert(after[j].orders@[l].id == id2);
            } else {
                assert(l != k);
                if l < k {
                    assert(after[i].orders@[l].id == id2);
                } else {
                    assert(after[i].orders@[l - 1].id == id2);
                }
            }
        }
        if side_has_id(after, id2) {
            let (j, l) = choose|j: int, l: int|
                0 <= j < after.len() && 0 <= l < after[j].orders@.len() && (#[trigger] after[j].orders@[l]).id
                    == id2;
            let lb = if j == i && l >= k {
                l + 1
            } else {
                l
            };
            assert(before[j].orders@[lb].id == id2);
        }
    };
    assert forall|o2: Order| order_on_side(after, o2) implies order_on_side(before, o2) by {
        let (j, l) = choose|j: int, l: int|
            0 <= j < after.len() && 0 <= l < after[j].orders@.len() && (#[trigger] after[j].orders@[l])
                == o2;
        let lb = if j == i && l >= k {
            l + 1
        } else {
            l
        };
        assert(before[j].orders@[lb] == o2);
    };
    assert(side_has_id(before, id)) by {
        assert(before[i].orders@[k].id == id);
    };
    assert(side_removed(before, after, id));
}

/// Dropping a level whose only order is removed preserves
/// well-formedness and yields `side_removed`.
pub proof fn lemma_remove_level(
    before: Seq<PriceLevel>,
    after: Seq<PriceLevel>,
    id: u128,
    i: int,
    s: OrderSide,
)
    requires
        side_well_formed(before, s),
        side_ids_unique(before),
        0 <= i < before.len(),
        before[i].orders@.len() == 1,
        before[i].orders@[0].id == id,
        after == before.remove(i),
    ensures
        side_well_formed(after, s),
        side_ids_unique(after),
        !side_has_id(after, id),
        side_removed(before, after, id),
        forall|id2: u128| id2 != id ==> side_has_id(after, id2) == side_has_id(before, id2),
        forall|o2: Order|
            #![trigger order_on_side(after, o2)]
            order_on_side(after, o2) ==> order_on_side(before, o2),
{
    assert(after.len() == before.len() - 1);
    assert(forall|j: int| 0 <= j < i ==> after[j] == before[j]);
    assert(forall|j: int| i <= j < after.len() ==> after[j] == before[j + 1]);
    assert forall|j: int, l: int|
        0 <= j < after.len() && 0 <= l < after[j].orders@.len() implies (#[trigger] after[j].orders@[l]).id
        != id by {
        let jb = if j < i {
            j
        } else {
            j + 1
        };
        assert(after[j].orders@[l] == before[jb].orders@[l]);
        if after[j].orders@[l].id == id {
            assert(before[jb].orders@[l].id == before[i].orders@[0].id);
            assert(jb == i);
            assert(false);
        }
    };
    assert(!side_has_id(after, id));
    assert forall|j: int, l: int, j2: int, l2: int|
        0 <= j < after.len() && 0 <= l < after[j].orders@.len() && 0 <= j2 < after.len() && 0 <= l2
            < after[j2].orders@.len() && after[j].orders@[l].id == after[j2].orders@[l2].id implies j
        == j2 && l == l2 by {
        let jb = if j < i {
            j
        } else {
            j + 1
        };
        let jb2 = if j2 < i {
            j2
        } else {
            j2 + 1
        };
        assert(after[j].orders@[l] == before[jb].orders@[l]);
        assert(after[j2].orders@[l2] == before[jb2].orders@[l2]);
    };
    assert forall|x: int, y: int| 0 <= x < y < after.len() implies match s {
        OrderSide::Buy => (#[trigger] after[x]).price > (#[trigger] after[y]).price,
        OrderSide::Sell => (#[trigger] after[x]).price < (#[trigger] after[y]).price,
    } by {
        let xb = if x < i {
            x
        } else {
            x + 1
        };
        let yb = if y < i {
            y
        } else {
            y + 1
        };
        assert(after[x] == before[xb]);
        assert(after[y] == before[yb]);
        assert(side_sorted(before, s));
    };
    assert forall|id2: u128| id2 != id implies side_has_id(after, id2) == side_has_id(
        before,
        id2,
    ) by {
        if side_has_id(before, id2) {
            let (j, l) = choose|j: int, l: int|
                0 <= j < before.len() && 0 <= l < before[j].orders@.len() && (#[trigger] before[j].orders@[l]).id
                    == id2;
            assert(j != i);
            if j < i {
                assert(after[j].orders@[l].id == id2);
            } else {
                assert(after[j - 1].orders@[l].id == id2);
            }
        }
        if side_has_id(after, id2) {
            let (j, l) = choose|j: int, l: int|
                0 <= j < after.len() && 0 <= l < after[j].orders@.len() && (#[trigger] after[j].orders@[l]).id
                    == id2;
            let jb = if j < i {
                j
            } else {
                j + 1
            };
            assert(before[jb].orders@[l].id == id2);
        }
    };
    assert forall|o2: Order| order_on_side(after, o2) implies order_on_side(before, o2) by {
        let (j, l) = choose|j: int, l: int|
            0 <= j < after.len() && 0 <= l < after[j].orders@.len() && (#[trigger] after[j].orders@[l])
                == o2;
        let jb = if j < i {
            j
        } else {
            j + 1
        };
        assert(before[jb].orders@[l] == o2);
    };
    assert(side_has_id(before, id)) by {
        assert(before[i].orders@[0].id == id);
    };
    assert(side_removed(before, after, id));
}



/// Replacing the head order of the best level by an updated copy with
/// the same id, side and price key preserves the side's structure and
/// membership.
pub proof fn lemma_head_order_updated(
    before: Seq<PriceLevel>,
    after: Seq<PriceLevel>,
    o: Order,
    s: OrderSide,
)
    requires
        side_well_formed(before, s),
        side_ids_unique(before),
        before.len() > 0,
        before[0].orders@.len() > 0,
        o.id == before[0].orders@[0].id,
        o.side == before[0].orders@[0].side,
        price_key(o) == price_key(before[0].orders@[0]),
        after.len() == before.len(),
        after[0].price == before[0].price,
        after[0].orders@ == before[0].orders@.update(0, o),
        forall|j: int| 1 <= j < before.len() ==> after[j] == before[j],
    ensures
        side_well_formed(after, s),
        side_ids_unique(after),
        forall|id: u128| #[trigger] side_has_id(after, id) == side_has_id(before, id),
{
    assert forall|i: int, k: int|
        0 <= i < after.len() && 0 <= k < after[i].orders@.len() implies (#[trigger] after[i].orders@[k]).side
        == s && price_key(after[i].orders@[k]) == after[i].price by {
        if i == 0 && k == 0 {
            assert(after[0].orders@[0] == o);
            assert(before[0].orders@[0].side == s);
        } else if i == 0 {
            assert(after[0].orders@[k] == before[0].orders@[k]);
        } else {
            assert(after[i] == before[i]);
        }
    };
    assert forall|x: int, y: int| 0 <= x < y < after.len() implies match s {
        OrderSide::Buy => (#[trigger] after[x]).price > (#[trigger] after[y]).price,
        OrderSide::Sell => (#[trigger] after[x]).price < (#[trigger] after[y]).price,
    } by {
        assert(after[y] == before[y]);
        assert(after[x].price == before[x].price);
        assert(side_sorted(before, s));
    };
    assert forall|i: int| 0 <= i < after.len() implies (#[trigger] after[i]).orders@.len() > 0 by {
        if i > 0 {
            assert(after[i] == before[i]);
        }
    };
    assert forall|i: int, k: int, j: int, l: int|
        #![trigger after[i].orders@[k].id, after[j].orders@[l].id]
        0 <= i < after.len() && 0 <= k < after[i].orders@.len() && 0 <= j < after.len() && 0 <= l
            < after[j].orders@.len() && after[i].orders@[k].id == after[j].orders@[l].id implies i
        == j && k == l by {
        assert(after[i].orders@[k].id == before[i].orders@[k].id);
        assert(after[j].orders@[l].id == before[j].orders@[l].id);
    };
    assert forall|id: u128| #[trigger] side_has_id(after, id) == side_has_id(before, id) by {
        if side_has_id(before, id) {
            let (i, k) = choose|i: int, k: int|
                0 <= i < before.len() && 0 <= k < before[i].orders@.len() && (
                #[trigger] before[i].orders@[k]).id == id;
            assert(after[i].orders@[k].id == id);
        }
        if side_has_id(after, id) {
            let (i, k) = choose|i: int, k: int|
                0 <= i < after.len() && 0 <= k < after[i].orders@.len() && (
                #[trigger] after[i].orders@[k]).id == id;
            assert(before[i].orders@[k].id == id);
        }
    };
}


/// After an insertion, every resting order is the inserted one or was
/// already resting.
pub proof fn lemma_inserted_membership(
    before: Seq<PriceLevel>,
    after: Seq<PriceLevel>,
    order: Order,
)
    requires
        side_inserted(before, after, order),
    ensures
        forall|i: int, k: int|
            0 <= i < after.len() && 0 <= k < after[i].orders@.len() ==> (
            #[trigger] after[i].orders@[k]) == order || order_on_side(
                before,
                after[i].orders@[k],
            ),
{
    if exists|i: int| 0 <= i < before.len() && (#[trigger] before[i]).price == price_key(order) {
        let i0 = choose|i: int|
            0 <= i < before.len() && (#[trigger] before[i]).price == price_key(order);
        assert forall|i: int, k: int|
            0 <= i < after.len() && 0 <= k < after[i].orders@.len() implies (
        #[trigger] after[i].orders@[k]) == order || order_on_side(before, after[i].orders@[k]) by {
            if i == i0 {
                if k < before[i0].orders@.len() {
                    assert(after[i0].orders@[k] == before[i0].orders@[k]);
                } else {
                    assert(after[i0].orders@[k] == order);
                }
            } else {
                assert(after[i] == before[i]);
                assert(before[i].orders@[k] == after[i].orders@[k]);
            }
        };
    } else {
        let p = choose|p: int|
            {
                &&& 0 <= p <= before.len()
                &&& after.len() == before.len() + 1
                &&& (#[trigger] after[p]).price == price_key(order)
                &&& after[p].orders@.len() == 1
                &&& after[p].orders@[0] == order
                &&& (forall|j: int| 0 <= j < p ==> after[j] == before[j])
                &&& (forall|j: int| p <= j < before.len() ==> after[j + 1] == before[j])
            };
        assert forall|i: int, k: int|
            0 <= i < after.len() && 0 <= k < after[i].orders@.len() implies (
        #[trigger] after[i].orders@[k]) == order || order_on_side(before, after[i].orders@[k]) by {
            if i < p {
                assert(after[i] == before[i]);
                assert(before[i].orders@[k] == after[i].orders@[k]);
            } else if i == p {
                assert(after[i].orders@[k] == order);
            } else {
                assert(after[i] == before[i - 1]);
                assert(before[i - 1].orders@[k] == after[i].orders@[k]);
            }
        };
    }
}


/// Removing an order never improves a side's best price.
pub proof fn lemma_removed_best(before: Seq<PriceLevel>, after: Seq<PriceLevel>, id: u128, s: OrderSide)
    requires
        side_removed(before, after, id),
        side_sorted(before, s),
    ensures
        after.len() > 0 ==> before.len() > 0,
        after.len() > 0 && s == OrderSide::Buy ==> after[0].price <= before[0].price,
        after.len() > 0 && s == OrderSide::Sell ==> after[0].price >= before[0].price,
{
    if side_has_id(before, id) && after.len() > 0 {
        let (i, k) = choose|i: int, k: int|
            {
                &&& 0 <= i < before.len()
                &&& 0 <= k < before[i].orders@.len()
                &&& (#[trigger] before[i].orders@[k]).id == id
                &&& if before[i].orders@.len() > 1 {
                    &&& after.len() == before.len()
                    &&& after[i].price == before[i].price
                    &&& after[i].orders@ == before[i].orders@.remove(k)
                    &&& forall|j: int| 0 <= j < before.len() && j != i ==> after[j] == before[j]
                } else {
                    &&& after.len() == before.len() - 1
                    &&& (forall|j: int| 0 <= j < i ==> after[j] == before[j])
                    &&& (forall|j: int| i < j < before.len() ==> after[j - 1] == before[j])
                }
            };
        if before[i].orders@.len() > 1 {
            if i == 0 {
                assert(after[0].price == before[0].price);
            } else {
                assert(after[0] == before[0]);
            }
        } else {
            if i == 0 {
                assert(after[0] == before[1]);
            } else {
                assert(after[0] == before[0]);
            }
        }
    }
}


/// After an insertion the side's best level is the inserted order's
/// price level or the old best level.
pub proof fn lemma_inserted_head(before: Seq<PriceLevel>, after: Seq<PriceLevel>, order: Order)
    requires
        side_inserted(before, after, order),
    ensures
        after.len() > 0,
        after[0].price == price_key(order) || (before.len() > 0 && after[0].price
            == before[0].price),
{
    if exists|i: int| 0 <= i < before.len() && (#[trigger] before[i]).price == price_key(order) {
        let i0 = choose|i: int|
            0 <= i < before.len() && (#[trigger] before[i]).price == price_key(order);
        if i0 > 0 {
            assert(after[0] == before[0]);
        }
    } else {
        let p = choose|p: int|
            {
                &&& 0 <= p <= before.len()
                &&& after.len() == before.len() + 1
                &&& (#[trigger] after[p]).price == price_key(order)
                &&& after[p].orders@.len() == 1
                &&& after[p].orders@[0] == order
                &&& (forall|j: int| 0 <= j < p ==> after[j] == before[j])
                &&& (forall|j: int| p <= j < before.len() ==> after[j + 1] == before[j])
            };
        if p > 0 {
            assert(after[0] == before[0]);
        }
    }
}

/// Two sides hold the same levels: equal prices and equal queues.
pub open spec fn sides_equal(a: Seq<PriceLevel>, b: Seq<PriceLevel>) -> bool {
    &&& a.len() == b.len()
    &&& forall|i: int|
        0 <= i < a.len() ==> (#[trigger] a[i]).price == b[i].price && a[i].orders@ == b[i].orders@
}

/// A queue's total remaining quantity is non-negative and at most its
/// length times the largest single quantity.
pub proof fn lemma_level_total_bound(orders: Seq<Order>)
    ensures
        0 <= level_total(orders),
        level_total(orders) <= orders.len() * (u64::MAX as int),
    decreases orders.len(),
{
    if orders.len() > 0 {
        lemma_level_total_bound(orders.drop_first());
        assert(orders.drop_first().len() == orders.len() - 1);
        assert((orders.len() - 1) * (u64::MAX as int) + (u64::MAX as int) == orders.len() * (
        u64::MAX as int)) by (nonlinear_arith);
    }
}

/// Appending an order adds its remaining quantity to the queue total.
pub proof fn lemma_level_total_push(orders: Seq<Order>, o: Order)
    ensures
        level_total(orders.push(o)) == level_total(orders) + o.remaining_quantity,
    decreases orders.len(),
{
    if orders.len() == 0 {
        assert(orders.push(o)[0] == o);
        assert(orders.push(o).drop_first() =~= orders);
    } else {
        assert(orders.push(o)[0] == orders[0]);
        assert(orders.push(o).drop_first() =~= orders.drop_first().push(o));
        lemma_level_total_push(orders.drop_first(), o);
    }
}

/// A side's total remaining quantity is non-negative.
pub proof fn lemma_side_total_nonneg(side: Seq<PriceLevel>)
    ensures
        0 <= side_total(side),
    decreases side.len(),
{
    if side.len() > 0 {
        lemma_level_total_bound(side[0].orders@);
        lemma_side_total_nonneg(side.drop_first());
    }
}

/// A side holds at least as much quantity as its first level.
pub proof fn lemma_side_order_count_nonneg(side: Seq<PriceLevel>)
    ensures
        0 <= side_order_count(side),
    decreases side.len(),
{
    if side.len() > 0 {
        lemma_side_order_count_nonneg(side.drop_first());
    }
}

impl Clone for PriceLevel {
    fn clone(&self) -> (r: Self)
        ensures
            r.price == self.price,
            r.orders@ == self.orders@,
    {
        let mut orders: Vec<Order> = Vec::new();
        let n = self.orders.len();
        let mut k: usize = 0;
        while k < n
            invariant
                n == self.orders@.len(),
                0 <= k <= n,
                orders@ =~= self.orders@.subrange(0, k as int),
            decreases n - k,
        {
            orders.push(self.orders[k].clone());
            k = k + 1;
        }
        proof {
            assert(orders@ =~= self.orders@);
        }
        PriceLevel { price: self.price, orders }
    }
}

/// Clones a whole side, level by level.
fn clone_side(side: &Vec<PriceLevel>) -> (r: Vec<PriceLevel>)
    ensures
        sides_equal(side@, r@),
{
    let mut out: Vec<PriceLevel> = Vec::new();
    let n = side.len();
    let mut i: usize = 0;
    while i < n
        invariant
            n == side@.len(),
            0 <= i <= n,
            out@.len() == i,
            forall|j: int|
                0 <= j < i ==> (#[trigger] out@[j]).price == side@[j].price && out@[j].orders@
                    == side@[j].orders@,
        decreases n - i,
    {
        out.push(side[i].clone());
        i = i + 1;
    }
    out
}

impl Clone for OrderBook {
    fn clone(&self) -> (r: Self)
        ensures
            r.symbol == self.symbol,
            sides_equal(self.bids@, r.bids@),
            sides_equal(self.asks@, r.asks@),
    {
        OrderBook {
            symbol: self.symbol.clone(),
            bids: clone_side(&self.bids),
            asks: clone_side(&self.asks),
        }
    }
}

/// Aggregates one level: its price, the total remaining quantity of its
/// queue, and how many orders rest in it.
fn level_snapshot(level: &PriceLevel) -> (r: OrderBookLevel)
    ensures
        r.price == level.price,
        r.quantity == level_total(level.orders@),
        r.order_count == level.orders@.len(),
{
    let n = level.orders.len();
    let mut total: u128 = 0;
    let mut k: usize = 0;
    while k < n
        invariant
            n == level.orders@.len(),
            0 <= k <= n,
            total == level_total(level.orders@.subrange(0, k as int)),
            total <= k * (u64::MAX as int),
        decreases n - k,
    {
        proof {
            assert(level.orders@.subrange(0, k as int + 1) =~= level.orders@.subrange(
                0,
                k as int,
            ).push(level.orders@[k as int]));
            lemma_level_total_push(
                level.orders@.subrange(0, k as int),
                level.orders@[k as int],
            );
            assert(k * (u64::MAX as int) + (u64::MAX as int) == (k + 1) * (u64::MAX as int))
                by (nonlinear_arith);
            assert((k + 1) * (u64::MAX as int) <= (usize::MAX as int) * (u64::MAX as int))
                by (nonlinear_arith)
                requires
                    0 <= k,
                    k + 1 <= usize::MAX as int,
            ;
            assert((usize::MAX as int) * (u64::MAX as int) < 0x100000000000000000000000000000000)
                by (nonlinear_arith)
                requires
                    usize::MAX as int <= u64::MAX as int,
            ;
        }
        total = total + (level.orders[k].remaining_quantity as u128);
        k = k + 1;
    }
    proof {
        assert(level.orders@.subrange(0, n as int) =~= level.orders@);
    }
    OrderBookLevel { price: level.price, quantity: total, order_count: n }
}

impl OrderBook {
    /// The top `depth` bid levels, best (highest) price first, each
    /// aggregated into price, total quantity and order count.
    pub fn get_bid_levels(&self, depth: usize) -> (r: Vec<OrderBookLevel>)
        ensures
            r@.len() == vstd::math::min(depth as int, self.bids@.len() as int),
            forall|m: int|
                0 <= m < r@.len() ==> (#[trigger] r@[m]).price == self.bids@[m].price && r@[m].quantity
                    == level_total(self.bids@[m].orders@) && r@[m].order_count
                    == self.bids@[m].orders@.len(),
    {
        side_levels(&self.bids, depth)
    }

    /// The top `depth` ask levels, best (lowest) price first.
    pub fn get_ask_levels(&self, depth: usize) -> (r: Vec<OrderBookLevel>)
        ensures
            r@.len() == vstd::math::min(depth as int, self.asks@.len() as int),
            forall|m: int|
                0 <= m < r@.len() ==> (#[trigger] r@[m]).price == self.asks@[m].price && r@[m].quantity
                    == level_total(self.asks@[m].orders@) && r@[m].order_count
                    == self.asks@[m].orders@.len(),
    {
        side_levels(&self.asks, depth)
    }

    /// Both sides of the market depth, each side best price outward.
    pub fn get_market_depth(&self, depth: usize) -> (r: (Vec<OrderBookLevel>, Vec<OrderBookLevel>))
        ensures
            r.0@.len() == vstd::math::min(depth as int, self.bids@.len() as int),
            forall|m: int|
                0 <= m < r.0@.len() ==> (#[trigger] r.0@[m]).price == self.bids@[m].price
                    && r.0@[m].quantity == level_total(self.bids@[m].orders@) && r.0@[m].order_count
                    == self.bids@[m].orders@.len(),
            r.1@.len() == vstd::math::min(depth as int, self.asks@.len() as int),
            forall|m: int|
                0 <= m < r.1@.len() ==> (#[trigger] r.1@[m]).price == self.asks@[m].price
                    && r.1@[m].quantity == level_total(self.asks@[m].orders@) && r.1@[m].order_count
                    == self.asks@[m].orders@.len(),
    {
        (self.get_bid_levels(depth), self.get_ask_levels(depth))
    }
}

/// The first `depth` levels of one side, aggregated.
fn side_levels(side: &Vec<PriceLevel>, depth: usize) -> (r: Vec<OrderBookLevel>)
    ensures
        r@.len() == vstd::math::min(depth as int, side@.len() as int),
        forall|m: int|
            0 <= m < r@.len() ==> (#[trigger] r@[m]).price == side@[m].price && r@[m].quantity
                == level_total(side@[m].orders@) && r@[m].order_count == side@[m].orders@.len(),
{
    let n = side.len();
    let count = if depth < n {
        depth
    } else {
        n
    };
    let mut out: Vec<OrderBookLevel> = Vec::new();
    let mut i: usize = 0;
    while i < count
        invariant
            n == side@.len(),
            count == vstd::math::min(depth as int, n as int),
            0 <= i <= count,
            out@.len() == i,
            forall|m: int|
                0 <= m < i ==> (#[trigger] out@[m]).price == side@[m].price && out@[m].quantity
                    == level_total(side@[m].orders@) && out@[m].order_count
                    == side@[m].orders@.len(),
        decreases count - i,
    {
        out.push(level_snapshot(&side[i]));
        i = i + 1;
    }
    out
}

} // verus!
