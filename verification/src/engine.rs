//! The matching engine: validates and routes incoming orders, sweeps
//! market orders against the opposing side, crosses marketable limit
//! orders, keeps the order index and trade log, and settles every match
//! in the balance ledger.

use vstd::prelude::*;

use crate::book::OrderBook;
use crate::book::PriceLevel;
use crate::book::lemma_level_total_bound;
use crate::book::lemma_side_total_nonneg;
use crate::book::level_total;
use crate::book::side_total;
use crate::book::side_order_count;
use crate::book::side_has_id;
use crate::book::side_well_formed;
use crate::book::side_ids_unique;
use crate::book::price_key;
use crate::book::side_inserted;
use crate::book::sides_equal;
use crate::ledger::Ledger;
use crate::ledger::BalanceEntry;
use crate::ledger::credited;
use crate::ledger::debited;
use crate::ledger::users_of;
use crate::order::Order;
use crate::order::OrderSide;
use crate::order::OrderType;
use crate::order::OrderStatus;
use crate::order::TimeInForce;
use crate::order::Trade;
use crate::symbol::base_currency;
use crate::symbol::base_of;
use crate::symbol::quote_currency;
use crate::symbol::quote_of;

verus! {

/// Why an engine call was rejected. Every rejection is atomic: the
/// engine's state is exactly what it was before the call.
#[derive(Clone, Copy, Debug, PartialEq, Eq, Structural)]
pub enum EngineError {
    SymbolNotSupported,
    InvalidOrderParameters,
    InsufficientBalance,
    OrderNotFound,
    Unauthorized,
    OrderNotCancellable,
}

/// A market summary for one symbol.
#[derive(Clone, Copy, Debug, PartialEq, Eq, Structural)]
pub struct Ticker {
    pub last_price: u64,
    pub bid: u64,
    pub ask: u64,
    pub high: u64,
    pub low: u64,
    pub volume: u128,
}

/// Aggregate counts over the whole engine.
#[derive(Clone, Copy, Debug, PartialEq, Eq, Structural)]
pub struct MarketStats {
    pub total_symbols: usize,
    pub total_orders: usize,
    pub total_trades: usize,
    pub total_users: usize,
}

/// The sum of trade quantities that reference `id` as their buy order.
pub open spec fn buy_fill_sum(ts: Seq<Trade>, id: u128) -> int
    decreases ts.len(),
{
    if ts.len() == 0 {
        0
    } else {
        buy_fill_sum(ts.drop_last(), id) + if ts.last().buy_order_id == id {
            ts.last().quantity as int
        } else {
            0
        }
    }
}

/// The sum of trade quantities that reference `id` as their sell order.
pub open spec fn sell_fill_sum(ts: Seq<Trade>, id: u128) -> int
    decreases ts.len(),
{
    if ts.len() == 0 {
        0
    } else {
        sell_fill_sum(ts.drop_last(), id) + if ts.last().sell_order_id == id {
            ts.last().quantity as int
        } else {
            0
        }
    }
}

/// The trade-quantity sum that an order of the given side is measured
/// against.
pub open spec fn fill_sum(ts: Seq<Trade>, side: OrderSide, id: u128) -> int {
    match side {
        OrderSide::Buy => buy_fill_sum(ts, id),
        OrderSide::Sell => sell_fill_sum(ts, id),
    }
}

/// The order index is an arena: the order with id `i + 1` sits at
/// position `i`, and every order conserves its quantity.
pub open spec fn index_ok(orders: Seq<Order>) -> bool {
    forall|i: int|
        0 <= i < orders.len() ==> (#[trigger] orders[i]).id == i + 1 && orders[i].wf()
}

/// Every order's recorded fills equal the trade log's account of it.
pub open spec fn sums_ok(orders: Seq<Order>, trades: Seq<Trade>) -> bool {
    forall|i: int|
        0 <= i < orders.len() ==> (#[trigger] orders[i]).filled_quantity == fill_sum(
            trades,
            orders[i].side,
            orders[i].id,
        )
}

/// Every trade references order ids that have been issued.
pub open spec fn trade_ids_bounded(ts: Seq<Trade>, n: int) -> bool {
    forall|t: int|
        0 <= t < ts.len() ==> 1 <= (#[trigger] ts[t]).buy_order_id <= n && 1 <= ts[t].sell_order_id
            <= n
}

/// Two orders that differ at most in their fill progress: everything
/// but filled, remaining, status and update time is identical.
pub open spec fn same_core(a: Order, b: Order) -> bool {
    &&& a.id == b.id
    &&& a.trader == b.trader
    &&& a.symbol == b.symbol
    &&& a.side == b.side
    &&& a.order_type == b.order_type
    &&& a.quantity == b.quantity
    &&& a.price == b.price
    &&& a.stop_price == b.stop_price
    &&& a.time_in_force == b.time_in_force
    &&& a.created_at == b.created_at
    &&& a.expire_at == b.expire_at
}

/// A book order is tracked: it equals its entry in the order index and
/// trades under the book's own symbol.
pub open spec fn order_tracked(o: Order, orders: Seq<Order>, symbol: Seq<char>) -> bool {
    &&& 1 <= o.id <= orders.len()
    &&& orders[o.id - 1] == o
    &&& o.symbol@ == symbol
}

/// Every order resting in the book equals its index entry.
pub open spec fn book_tracked(b: OrderBook, orders: Seq<Order>) -> bool {
    &&& forall|i: int, k: int|
        0 <= i < b.bids@.len() && 0 <= k < b.bids@[i].orders@.len() ==> order_tracked(
            #[trigger] b.bids@[i].orders@[k],
            orders,
            b.symbol@,
        )
    &&& forall|i: int, k: int|
        0 <= i < b.asks@.len() && 0 <= k < b.asks@[i].orders@.len() ==> order_tracked(
            #[trigger] b.asks@[i].orders@[k],
            orders,
            b.symbol@,
        )
}

/// Whether the order parameters fit the order type: limit orders need a
/// positive price, stop orders a positive stop price, stop-limit orders
/// both, and market orders neither.
pub open spec fn params_valid(order_type: OrderType, price: Option<u64>, stop_price: Option<
    u64,
>) -> bool {
    match order_type {
        OrderType::Limit => price matches Some(p) && p > 0,
        OrderType::Stop => stop_price matches Some(p) && p > 0,
        OrderType::StopLimit => (price matches Some(p) && p > 0) && (stop_price matches Some(p)
            && p > 0),
        OrderType::Market => true,
    }
}



/// Replacing one book by an empty one under the same symbol keeps the
/// engine well-formed and the registered symbols unchanged.
proof fn lemma_books_replaced(a: DEXEngine, b: DEXEngine, i: int, fresh: OrderBook)
    requires
        a.wf(),
        0 <= i < a.spec_books().len(),
        b.spec_books() == a.spec_books().update(i, fresh),
        fresh.symbol@ == a.spec_books()[i].symbol@,
        fresh.wf(),
        !fresh.crossed(),
        fresh.bids@.len() == 0,
        fresh.asks@.len() == 0,
        b.spec_orders() == a.spec_orders(),
        b.spec_trades() == a.spec_trades(),
    ensures
        b.wf(),
        forall|sym: Seq<char>| #[trigger] b.has_symbol(sym) == a.has_symbol(sym),
{
    assert forall|j: int| 0 <= j < b.spec_books().len() implies (#[trigger] b.spec_books()[j]).wf()
        && !b.spec_books()[j].crossed() && book_tracked(b.spec_books()[j], b.spec_orders()) by {
        if j != i {
            assert(b.spec_books()[j] == a.spec_books()[j]);
        }
    };
    assert forall|j: int, j2: int| 0 <= j < j2 < b.spec_books().len() implies (
    #[trigger] b.spec_books()[j]).symbol@ != (#[trigger] b.spec_books()[j2]).symbol@ by {
        assert(b.spec_books()[j].symbol@ == a.spec_books()[j].symbol@);
        assert(b.spec_books()[j2].symbol@ == a.spec_books()[j2].symbol@);
    };
    assert forall|sym: Seq<char>| #[trigger] b.has_symbol(sym) == a.has_symbol(sym) by {
        if a.has_symbol(sym) {
            let j = choose|j: int|
                0 <= j < a.spec_books().len() && (#[trigger] a.spec_books()[j]).symbol@ == sym;
            assert(b.spec_books()[j].symbol@ == sym);
        }
        if b.has_symbol(sym) {
            let j = choose|j: int|
                0 <= j < b.spec_books().len() && (#[trigger] b.spec_books()[j]).symbol@ == sym;
            assert(a.spec_books()[j].symbol@ == sym);
        }
    };
}

/// Appending an empty book under a new symbol keeps the engine
/// well-formed and registers exactly that symbol.
proof fn lemma_books_pushed(a: DEXEngine, b: DEXEngine, fresh: OrderBook)
    requires
        a.wf(),
        b.spec_books() == a.spec_books().push(fresh),
        forall|j: int|
            0 <= j < a.spec_books().len() ==> (#[trigger] a.spec_books()[j]).symbol@
                != fresh.symbol@,
        fresh.wf(),
        !fresh.crossed(),
        fresh.bids@.len() == 0,
        fresh.asks@.len() == 0,
        b.spec_orders() == a.spec_orders(),
        b.spec_trades() == a.spec_trades(),
    ensures
        b.wf(),
        b.has_symbol(fresh.symbol@),
        forall|sym: Seq<char>|
            sym != fresh.symbol@ ==> #[trigger] b.has_symbol(sym) == a.has_symbol(sym),
{
    let n = a.spec_books().len() as int;
    assert(b.spec_books()[n] == fresh);
    assert forall|j: int| 0 <= j < b.spec_books().len() implies (#[trigger] b.spec_books()[j]).wf()
        && !b.spec_books()[j].crossed() && book_tracked(b.spec_books()[j], b.spec_orders()) by {
        if j < n {
            assert(b.spec_books()[j] == a.spec_books()[j]);
        }
    };
    assert forall|j: int, j2: int| 0 <= j < j2 < b.spec_books().len() implies (
    #[trigger] b.spec_books()[j]).symbol@ != (#[trigger] b.spec_books()[j2]).symbol@ by {
        if j2 < n {
            assert(b.spec_books()[j] == a.spec_books()[j]);
            assert(b.spec_books()[j2] == a.spec_books()[j2]);
        } else {
            assert(b.spec_books()[j] == a.spec_books()[j]);
        }
    };
    assert forall|sym: Seq<char>| sym != fresh.symbol@ implies #[trigger] b.has_symbol(sym)
        == a.has_symbol(sym) by {
        if a.has_symbol(sym) {
            let j = choose|j: int|
                0 <= j < a.spec_books().len() && (#[trigger] a.spec_books()[j]).symbol@ == sym;
            assert(b.spec_books()[j].symbol@ == sym);
        }
        if b.has_symbol(sym) {
            let j = choose|j: int|
                0 <= j < b.spec_books().len() && (#[trigger] b.spec_books()[j]).symbol@ == sym;
            if j < n {
                assert(a.spec_books()[j].symbol@ == sym);
            } else {
                assert(false);
            }
        }
    };
}

/// An engine that differs from a well-formed one only in its ledger is
/// well-formed: the invariant does not constrain balances.
proof fn lemma_wf_ledger_independent(a: DEXEngine, b: DEXEngine)
    requires
        a.wf(),
        b.spec_books() == a.spec_books(),
        b.spec_orders() == a.spec_orders(),
        b.spec_trades() == a.spec_trades(),
    ensures
        b.wf(),
{
    assert forall|i: int| 0 <= i < b.spec_books().len() implies (#[trigger] b.spec_books()[i]).wf()
        && !b.spec_books()[i].crossed() && book_tracked(b.spec_books()[i], b.spec_orders()) by {
        assert(b.spec_books()[i] == a.spec_books()[i]);
    };
}

/// The in-memory exchange: per-symbol books, the order index, the trade
/// log and the balance ledger, owned as one unit.
pub struct DEXEngine {
    order_books: Vec<OrderBook>,
    orders: Vec<Order>,
    trades: Vec<Trade>,
    ledger: Ledger,
}

impl DEXEngine {
    pub closed spec fn spec_books(&self) -> Seq<OrderBook> {
        self.order_books@
    }

    pub closed spec fn spec_orders(&self) -> Seq<Order> {
        self.orders@
    }

    pub closed spec fn spec_trades(&self) -> Seq<Trade> {
        self.trades@
    }

    /// The ledger's balance map.
    pub closed spec fn balances(&self) -> Map<(Seq<char>, Seq<char>), u128> {
        self.ledger@
    }

    pub closed spec fn spec_ledger_entries(&self) -> Seq<BalanceEntry> {
        self.ledger.spec_entries()
    }

    /// Whether a book is registered for `sym`.
    pub open spec fn has_symbol(&self, sym: Seq<char>) -> bool {
        exists|b: int|
            0 <= b < self.spec_books().len() && (#[trigger] self.spec_books()[b]).symbol@ == sym
    }

    /// The engine's invariant, restored by every operation:
    /// - each order conserves quantity (filled + remaining = quantity);
    /// - the order index is an arena of unique ids;
    /// - each book is structurally sound and none stays crossed;
    /// - book symbols are distinct;
    /// - resting orders mirror their index entries exactly;
    /// - the trade log accounts for every order's filled quantity.
    pub open spec fn wf(&self) -> bool {
        &&& index_ok(self.spec_orders())
        &&& sums_ok(self.spec_orders(), self.spec_trades())
        &&& trade_ids_bounded(self.spec_trades(), self.spec_orders().len() as int)
        &&& forall|b: int|
            0 <= b < self.spec_books().len() ==> (#[trigger] self.spec_books()[b]).wf()
        &&& forall|b: int|
            0 <= b < self.spec_books().len() ==> !(#[trigger] self.spec_books()[b]).crossed()
        &&& forall|b: int, b2: int|
            0 <= b < b2 < self.spec_books().len() ==> (#[trigger] self.spec_books()[b]).symbol@
                != (#[trigger] self.spec_books()[b2]).symbol@
        &&& forall|b: int|
            0 <= b < self.spec_books().len() ==> book_tracked(
                #[trigger] self.spec_books()[b],
                self.spec_orders(),
            )
    }

    pub fn new() -> (r: DEXEngine)
        ensures
            r.wf(),
            r.spec_books().len() == 0,
            r.spec_orders().len() == 0,
            r.spec_trades().len() == 0,
            forall|k: (Seq<char>, Seq<char>)| r.balances()[k] == 0,
            r.spec_ledger_entries() == Seq::<BalanceEntry>::empty(),
            users_of(r.spec_ledger_entries()) == Set::<Seq<char>>::empty(),
    {
        DEXEngine {
            order_books: Vec::new(),
            orders: Vec::new(),
            trades: Vec::new(),
            ledger: Ledger::new(),
        }
    }

    /// Position of the book registered for `symbol`, if any.
    fn find_book(&self, symbol: &str) -> (r: Option<usize>)
        ensures
            match r {
                Some(b) => 0 <= b < self.spec_books().len() && self.spec_books()[b as int].symbol@
                    == symbol@,
                None => !self.has_symbol(symbol@),
            },
    {
        let n = self.order_books.len();
        let mut b: usize = 0;
        while b < n
            invariant
                n == self.spec_books().len(),
                0 <= b <= n,
                forall|j: int| 0 <= j < b ==> (#[trigger] self.spec_books()[j]).symbol@ != symbol@,
            decreases n - b,
        {
            if crate::text::str_eq(self.order_books[b].symbol.as_str(), symbol) {
                return Some(b);
            }
            b = b + 1;
        }
        None
    }

    /// Registers an empty book for `symbol`. A book already registered
    /// under the symbol is replaced by a fresh empty one.
    pub fn add_symbol(&mut self, symbol: String)
        requires
            old(self).wf(),
        ensures
            final(self).wf(),
            final(self).has_symbol(symbol@),
            forall|sym2: Seq<char>|
                sym2 != symbol@ ==> #[trigger] final(self).has_symbol(sym2) == old(self).has_symbol(sym2),
            forall|bb: int|
                0 <= bb < final(self).spec_books().len() && (#[trigger] final(self).spec_books()[bb]).symbol@ == symbol@ ==> final(self).spec_books()[bb].bids@.len()
                    == 0 && final(self).spec_books()[bb].asks@.len() == 0,
            forall|bb: int|
                0 <= bb < old(self).spec_books().len() && (#[trigger] old(self).spec_books()[bb]).symbol@ != symbol@ ==> bb < final(self).spec_books().len()
                    && final(self).spec_books()[bb] == old(self).spec_books()[bb],
            final(self).spec_orders() == old(self).spec_orders(),
            final(self).spec_trades() == old(self).spec_trades(),
            final(self).balances() == old(self).balances(),
    {
        let found = self.find_book(symbol.as_str());
        let fresh = OrderBook::new(symbol);
        let ghost gfresh = fresh;
        match found {
            Some(b) => {
                let ghost before = self.order_books@;
                self.order_books.remove(b);
                self.order_books.insert(b, fresh);
                proof {
                    assert(self.order_books@ =~= before.update(b as int, gfresh));
                    lemma_books_replaced(*old(self), *self, b as int, gfresh);
                }
            },
            None => {
                self.order_books.push(fresh);
                proof {
                    lemma_books_pushed(*old(self), *self, gfresh);
                }
            },
        }
    }

    /// The balance of `(user, currency)`; zero for an unknown pair.
    pub fn get_user_balance(&self, user: &str, currency: &str) -> (r: u128)
        ensures
            r == self.balances()[(user@, currency@)],
    {
        self.ledger.get(user, currency)
    }

    /// Sets the balance of `(user, currency)` outright, leaving every
    /// other balance untouched.
    pub fn update_balance(&mut self, user: &str, currency: &str, amount: u128)
        requires
            old(self).wf(),
        ensures
            final(self).wf(),
            final(self).balances() == old(self).balances().insert((user@, currency@), amount),
            final(self).spec_books() == old(self).spec_books(),
            final(self).spec_orders() == old(self).spec_orders(),
            final(self).spec_trades() == old(self).spec_trades(),
    {
        self.ledger.set(user, currency, amount);
        proof {
            lemma_wf_ledger_independent(*old(self), *self);
        }
    }

    /// Adds `amount` to the balance of `(user, currency)`, saturating at
    /// the largest representable amount.
    pub fn deposit(&mut self, user: &str, currency: &str, amount: u128)
        requires
            old(self).wf(),
        ensures
            final(self).wf(),
            final(self).balances() == credited(old(self).balances(), user@, currency@, amount),
            final(self).spec_books() == old(self).spec_books(),
            final(self).spec_orders() == old(self).spec_orders(),
            final(self).spec_trades() == old(self).spec_trades(),
    {
        self.ledger.credit(user, currency, amount);
        proof {
            lemma_wf_ledger_independent(*old(self), *self);
        }
    }

    /// Takes `amount` from the balance of `(user, currency)`. Fails with
    /// `InsufficientBalance`, changing nothing, exactly when the balance
    /// does not cover the amount.
    pub fn withdraw(&mut self, user: &str, currency: &str, amount: u128) -> (r: Result<
        (),
        EngineError,
    >)
        requires
            old(self).wf(),
        ensures
            final(self).wf(),
            r is Ok <==> old(self).balances()[(user@, currency@)] >= amount,
            r is Err ==> r == Result::<(), EngineError>::Err(EngineError::InsufficientBalance)
                && *final(self) == *old(self),
            r is Ok ==> final(self).balances() == old(self).balances().insert(
                (user@, currency@),
                (old(self).balances()[(user@, currency@)] - amount) as u128,
            ),
            final(self).spec_books() == old(self).spec_books(),
            final(self).spec_orders() == old(self).spec_orders(),
            final(self).spec_trades() == old(self).spec_trades(),
    {
        let current = self.ledger.get(user, currency);
        if current < amount {
            return Err(EngineError::InsufficientBalance);
        }
        self.ledger.set(user, currency, current - amount);
        proof {
            lemma_wf_ledger_independent(*old(self), *self);
        }
        Ok(())
    }

    /// The order with `order_id`, if one was ever placed.
    pub fn get_order(&self, order_id: u128) -> (r: Option<Order>)
        requires
            self.wf(),
        ensures
            match r {
                Some(o) => 1 <= order_id <= self.spec_orders().len() && o == self.spec_orders()[
                    order_id - 1
                ],
                None => order_id < 1 || order_id > self.spec_orders().len(),
            },
    {
        if order_id >= 1 && order_id <= self.orders.len() as u128 {
            let idx = (order_id - 1) as usize;
            proof {
                assert(order_id - 1 < self.spec_orders().len());
            }
            Some(self.orders[idx].clone())
        } else {
            None
        }
    }

    /// Aggregate counts: symbols, orders ever placed, trades, and users
    /// with a ledger entry.
    pub fn get_market_stats(&self) -> (r: MarketStats)
        ensures
            r.total_symbols == self.spec_books().len(),
            r.total_orders == self.spec_orders().len(),
            r.total_trades == self.spec_trades().len(),
            r.total_users == users_of(self.spec_ledger_entries()).len(),
    {
        MarketStats {
            total_symbols: self.order_books.len(),
            total_orders: self.orders.len(),
            total_trades: self.trades.len(),
            total_users: self.ledger.user_count(),
        }
    }
}


/// The balance map after one trade settles: the buyer pays the trade
/// value in the quote asset and receives the base quantity; the seller
/// gives up the base quantity and receives the trade value. Each debit
/// is rejected (left unapplied) if it would drive the balance negative;
/// each credit saturates at the largest representable amount.
///
/// The guarded debits are a deliberate choice. Placement checks fund
/// only the sell side (the seller's base balance); the buyer's quote
/// balance is never checked, so a match can find it short. Driving it
/// below zero is impossible here, and rejecting the whole match would
/// change what fills; instead the uncovered debit alone is rejected
/// while the trade, the fills and the credits stand. Callers that need
/// strict value conservation must fund buyers before they place orders.
pub open spec fn settled(
    m: Map<(Seq<char>, Seq<char>), u128>,
    buyer: Seq<char>,
    seller: Seq<char>,
    base: Seq<char>,
    quote: Seq<char>,
    price: u64,
    quantity: u64,
) -> Map<(Seq<char>, Seq<char>), u128> {
    let value = (price * quantity) as u128;
    credited(
        debited(
            credited(debited(m, buyer, quote, value), buyer, base, quantity as u128),
            seller,
            base,
            quantity as u128,
        ),
        seller,
        quote,
        value,
    )
}

/// Matches `quantity` units between `buy` and `sell` at `price`, as one
/// unit of work: a trade record is appended, both orders' fill state
/// advances, and the ledger settles the exchange of base and quote
/// assets between the two traders. Settlement follows `settled`: a
/// debit that the payer's balance does not cover is rejected on its own
/// while the rest of the trade stands (see `settled` on why).
fn execute_trade(
    trades: &mut Vec<Trade>,
    ledger: &mut Ledger,
    buy: &mut Order,
    sell: &mut Order,
    price: u64,
    quantity: u64,
)
    requires
        old(buy).wf(),
        old(sell).wf(),
        old(buy).side == OrderSide::Buy,
        old(sell).side == OrderSide::Sell,
        quantity <= old(buy).remaining_quantity,
        quantity <= old(sell).remaining_quantity,
        old(buy).symbol@ == old(sell).symbol@,
    ensures
        final(trades)@.len() == old(trades)@.len() + 1,
        final(trades)@.drop_last() == old(trades)@,
        ({
            let t = final(trades)@.last();
            &&& t.id == old(trades)@.len() + 1
            &&& t.symbol@ == old(buy).symbol@
            &&& t.price == price
            &&& t.quantity == quantity
            &&& t.buy_order_id == old(buy).id
            &&& t.sell_order_id == old(sell).id
            &&& t.buyer@ == old(buy).trader@
            &&& t.seller@ == old(sell).trader@
        }),
        same_core(*final(buy), *old(buy)),
        same_core(*final(sell), *old(sell)),
        final(buy).wf(),
        final(sell).wf(),
        final(buy).filled_quantity == old(buy).filled_quantity + quantity,
        final(buy).remaining_quantity == old(buy).remaining_quantity - quantity,
        final(sell).filled_quantity == old(sell).filled_quantity + quantity,
        final(sell).remaining_quantity == old(sell).remaining_quantity - quantity,
        final(buy).status == (if final(buy).remaining_quantity == 0 {
            OrderStatus::Filled
        } else {
            OrderStatus::Partial
        }),
        final(sell).status == (if final(sell).remaining_quantity == 0 {
            OrderStatus::Filled
        } else {
            OrderStatus::Partial
        }),
        final(ledger)@ == settled(
            old(ledger)@,
            old(buy).trader@,
            old(sell).trader@,
            base_of(old(buy).symbol@),
            quote_of(old(buy).symbol@),
            price,
            quantity,
        ),
        users_of(final(ledger).spec_entries()) == users_of(old(ledger).spec_entries()).insert(
            old(buy).trader@,
        ).insert(old(sell).trader@).insert(old(sell).trader@),
{
    proof {
        assert((price as int) * (quantity as int) <= (u64::MAX as int) * (u64::MAX as int))
            by (nonlinear_arith)
            requires
                price <= u64::MAX,
                quantity <= u64::MAX,
                0 <= price,
                0 <= quantity,
        ;
        assert((u64::MAX as int) * (u64::MAX as int) < 0x100000000000000000000000000000000);
        assert(0 <= (price as int) * (quantity as int)) by (nonlinear_arith)
            requires
                0 <= price,
                0 <= quantity,
        ;
    }
    let value = (price as u128) * (quantity as u128);
    let id = (trades.len() as u128) + 1;
    let base = base_currency(buy.symbol.as_str());
    let quote = quote_currency(buy.symbol.as_str());
    let t = Trade {
        id,
        symbol: buy.symbol.clone(),
        price,
        quantity,
        buy_order_id: buy.id,
        sell_order_id: sell.id,
        buyer: buy.trader.clone(),
        seller: sell.trader.clone(),
        timestamp: crate::clock::now_nanos(),
        trade_type: "limit".to_owned(),
    };
    trades.push(t);
    proof {
        assert(trades@.drop_last() =~= old(trades)@);
    }
    buy.update_filled(quantity);
    sell.update_filled(quantity);
    ledger.debit(buy.trader.as_str(), quote.as_str(), value);
    ledger.credit(buy.trader.as_str(), base.as_str(), quantity as u128);
    ledger.debit(sell.trader.as_str(), base.as_str(), quantity as u128);
    ledger.credit(sell.trader.as_str(), quote.as_str(), value);
}


/// The side opposite to `s`.
pub open spec fn opposite(s: OrderSide) -> OrderSide {
    match s {
        OrderSide::Buy => OrderSide::Sell,
        OrderSide::Sell => OrderSide::Buy,
    }
}

/// Whether some order in the queue carries `id`.
pub open spec fn queue_has_id(q: Seq<Order>, id: u128) -> bool {
    exists|k: int| 0 <= k < q.len() && (#[trigger] q[k]).id == id
}

/// `after` shows only fill progress over `before`: same order, at least
/// as much filled, at most as much remaining.
pub open spec fn fill_advanced(before: Order, after: Order) -> bool {
    &&& same_core(after, before)
    &&& after.filled_quantity >= before.filled_quantity
    &&& after.remaining_quantity <= before.remaining_quantity
}

/// What a front-first sweep leaves of a queue: a suffix of the original
/// orders, of which only the first may show partial fill progress.
/// Every order ahead of that suffix has left the queue, so orders leave
/// strictly in first-in-first-out order.
pub open spec fn queue_swept_by(before: Seq<Order>, after: Seq<Order>, d: int) -> bool {
    &&& 0 <= d <= before.len()
    &&& after.len() == before.len() - d
    &&& forall|k: int| 1 <= k < after.len() ==> after[k] == before[k + d]
    &&& after.len() > 0 ==> fill_advanced(before[d], after[0])
}

pub open spec fn queue_swept(before: Seq<Order>, after: Seq<Order>) -> bool {
    exists|d: int| #[trigger] queue_swept_by(before, after, d)
}

/// What a trade minted while sweeping for `incoming` at `price` looks
/// like: it trades the incoming order's symbol at that price and
/// references the incoming order on its own side.
pub open spec fn trade_from(t: Trade, incoming: Order, price: u64) -> bool {
    &&& t.symbol@ == incoming.symbol@
    &&& t.price == price
    &&& (incoming.side == OrderSide::Buy ==> t.buy_order_id == incoming.id)
    &&& (incoming.side == OrderSide::Sell ==> t.sell_order_id == incoming.id)
}


/// Whether `p` is the price of some level on `levels`.
pub open spec fn is_level_price(levels: Seq<PriceLevel>, p: u64) -> bool {
    exists|li: int| 0 <= li < levels.len() && (#[trigger] levels[li]).price == p
}

/// A sum over trades that reference only issued ids is zero for an id
/// never issued.
proof fn lemma_fill_sum_fresh(ts: Seq<Trade>, n: int, side: OrderSide, id: u128)
    requires
        trade_ids_bounded(ts, n),
        id > n,
    ensures
        fill_sum(ts, side, id) == 0,
    decreases ts.len(),
{
    if ts.len() > 0 {
        assert(trade_ids_bounded(ts.drop_last(), n)) by {
            assert(forall|t: int| 0 <= t < ts.len() - 1 ==> ts.drop_last()[t] == ts[t]);
        };
        lemma_fill_sum_fresh(ts.drop_last(), n, side, id);
    }
}

/// Matches `incoming` against the head of `queue` until the incoming
/// order is exhausted or the queue is empty. Resting orders fill in
/// strict queue order at the level's `price`; each match appends one
/// trade, advances both orders and settles the ledger; fully filled
/// resting orders are popped and written back to the index.
#[verifier::rlimit(80)]
fn sweep_level(
    incoming: &mut Order,
    queue: &mut Vec<Order>,
    price: u64,
    orders: &mut Vec<Order>,
    trades: &mut Vec<Trade>,
    ledger: &mut Ledger,
)
    requires
        old(incoming).wf(),
        old(incoming).id == old(orders)@.len() + 1,
        index_ok(old(orders)@),
        sums_ok(old(orders)@, old(trades)@),
        trade_ids_bounded(old(trades)@, old(orders)@.len() as int + 1),
        fill_sum(old(trades)@, old(incoming).side, old(incoming).id) == old(incoming).filled_quantity,
        forall|k: int|
            0 <= k < old(queue)@.len() ==> order_tracked(
                #[trigger] old(queue)@[k],
                old(orders)@,
                old(incoming).symbol@,
            ),
        forall|k: int|
            0 <= k < old(queue)@.len() ==> (#[trigger] old(queue)@[k]).side == opposite(
                old(incoming).side,
            ),
        forall|k: int, l: int|
            0 <= k < l < old(queue)@.len() ==> (#[trigger] old(queue)@[k]).id != (
            #[trigger] old(queue)@[l]).id,
    ensures
        final(orders)@.len() == old(orders)@.len(),
        index_ok(final(orders)@),
        sums_ok(final(orders)@, final(trades)@),
        trade_ids_bounded(final(trades)@, old(orders)@.len() as int + 1),
        same_core(*final(incoming), *old(incoming)),
        final(incoming).wf(),
        fill_sum(final(trades)@, old(incoming).side, old(incoming).id) == final(incoming).filled_quantity,
        final(incoming).filled_quantity >= old(incoming).filled_quantity,
        final(incoming).remaining_quantity == 0 || final(queue)@.len() == 0,
        level_total(final(queue)@) == level_total(old(queue)@) - (final(incoming).filled_quantity
            - old(incoming).filled_quantity),
        old(incoming).remaining_quantity == 0 ==> *final(incoming) == *old(incoming),
        old(incoming).remaining_quantity > 0 && final(incoming).remaining_quantity == 0 ==> final(incoming).status == OrderStatus::Filled,
        queue_swept(old(queue)@, final(queue)@),
        forall|k: int|
            0 <= k < final(queue)@.len() ==> order_tracked(
                #[trigger] final(queue)@[k],
                final(orders)@,
                old(incoming).symbol@,
            ),
        forall|k: int|
            0 <= k < final(queue)@.len() ==> (#[trigger] final(queue)@[k]).side == opposite(
                old(incoming).side,
            ),
        forall|k: int, l: int|
            0 <= k < l < final(queue)@.len() ==> (#[trigger] final(queue)@[k]).id != (
            #[trigger] final(queue)@[l]).id,
        forall|i: int|
            0 <= i < old(orders)@.len() ==> same_core(
                #[trigger] final(orders)@[i],
                old(orders)@[i],
            ),
        forall|i: int|
            0 <= i < old(orders)@.len() && !queue_has_id(old(queue)@, (i + 1) as u128)
                ==> final(orders)@[i] == old(orders)@[i],
        forall|k: int|
            0 <= k < old(queue)@.len() && !queue_has_id(final(queue)@, old(queue)@[k].id) ==> (
            #[trigger] final(orders)@[old(queue)@[k].id - 1]).remaining_quantity == 0
                && final(orders)@[old(queue)@[k].id - 1].status == OrderStatus::Filled,
        final(trades)@.len() >= old(trades)@.len(),
        final(trades)@.subrange(0, old(trades)@.len() as int) == old(trades)@,
        forall|t: int|
            old(trades)@.len() <= t < final(trades)@.len() ==> trade_from(
                #[trigger] final(trades)@[t],
                *old(incoming),
                price,
            ),
{
    let ghost q0 = old(queue)@;
    let ghost n0 = old(orders)@.len() as int;
    let ghost t0 = old(trades)@;
    proof {
        assert(queue_swept_by(q0, q0, 0));
    }
    while incoming.remaining_quantity > 0 && queue.len() > 0
        invariant
            orders@.len() == n0,
            index_ok(orders@),
            sums_ok(orders@, trades@),
            trade_ids_bounded(trades@, n0 + 1),
            same_core(*incoming, *old(incoming)),
            incoming.wf(),
            incoming.id == n0 + 1,
            fill_sum(trades@, old(incoming).side, old(incoming).id) == incoming.filled_quantity,
            incoming.filled_quantity >= old(incoming).filled_quantity,
            level_total(queue@) == level_total(q0) - (incoming.filled_quantity - old(incoming).filled_quantity),
            old(incoming).remaining_quantity == 0 ==> *incoming == *old(incoming),
            old(incoming).remaining_quantity > 0 && incoming.remaining_quantity == 0
                ==> incoming.status == OrderStatus::Filled,
            queue_swept(q0, queue@),
            forall|k: int|
                0 <= k < queue@.len() ==> order_tracked(
                    #[trigger] queue@[k],
                    orders@,
                    old(incoming).symbol@,
                ),
            forall|k: int|
                0 <= k < queue@.len() ==> (#[trigger] queue@[k]).side == opposite(
                    old(incoming).side,
                ),
            forall|k: int, l: int|
                0 <= k < l < queue@.len() ==> (#[trigger] queue@[k]).id != (
                #[trigger] queue@[l]).id,
            forall|i: int|
                0 <= i < n0 ==> same_core(#[trigger] orders@[i], old(orders)@[i]),
            forall|i: int|
                0 <= i < n0 && !queue_has_id(q0, (i + 1) as u128) ==> orders@[i] == old(orders)@[i],
            forall|k: int|
                0 <= k < q0.len() && !queue_has_id(queue@, q0[k].id) ==> (
                #[trigger] orders@[q0[k].id - 1]).remaining_quantity == 0 && orders@[q0[k].id
                    - 1].status == OrderStatus::Filled,
            trades@.len() >= t0.len(),
            trades@.subrange(0, t0.len() as int) == t0,
            forall|t: int|
                t0.len() <= t < trades@.len() ==> trade_from(
                    #[trigger] trades@[t],
                    *old(incoming),
                    price,
                ),
        decreases queue@.len(), incoming.remaining_quantity,
    {
        let ghost queue_before = queue@;
        let ghost orders_before = orders@;
        let ghost trades_before = trades@;
        let ghost inc_before = *incoming;
        let mut resting = queue[0].clone();
        proof {
            assert(order_tracked(queue@[0], orders@, old(incoming).symbol@));
            assert(orders@[resting.id - 1] == resting);
            assert(resting.wf());
        }
        let q = if incoming.remaining_quantity < resting.remaining_quantity {
            incoming.remaining_quantity
        } else {
            resting.remaining_quantity
        };
        match incoming.side {
            OrderSide::Buy => {
                execute_trade(trades, ledger, incoming, &mut resting, price, q);
            },
            OrderSide::Sell => {
                execute_trade(trades, ledger, &mut resting, incoming, price, q);
            },
        }
        let ghost t = trades@.last();
        proof {
            assert(trades@.drop_last() =~= trades_before);
            assert(trades@.subrange(0, t0.len() as int) =~= t0) by {
                assert(forall|i: int| 0 <= i < trades@.len() - 1 ==> trades@[i] == trades_before[i]);
            };
            // the new trade references the resting order on its side and
            // the incoming order on the other
            assert(1 <= resting.id <= n0);
            assert(incoming.id == n0 + 1);
            assert(t.buy_order_id == (if old(incoming).side == OrderSide::Buy {
                incoming.id
            } else {
                resting.id
            }));
            assert(t.sell_order_id == (if old(incoming).side == OrderSide::Buy {
                resting.id
            } else {
                incoming.id
            }));
            assert(t.symbol@ == old(incoming).symbol@);
            assert(t.price == price);
            assert(trade_from(t, *old(incoming), price));
            assert forall|ti: int| 0 <= ti < trades@.len() implies 1 <= (
            #[trigger] trades@[ti]).buy_order_id <= n0 + 1 && 1 <= trades@[ti].sell_order_id <= n0
                + 1 by {
                if ti < trades@.len() - 1 {
                    assert(trades@[ti] == trades_before[ti]);
                } else {
                    assert(trades@[ti] == t);
                }
            };
            assert forall|ti: int| t0.len() <= ti < trades@.len() implies trade_from(
                #[trigger] trades@[ti],
                *old(incoming),
                price,
            ) by {
                if ti < trades@.len() - 1 {
                    assert(trades@[ti] == trades_before[ti]);
                } else {
                    assert(trades@[ti] == t);
                }
            };
            assert(fill_sum(trades@, old(incoming).side, incoming.id) == fill_sum(
                trades_before,
                old(incoming).side,
                incoming.id,
            ) + q);
            // the resting order's fill sum also advances by q
            assert(fill_sum(trades@, resting.side, resting.id) == fill_sum(
                trades_before,
                resting.side,
                resting.id,
            ) + q);
        }
        let on = orders.len();
        proof {
            assert(1 <= resting.id <= n0);
            assert(on as int == n0);
        }
        let idx = (resting.id - 1) as usize;
        proof {
            assert(resting.id - 1 < on as u128);
            assert(idx as int == resting.id - 1);
        }
        orders[idx] = resting.clone();
        proof {
            assert(orders@ =~= orders_before.update(idx as int, resting));
            assert(index_ok(orders@)) by {
                assert forall|i: int| 0 <= i < orders@.len() implies (#[trigger] orders@[i]).id == i
                    + 1 && orders@[i].wf() by {
                    if i != idx {
                        assert(orders@[i] == orders_before[i]);
                    }
                };
            };
            assert(sums_ok(orders@, trades@)) by {
                assert forall|i: int|
                    0 <= i < orders@.len() implies (#[trigger] orders@[i]).filled_quantity
                    == fill_sum(trades@, orders@[i].side, orders@[i].id) by {
                    if i == idx {
                        assert(orders@[i] == resting);
                    } else {
                        assert(orders@[i] == orders_before[i]);
                        assert(orders@[i].id == i + 1);
                        assert(fill_sum(trades@, orders@[i].side, orders@[i].id) == fill_sum(
                            trades_before,
                            orders@[i].side,
                            orders@[i].id,
                        )) by {
                            assert(t.buy_order_id != i + 1 || t.sell_order_id != i + 1);
                            if orders@[i].side == OrderSide::Buy {
                                assert(t.buy_order_id != i + 1);
                            } else {
                                assert(t.sell_order_id != i + 1);
                            }
                        };
                    }
                };
            };
        }
        if resting.remaining_quantity == 0 {
            queue.remove(0);
            proof {
                assert(queue@ =~= queue_before.drop_first());
                assert(level_total(queue_before) == queue_before[0].remaining_quantity
                    + level_total(queue@));
            }
        } else {
            proof {
                assert(q == inc_before.remaining_quantity);
            }
            queue[0] = resting;
            proof {
                assert(queue@ =~= queue_before.update(0, resting));
                assert(queue@.drop_first() =~= queue_before.drop_first());
                assert(level_total(queue@) == resting.remaining_quantity + level_total(
                    queue@.drop_first(),
                ));
                assert(level_total(queue_before) == queue_before[0].remaining_quantity
                    + level_total(queue_before.drop_first()));
            }
        }
        proof {
            // queue discipline is preserved
            let d = choose|d: int| #[trigger] queue_swept_by(q0, queue_before, d);
            if resting.remaining_quantity == 0 {
                assert(queue_swept_by(q0, queue@, d + 1)) by {
                    assert(queue@.len() == q0.len() - (d + 1));
                    assert(forall|k: int| 1 <= k < queue@.len() ==> queue@[k] == q0[k + d + 1]);
                    if queue@.len() > 0 {
                        assert(queue@[0] == queue_before[1]);
                        assert(queue_before[1] == q0[1 + d]);
                        assert(fill_advanced(q0[d + 1], queue@[0]));
                    }
                };
            } else {
                assert(queue_swept_by(q0, queue@, d)) by {
                    assert(queue@.len() == q0.len() - d);
                    assert(forall|k: int| 1 <= k < queue@.len() ==> queue@[k] == q0[k + d]);
                    assert(fill_advanced(q0[d], queue_before[0]));
                    assert(fill_advanced(q0[d], queue@[0]));
                };
            }
            // tracked, sides and distinct ids for the shrunken queue
            assert forall|k: int| 0 <= k < queue@.len() implies order_tracked(
                #[trigger] queue@[k],
                orders@,
                old(incoming).symbol@,
            ) by {
                if resting.remaining_quantity == 0 {
                    assert(queue@[k] == queue_before[k + 1]);
                    assert(order_tracked(queue_before[k + 1], orders_before, old(incoming).symbol@));
                    assert(queue_before[k + 1].id != resting.id);
                    assert(orders@[queue@[k].id - 1] == orders_before[queue@[k].id - 1]);
                } else {
                    if k == 0 {
                        assert(queue@[0] == resting);
                        assert(orders@[resting.id - 1] == resting);
                    } else {
                        assert(queue@[k] == queue_before[k]);
                        assert(order_tracked(queue_before[k], orders_before, old(incoming).symbol@));
                        assert(queue_before[k].id != resting.id);
                        assert(orders@[queue@[k].id - 1] == orders_before[queue@[k].id - 1]);
                    }
                }
            };
            // orders never matched keep their index entries
            assert forall|i: int|
                0 <= i < n0 && !queue_has_id(q0, (i + 1) as u128) implies orders@[i] == old(orders)@[i] by {
                if i == idx {
                    assert(queue_has_id(queue_before, resting.id));
                    let k = choose|k: int|
                        0 <= k < queue_before.len() && (#[trigger] queue_before[k]).id
                            == resting.id;
                    if queue_before.len() < q0.len() || k >= 1 {
                        assert(queue_before[k] == q0[k + (q0.len() - queue_before.len())]);
                        assert(queue_has_id(q0, resting.id));
                    } else {
                        assert(fill_advanced(q0[q0.len() - queue_before.len()], queue_before[0]));
                        assert(q0[q0.len() - queue_before.len()].id == resting.id);
                        assert(queue_has_id(q0, resting.id));
                    }
                    assert(false);
                } else {
                    assert(orders@[i] == orders_before[i]);
                }
            };
            // popped resting orders are fully filled in the index
            assert forall|k: int|
                0 <= k < q0.len() && !queue_has_id(queue@, q0[k].id) implies (
            #[trigger] orders@[q0[k].id - 1]).remaining_quantity == 0 && orders@[q0[k].id
                - 1].status == OrderStatus::Filled by {
                if q0[k].id == resting.id {
                    if resting.remaining_quantity == 0 {
                        assert(orders@[resting.id - 1] == resting);
                        assert(resting.status == OrderStatus::Filled);
                    } else {
                        assert(queue@[0] == resting);
                        assert(queue_has_id(queue@, resting.id));
                        assert(false);
                    }
                } else {
                    assert(!queue_has_id(queue_before, q0[k].id)) by {
                        if queue_has_id(queue_before, q0[k].id) {
                            let l = choose|l: int|
                                0 <= l < queue_before.len() && (#[trigger] queue_before[l]).id
                                    == q0[k].id;
                            if resting.remaining_quantity == 0 {
                                if l == 0 {
                                    assert(queue_before[0].id == resting.id);
                                    assert(false);
                                } else {
                                    assert(queue@[l - 1] == queue_before[l]);
                                    assert(queue_has_id(queue@, q0[k].id));
                                    assert(false);
                                }
                            } else {
                                if l == 0 {
                                    assert(queue_before[0].id == resting.id);
                                    assert(false);
                                } else {
                                    assert(queue@[l] == queue_before[l]);
                                    assert(queue_has_id(queue@, q0[k].id));
                                    assert(false);
                                }
                            }
                        }
                    };
                    assert(orders@[q0[k].id - 1].remaining_quantity == 0);
                    assert(orders@[q0[k].id - 1].status == OrderStatus::Filled) by {
                        assert(orders_before[q0[k].id - 1].status == OrderStatus::Filled);
                        if q0[k].id - 1 == idx {
                            assert(false);
                        }
                    };
                }
            };
        }
    }
}


/// What a market sweep leaves of a whole side: the best levels are
/// consumed in price order; of the levels that remain, only the first
/// may have lost orders, and its queue was consumed front-first.
pub open spec fn side_swept_by(before: Seq<PriceLevel>, after: Seq<PriceLevel>, d: int) -> bool {
    &&& 0 <= d <= before.len()
    &&& after.len() == before.len() - d
    &&& forall|j: int| 1 <= j < after.len() ==> after[j] == before[j + d]
    &&& after.len() > 0 ==> after[0].price == before[d].price && queue_swept(
        before[d].orders@,
        after[0].orders@,
    )
}

pub open spec fn side_swept(before: Seq<PriceLevel>, after: Seq<PriceLevel>) -> bool {
    exists|d: int| #[trigger] side_swept_by(before, after, d)
}

/// A trade minted while sweeping for `incoming`, at whatever level
/// price it matched.
pub open spec fn trade_for(t: Trade, incoming: Order) -> bool {
    &&& t.symbol@ == incoming.symbol@
    &&& (incoming.side == OrderSide::Buy ==> t.buy_order_id == incoming.id)
    &&& (incoming.side == OrderSide::Sell ==> t.sell_order_id == incoming.id)
}

/// Sweeps `incoming` against the levels of the opposing side, best
/// price first, until it is filled or the side is exhausted. Exactly
/// `min(remaining, total resting quantity)` units trade.
#[verifier::rlimit(100)]
fn sweep_side(
    levels: &mut Vec<PriceLevel>,
    orders: &mut Vec<Order>,
    trades: &mut Vec<Trade>,
    ledger: &mut Ledger,
    incoming: &mut Order,
)
    requires
        old(incoming).wf(),
        old(incoming).id == old(orders)@.len() + 1,
        index_ok(old(orders)@),
        sums_ok(old(orders)@, old(trades)@),
        trade_ids_bounded(old(trades)@, old(orders)@.len() as int + 1),
        fill_sum(old(trades)@, old(incoming).side, old(incoming).id) == old(incoming).filled_quantity,
        side_well_formed(old(levels)@, opposite(old(incoming).side)),
        side_ids_unique(old(levels)@),
        forall|i: int, k: int|
            0 <= i < old(levels)@.len() && 0 <= k < old(levels)@[i].orders@.len() ==> order_tracked(
                #[trigger] old(levels)@[i].orders@[k],
                old(orders)@,
                old(incoming).symbol@,
            ),
    ensures
        final(orders)@.len() == old(orders)@.len(),
        index_ok(final(orders)@),
        sums_ok(final(orders)@, final(trades)@),
        trade_ids_bounded(final(trades)@, old(orders)@.len() as int + 1),
        same_core(*final(incoming), *old(incoming)),
        final(incoming).wf(),
        fill_sum(final(trades)@, old(incoming).side, old(incoming).id) == final(incoming).filled_quantity,
        final(incoming).filled_quantity - old(incoming).filled_quantity == vstd::math::min(
            old(incoming).remaining_quantity as int,
            side_total(old(levels)@),
        ),
        side_total(final(levels)@) == side_total(old(levels)@) - (final(incoming).filled_quantity
            - old(incoming).filled_quantity),
        old(incoming).remaining_quantity == 0 ==> *final(incoming) == *old(incoming),
        old(incoming).remaining_quantity > 0 && final(incoming).remaining_quantity == 0 ==> final(incoming).status == OrderStatus::Filled,
        side_swept(old(levels)@, final(levels)@),
        side_well_formed(final(levels)@, opposite(old(incoming).side)),
        side_ids_unique(final(levels)@),
        forall|i: int, k: int|
            0 <= i < final(levels)@.len() && 0 <= k < final(levels)@[i].orders@.len()
                ==> order_tracked(
                #[trigger] final(levels)@[i].orders@[k],
                final(orders)@,
                old(incoming).symbol@,
            ),
        forall|i: int|
            0 <= i < old(orders)@.len() ==> same_core(
                #[trigger] final(orders)@[i],
                old(orders)@[i],
            ),
        forall|i: int|
            0 <= i < old(orders)@.len() && !side_has_id(old(levels)@, (i + 1) as u128)
                ==> final(orders)@[i] == old(orders)@[i],
        final(trades)@.len() >= old(trades)@.len(),
        final(trades)@.subrange(0, old(trades)@.len() as int) == old(trades)@,
        forall|t: int|
            old(trades)@.len() <= t < final(trades)@.len() ==> trade_for(
                #[trigger] final(trades)@[t],
                *old(incoming),
            ),
        forall|t: int|
            old(trades)@.len() <= t < final(trades)@.len() ==> is_level_price(
                old(levels)@,
                (#[trigger] final(trades)@[t]).price,
            ),
        forall|ti: int, tj: int|
            old(trades)@.len() <= ti < tj < final(trades)@.len() ==> (old(incoming).side
                == OrderSide::Buy ==> (#[trigger] final(trades)@[ti]).price <= (
            #[trigger] final(trades)@[tj]).price) && (old(incoming).side == OrderSide::Sell ==> (
            #[trigger] final(trades)@[ti]).price >= (#[trigger] final(trades)@[tj]).price),
{
    let ghost s0 = old(levels)@;
    let ghost n0 = old(orders)@.len() as int;
    let ghost t0 = old(trades)@;
    let ghost side = old(incoming).side;
    let ghost mut d: int = 0;
    proof {
        lemma_side_total_nonneg(s0);
        if s0.len() > 0 {
            assert(queue_swept_by(s0[0].orders@, s0[0].orders@, 0));
        }
    }
    while incoming.remaining_quantity > 0 && levels.len() > 0
        invariant
            0 <= d <= s0.len(),
            levels@.len() == s0.len() - d,
            forall|j: int| 1 <= j < levels@.len() ==> levels@[j] == s0[j + d],
            levels@.len() > 0 ==> levels@[0].price == s0[d].price && queue_swept(
                s0[d].orders@,
                levels@[0].orders@,
            ),
            incoming.remaining_quantity > 0 && levels@.len() > 0 ==> levels@[0] == s0[d],
            orders@.len() == n0,
            index_ok(orders@),
            sums_ok(orders@, trades@),
            trade_ids_bounded(trades@, n0 + 1),
            same_core(*incoming, *old(incoming)),
            incoming.wf(),
            incoming.id == n0 + 1,
            fill_sum(trades@, side, incoming.id) == incoming.filled_quantity,
            incoming.filled_quantity >= old(incoming).filled_quantity,
            side_total(levels@) == side_total(s0) - (incoming.filled_quantity - old(incoming).filled_quantity),
            old(incoming).remaining_quantity == 0 ==> *incoming == *old(incoming),
            old(incoming).remaining_quantity > 0 && incoming.remaining_quantity == 0
                ==> incoming.status == OrderStatus::Filled,
            side_well_formed(levels@, opposite(side)),
            side_ids_unique(levels@),
            forall|i: int, k: int|
                0 <= i < levels@.len() && 0 <= k < levels@[i].orders@.len() ==> order_tracked(
                    #[trigger] levels@[i].orders@[k],
                    orders@,
                    old(incoming).symbol@,
                ),
            forall|i: int|
                0 <= i < n0 ==> same_core(#[trigger] orders@[i], old(orders)@[i]),
            forall|i: int|
                0 <= i < n0 && !side_has_id(s0, (i + 1) as u128) ==> orders@[i] == old(orders)@[i],
            trades@.len() >= t0.len(),
            trades@.subrange(0, t0.len() as int) == t0,
            forall|t: int|
                t0.len() <= t < trades@.len() ==> trade_for(#[trigger] trades@[t], *old(incoming)),
            forall|t: int|
                t0.len() <= t < trades@.len() ==> is_level_price(
                    s0,
                    (#[trigger] trades@[t]).price,
                ),
            forall|ti: int, tj: int|
                t0.len() <= ti < tj < trades@.len() ==> (side == OrderSide::Buy ==> (
                #[trigger] trades@[ti]).price <= (#[trigger] trades@[tj]).price) && (side
                    == OrderSide::Sell ==> (#[trigger] trades@[ti]).price >= (
                #[trigger] trades@[tj]).price),
            levels@.len() > 0 ==> (forall|t: int|
                t0.len() <= t < trades@.len() ==> (side == OrderSide::Buy ==> (
                #[trigger] trades@[t]).price <= levels@[0].price) && (side == OrderSide::Sell ==> (
                #[trigger] trades@[t]).price >= levels@[0].price)),
        decreases levels@.len(), incoming.remaining_quantity,
    {
        let ghost d0 = d;
        let ghost levels_before = levels@;
        let ghost orders_before = orders@;
        let ghost trades_before = trades@;
        let ghost inc_before = *incoming;
        let mut level = levels.remove(0);
        let price = level.price;
        proof {
            assert(levels@ =~= levels_before.drop_first());
            assert(level == s0[d0]);
            assert(side_total(levels_before) == level_total(level.orders@) + side_total(levels@));
            // the level queue satisfies the sweep preconditions
            assert(forall|k: int|
                0 <= k < level.orders@.len() ==> order_tracked(
                    #[trigger] level.orders@[k],
                    orders@,
                    old(incoming).symbol@,
                )) by {
                assert(forall|k: int|
                    0 <= k < levels_before[0].orders@.len() ==> order_tracked(
                        #[trigger] levels_before[0].orders@[k],
                        orders@,
                        old(incoming).symbol@,
                    ));
            };
            assert(forall|k: int|
                0 <= k < level.orders@.len() ==> (#[trigger] level.orders@[k]).side == opposite(
                    side,
                ));
            assert forall|k: int, l: int|
                0 <= k < l < level.orders@.len() implies (#[trigger] level.orders@[k]).id != (
            #[trigger] level.orders@[l]).id by {
                assert(levels_before[0].orders@[k].id != levels_before[0].orders@[l].id);
            };
        }
        let ghost queue0 = level.orders@;
        sweep_level(incoming, &mut level.orders, price, orders, trades, ledger);
        proof {
            assert(trades@.subrange(0, t0.len() as int) =~= t0) by {
                assert(trades_before == trades@.subrange(0, trades_before.len() as int));
                assert(forall|i: int|
                    0 <= i < t0.len() ==> trades@.subrange(0, trades_before.len() as int)[i]
                        == trades@[i]);
                assert(forall|i: int| 0 <= i < t0.len() ==> trades_before[i] == t0[i]);
            };
        }
        if level.orders.len() > 0 {
            let ghost newlevel = level;
            levels.insert(0, level);
            proof {
                assert(levels@ =~= levels_before.update(0, newlevel));
                assert(levels@[0].price == s0[d].price);
                assert(queue_swept(s0[d].orders@, levels@[0].orders@));
                assert(levels@.drop_first() =~= levels_before.drop_first());
                assert(side_total(levels@) == level_total(newlevel.orders@) + side_total(
                    levels@.drop_first(),
                ));
                assert(level_total(newlevel.orders@) == level_total(queue0) - (
                incoming.filled_quantity - inc_before.filled_quantity));
                assert(side_total(levels@) == side_total(levels_before) - (
                incoming.filled_quantity - inc_before.filled_quantity));
                // well-formedness of the updated side
                assert(side_well_formed(levels@, opposite(side))) by {
                    assert forall|i: int, k: int|
                        0 <= i < levels@.len() && 0 <= k < levels@[i].orders@.len() implies (
                    #[trigger] levels@[i].orders@[k]).side == opposite(side) && price_key(
                        levels@[i].orders@[k],
                    ) == levels@[i].price by {
                        if i == 0 {
                            let dq = choose|dq: int|
                                #[trigger] queue_swept_by(queue0, newlevel.orders@, dq);
                            if k == 0 {
                                assert(fill_advanced(queue0[dq], levels@[0].orders@[0]));
                                assert(levels_before[0].orders@[dq].side == opposite(side));
                            } else {
                                assert(levels@[0].orders@[k] == queue0[k + dq]);
                            }
                        } else {
                            assert(levels@[i] == levels_before[i]);
                        }
                    };
                    assert forall|x: int, y: int| 0 <= x < y < levels@.len() implies match opposite(
                        side,
                    ) {
                        OrderSide::Buy => (#[trigger] levels@[x]).price > (
                        #[trigger] levels@[y]).price,
                        OrderSide::Sell => levels@[x].price < levels@[y].price,
                    } by {
                        assert(levels@[y] == levels_before[y]);
                        assert(levels_before[x].price == levels@[x].price);
                    };
                };
                // ids stay unique
                assert(side_ids_unique(levels@)) by {
                    let dq = choose|dq: int|
                        #[trigger] queue_swept_by(queue0, newlevel.orders@, dq);
                    assert forall|i: int, k: int, j: int, l: int|
                        #![trigger levels@[i].orders@[k].id, levels@[j].orders@[l].id]
                        0 <= i < levels@.len() && 0 <= k < levels@[i].orders@.len() && 0 <= j
                            < levels@.len() && 0 <= l < levels@[j].orders@.len()
                            && levels@[i].orders@[k].id == levels@[j].orders@[l].id implies i == j
                        && k == l by {
                        let kb = if i == 0 {
                            k + dq
                        } else {
                            k
                        };
                        let lb = if j == 0 {
                            l + dq
                        } else {
                            l
                        };
                        assert(levels@[i].orders@[k].id == levels_before[i].orders@[kb].id);
                        assert(levels@[j].orders@[l].id == levels_before[j].orders@[lb].id);
                    };
                };
                assert forall|i: int, k: int|
                    0 <= i < levels@.len() && 0 <= k < levels@[i].orders@.len() implies order_tracked(
                    #[trigger] levels@[i].orders@[k],
                    orders@,
                    old(incoming).symbol@,
                ) by {
                    if i >= 1 {
                        assert(levels@[i] == levels_before[i]);
                        assert(order_tracked(
                            levels_before[i].orders@[k],
                            orders_before,
                            old(incoming).symbol@,
                        ));
                        let oid = levels@[i].orders@[k].id;
                        if queue_has_id(queue0, oid) {
                            let k2 = choose|k2: int|
                                0 <= k2 < queue0.len() && (#[trigger] queue0[k2]).id == oid;
                            assert(levels_before[0].orders@[k2].id
                                == levels_before[i].orders@[k].id);
                            assert(false);
                        }
                        assert(orders@[oid - 1] == orders_before[oid - 1]);
                    }
                };
            }
        } else {
            proof {
                d = d + 1;
                assert(incoming.remaining_quantity == 0 || levels@.len() == 0 || levels@[0]
                    == s0[d]);
                assert(side_well_formed(levels@, opposite(side))) by {
                    assert(forall|j: int|
                        0 <= j < levels@.len() ==> levels@[j] == levels_before[j + 1]);
                };
                assert(side_ids_unique(levels@)) by {
                    assert forall|i: int, k: int, j: int, l: int|
                        #![trigger levels@[i].orders@[k].id, levels@[j].orders@[l].id]
                        0 <= i < levels@.len() && 0 <= k < levels@[i].orders@.len() && 0 <= j
                            < levels@.len() && 0 <= l < levels@[j].orders@.len()
                            && levels@[i].orders@[k].id == levels@[j].orders@[l].id implies i == j
                        && k == l by {
                        assert(levels@[i] == levels_before[i + 1]);
                        assert(levels@[j] == levels_before[j + 1]);
                    };
                };
                if levels@.len() > 0 {
                    assert(levels@[0] == levels_before[1]);
                    assert(levels@[0] == s0[d]);
                    assert(queue_swept_by(s0[d].orders@, levels@[0].orders@, 0));
                }
                assert(level_total(level.orders@) == 0);
                assert(side_total(levels@) == side_total(levels_before) - level_total(queue0));
                assert forall|i: int, k: int|
                    0 <= i < levels@.len() && 0 <= k < levels@[i].orders@.len() implies order_tracked(
                    #[trigger] levels@[i].orders@[k],
                    orders@,
                    old(incoming).symbol@,
                ) by {
                    assert(levels@[i] == levels_before[i + 1]);
                    assert(order_tracked(
                        levels_before[i + 1].orders@[k],
                        orders_before,
                        old(incoming).symbol@,
                    ));
                    let oid = levels@[i].orders@[k].id;
                    if queue_has_id(queue0, oid) {
                        let k2 = choose|k2: int|
                            0 <= k2 < queue0.len() && (#[trigger] queue0[k2]).id == oid;
                        assert(levels_before[0].orders@[k2].id == levels_before[i
                            + 1].orders@[k].id);
                        assert(false);
                    }
                    assert(orders@[oid - 1] == orders_before[oid - 1]);
                };
            }
        }
        proof {
            assert(level_total(queue0) >= 0 && level_total(s0[d0].orders@) >= 0) by {
                lemma_level_total_bound(queue0);
            };
            assert(side_total(levels@) == side_total(s0) - (incoming.filled_quantity
                - old(incoming).filled_quantity));
            assert forall|t: int|
                t0.len() <= t < trades@.len() implies trade_for(
                #[trigger] trades@[t],
                *old(incoming),
            ) by {
                if t < trades_before.len() {
                    assert(trades_before == trades@.subrange(0, trades_before.len() as int));
                    assert(trades@[t] == trades_before[t]);
                } else {
                    assert(trade_from(trades@[t], inc_before, price));
                }
            };
            // every trade strikes at a level price, best price first
            assert(price == s0[d0].price);
            assert(is_level_price(s0, price)) by {
                assert(s0[d0].price == price);
            };
            assert forall|t: int|
                t0.len() <= t < trades@.len() implies is_level_price(
                s0,
                (#[trigger] trades@[t]).price,
            ) by {
                if t < trades_before.len() {
                    assert(trades@[t] == trades_before[t]);
                } else {
                    assert(trade_from(trades@[t], inc_before, price));
                }
            };
            assert forall|ti: int, tj: int|
                t0.len() <= ti < tj < trades@.len() implies (side == OrderSide::Buy ==> (
            #[trigger] trades@[ti]).price <= (#[trigger] trades@[tj]).price) && (side
                == OrderSide::Sell ==> (#[trigger] trades@[ti]).price >= (
            #[trigger] trades@[tj]).price) by {
                if tj < trades_before.len() {
                    assert(trades@[ti] == trades_before[ti]);
                    assert(trades@[tj] == trades_before[tj]);
                } else if ti < trades_before.len() {
                    assert(trades@[ti] == trades_before[ti]);
                    assert(trade_from(trades@[tj], inc_before, price));
                    assert(levels_before[0].price == price);
                } else {
                    assert(trade_from(trades@[ti], inc_before, price));
                    assert(trade_from(trades@[tj], inc_before, price));
                }
            };
            assert(levels@.len() > 0 ==> (forall|t: int|
                t0.len() <= t < trades@.len() ==> (side == OrderSide::Buy ==> (
                #[trigger] trades@[t]).price <= levels@[0].price) && (side == OrderSide::Sell ==> (
                #[trigger] trades@[t]).price >= levels@[0].price))) by {
                if levels@.len() > 0 {
                    assert(crate::book::side_sorted(s0, opposite(side)));
                    assert forall|t: int|
                        t0.len() <= t < trades@.len() implies (side == OrderSide::Buy ==> (
                    #[trigger] trades@[t]).price <= levels@[0].price) && (side == OrderSide::Sell
                        ==> (#[trigger] trades@[t]).price >= levels@[0].price) by {
                        if t < trades_before.len() {
                            assert(trades@[t] == trades_before[t]);
                        } else {
                            assert(trade_from(trades@[t], inc_before, price));
                        }
                        if levels@.len() == levels_before.len() {
                            assert(levels@[0].price == s0[d0].price);
                        } else {
                            assert(levels@[0] == s0[d]);
                            assert(d == d0 + 1);
                        }
                    };
                }
            };
            // orders at ids outside the original side are untouched
            assert forall|i: int|
                0 <= i < n0 && !side_has_id(s0, (i + 1) as u128) implies orders@[i] == old(orders)@[i] by {
                if orders@[i] != orders_before[i] {
                    assert(queue_has_id(queue0, (i + 1) as u128));
                    let k = choose|k: int|
                        0 <= k < queue0.len() && (#[trigger] queue0[k]).id == (i + 1) as u128;
                    assert(queue0 == s0[d0].orders@);
                    assert(s0[d0].orders@[k].id == (i + 1) as u128);
                    assert(side_has_id(s0, (i + 1) as u128));
                    assert(false);
                }
            };
        }
    }
    proof {
        lemma_side_total_nonneg(levels@);
        lemma_side_total_nonneg(s0);
        assert(side_swept_by(s0, levels@, d));
    }
}


/// A swept side only loses orders: every id still resting was resting
/// before, and the best price can only have moved away.
proof fn lemma_swept_side_facts(before: Seq<PriceLevel>, after: Seq<PriceLevel>, s: OrderSide)
    requires
        side_swept(before, after),
        crate::book::side_sorted(before, s),
    ensures
        forall|id: u128| #[trigger] side_has_id(after, id) ==> side_has_id(before, id),
        after.len() > 0 ==> before.len() > 0,
        after.len() > 0 && s == OrderSide::Sell ==> after[0].price >= before[0].price,
        after.len() > 0 && s == OrderSide::Buy ==> after[0].price <= before[0].price,
{
    let d = choose|d: int| #[trigger] side_swept_by(before, after, d);
    assert forall|id: u128| #[trigger] side_has_id(after, id) implies side_has_id(before, id) by {
        let (i, k) = choose|i: int, k: int|
            0 <= i < after.len() && 0 <= k < after[i].orders@.len() && (
            #[trigger] after[i].orders@[k]).id == id;
        if i >= 1 {
            assert(after[i] == before[i + d]);
            assert(before[i + d].orders@[k].id == id);
        } else {
            let dq = choose|dq: int| #[trigger] queue_swept_by(before[d].orders@, after[0].orders@, dq);
            if k >= 1 {
                assert(after[0].orders@[k] == before[d].orders@[k + dq]);
                assert(before[d].orders@[k + dq].id == id);
            } else {
                assert(fill_advanced(before[d].orders@[dq], after[0].orders@[0]));
                assert(before[d].orders@[dq].id == id);
            }
        }
    };
    if after.len() > 0 {
        assert(after[0].price == before[d].price);
        if d > 0 {
            assert(crate::book::side_sorted(before, s));
        }
    }
}

/// Sweeps a market buy order against the ask side, best (lowest) price
/// first: exactly `min(remaining, total resting ask quantity)` units
/// trade, and the order ends `Partial` whenever any quantity is left.
fn match_market_buy_order(
    book: &mut OrderBook,
    orders: &mut Vec<Order>,
    trades: &mut Vec<Trade>,
    ledger: &mut Ledger,
    incoming: &mut Order,
)
    requires
        old(incoming).wf(),
        old(incoming).side == OrderSide::Buy,
        old(incoming).id == old(orders)@.len() + 1,
        index_ok(old(orders)@),
        sums_ok(old(orders)@, old(trades)@),
        trade_ids_bounded(old(trades)@, old(orders)@.len() as int + 1),
        fill_sum(old(trades)@, OrderSide::Buy, old(incoming).id) == old(incoming).filled_quantity,
        old(book).wf(),
        !old(book).crossed(),
        book_tracked(*old(book), old(orders)@),
        old(incoming).symbol@ == old(book).symbol@,
    ensures
        final(book).wf(),
        !final(book).crossed(),
        book_tracked(*final(book), final(orders)@),
        final(book).symbol == old(book).symbol,
        final(book).bids == old(book).bids,
        side_swept(old(book).asks@, final(book).asks@),
        final(orders)@.len() == old(orders)@.len(),
        index_ok(final(orders)@),
        sums_ok(final(orders)@, final(trades)@),
        trade_ids_bounded(final(trades)@, old(orders)@.len() as int + 1),
        same_core(*final(incoming), *old(incoming)),
        final(incoming).wf(),
        fill_sum(final(trades)@, OrderSide::Buy, old(incoming).id) == final(incoming).filled_quantity,
        final(incoming).filled_quantity - old(incoming).filled_quantity == vstd::math::min(
            old(incoming).remaining_quantity as int,
            side_total(old(book).asks@),
        ),
        side_total(final(book).asks@) == side_total(old(book).asks@) - (final(incoming).filled_quantity - old(incoming).filled_quantity),
        final(incoming).status == (if final(incoming).remaining_quantity > 0 {
            OrderStatus::Partial
        } else if old(incoming).remaining_quantity > 0 {
            OrderStatus::Filled
        } else {
            old(incoming).status
        }),
        forall|i: int|
            0 <= i < old(orders)@.len() ==> same_core(
                #[trigger] final(orders)@[i],
                old(orders)@[i],
            ),
        forall|i: int|
            0 <= i < old(orders)@.len() && !side_has_id(old(book).asks@, (i + 1) as u128)
                ==> final(orders)@[i] == old(orders)@[i],
        final(trades)@.len() >= old(trades)@.len(),
        final(trades)@.subrange(0, old(trades)@.len() as int) == old(trades)@,
        forall|t: int|
            old(trades)@.len() <= t < final(trades)@.len() ==> trade_for(
                #[trigger] final(trades)@[t],
                *old(incoming),
            ),
        forall|t: int|
            old(trades)@.len() <= t < final(trades)@.len() ==> is_level_price(
                old(book).asks@,
                (#[trigger] final(trades)@[t]).price,
            ),
        forall|ti: int, tj: int|
            old(trades)@.len() <= ti < tj < final(trades)@.len() ==> (
            #[trigger] final(trades)@[ti]).price <= (#[trigger] final(trades)@[tj]).price,
{
    sweep_side(&mut book.asks, orders, trades, ledger, incoming);
    if incoming.remaining_quantity > 0 {
        incoming.status = OrderStatus::Partial;
    }
    proof {
        lemma_swept_side_facts(old(book).asks@, book.asks@, OrderSide::Sell);
        assert(!book.crossed());
        assert(book.wf()) by {
            assert forall|id: u128|
                #![trigger side_has_id(book.bids@, id)]
                !(side_has_id(book.bids@, id) && side_has_id(book.asks@, id)) by {
                if side_has_id(book.asks@, id) {
                    assert(side_has_id(old(book).asks@, id));
                }
            };
        };
        assert(book_tracked(*book, orders@)) by {
            assert forall|i: int, k: int|
                0 <= i < book.bids@.len() && 0 <= k < book.bids@[i].orders@.len() implies order_tracked(
                #[trigger] book.bids@[i].orders@[k],
                orders@,
                book.symbol@,
            ) by {
                let o = book.bids@[i].orders@[k];
                assert(order_tracked(o, old(orders)@, old(book).symbol@));
                assert(!side_has_id(old(book).asks@, o.id)) by {
                    assert(side_has_id(old(book).bids@, o.id));
                };
                assert(orders@[o.id - 1] == old(orders)@[o.id - 1]);
            };
        };
    }
}

/// Sweeps a market sell order against the bid side, best (highest)
/// price first, symmetrically to a market buy.
fn match_market_sell_order(
    book: &mut OrderBook,
    orders: &mut Vec<Order>,
    trades: &mut Vec<Trade>,
    ledger: &mut Ledger,
    incoming: &mut Order,
)
    requires
        old(incoming).wf(),
        old(incoming).side == OrderSide::Sell,
        old(incoming).id == old(orders)@.len() + 1,
        index_ok(old(orders)@),
        sums_ok(old(orders)@, old(trades)@),
        trade_ids_bounded(old(trades)@, old(orders)@.len() as int + 1),
        fill_sum(old(trades)@, OrderSide::Sell, old(incoming).id) == old(incoming).filled_quantity,
        old(book).wf(),
        !old(book).crossed(),
        book_tracked(*old(book), old(orders)@),
        old(incoming).symbol@ == old(book).symbol@,
    ensures
        final(book).wf(),
        !final(book).crossed(),
        book_tracked(*final(book), final(orders)@),
        final(book).symbol == old(book).symbol,
        final(book).asks == old(book).asks,
        side_swept(old(book).bids@, final(book).bids@),
        final(orders)@.len() == old(orders)@.len(),
        index_ok(final(orders)@),
        sums_ok(final(orders)@, final(trades)@),
        trade_ids_bounded(final(trades)@, old(orders)@.len() as int + 1),
        same_core(*final(incoming), *old(incoming)),
        final(incoming).wf(),
        fill_sum(final(trades)@, OrderSide::Sell, old(incoming).id) == final(incoming).filled_quantity,
        final(incoming).filled_quantity - old(incoming).filled_quantity == vstd::math::min(
            old(incoming).remaining_quantity as int,
            side_total(old(book).bids@),
        ),
        side_total(final(book).bids@) == side_total(old(book).bids@) - (final(incoming).filled_quantity - old(incoming).filled_quantity),
        final(incoming).status == (if final(incoming).remaining_quantity > 0 {
            OrderStatus::Partial
        } else if old(incoming).remaining_quantity > 0 {
            OrderStatus::Filled
        } else {
            old(incoming).status
        }),
        forall|i: int|
            0 <= i < old(orders)@.len() ==> same_core(
                #[trigger] final(orders)@[i],
                old(orders)@[i],
            ),
        forall|i: int|
            0 <= i < old(orders)@.len() && !side_has_id(old(book).bids@, (i + 1) as u128)
                ==> final(orders)@[i] == old(orders)@[i],
        final(trades)@.len() >= old(trades)@.len(),
        final(trades)@.subrange(0, old(trades)@.len() as int) == old(trades)@,
        forall|t: int|
            old(trades)@.len() <= t < final(trades)@.len() ==> trade_for(
                #[trigger] final(trades)@[t],
                *old(incoming),
            ),
        forall|t: int|
            old(trades)@.len() <= t < final(trades)@.len() ==> is_level_price(
                old(book).bids@,
                (#[trigger] final(trades)@[t]).price,
            ),
        forall|ti: int, tj: int|
            old(trades)@.len() <= ti < tj < final(trades)@.len() ==> (
            #[trigger] final(trades)@[ti]).price >= (#[trigger] final(trades)@[tj]).price,
{
    sweep_side(&mut book.bids, orders, trades, ledger, incoming);
    if incoming.remaining_quantity > 0 {
        incoming.status = OrderStatus::Partial;
    }
    proof {
        lemma_swept_side_facts(old(book).bids@, book.bids@, OrderSide::Buy);
        assert(!book.crossed());
        assert(book.wf()) by {
            assert forall|id: u128|
                #![trigger side_has_id(book.bids@, id)]
                !(side_has_id(book.bids@, id) && side_has_id(book.asks@, id)) by {
                if side_has_id(book.bids@, id) {
                    assert(side_has_id(old(book).bids@, id));
                }
            };
        };
        assert(book_tracked(*book, orders@)) by {
            assert forall|i: int, k: int|
                0 <= i < book.asks@.len() && 0 <= k < book.asks@[i].orders@.len() implies order_tracked(
                #[trigger] book.asks@[i].orders@[k],
                orders@,
                book.symbol@,
            ) by {
                let o = book.asks@[i].orders@[k];
                assert(order_tracked(o, old(orders)@, old(book).symbol@));
                assert(!side_has_id(old(book).bids@, o.id)) by {
                    assert(side_has_id(old(book).asks@, o.id));
                };
                assert(orders@[o.id - 1] == old(orders)@[o.id - 1]);
            };
        };
    }
}


/// Whether `o` rests on `side` at some position other than the head of
/// the best level.
pub open spec fn on_side_not_head(side: Seq<PriceLevel>, o: Order) -> bool {
    exists|i: int, k: int|
        0 <= i < side.len() && 0 <= k < side[i].orders@.len() && !(i == 0 && k == 0) && (
        #[trigger] side[i].orders@[k]) == o
}


/// The price rule of the crossing loop: a trade struck between two
/// resting orders executes at the price of whichever order was created
/// earlier (reading the stable fields of the referenced index entries).
pub open spec fn crossing_priced(t: Trade, orders: Seq<Order>) -> bool {
    &&& 1 <= t.buy_order_id <= orders.len()
    &&& 1 <= t.sell_order_id <= orders.len()
    &&& t.price == (if orders[t.buy_order_id - 1].created_at < orders[t.sell_order_id
        - 1].created_at {
        price_key(orders[t.buy_order_id - 1])
    } else {
        price_key(orders[t.sell_order_id - 1])
    })
}

/// Writes a matched head order back into its side: replaced in place
/// while it has quantity left, popped once fully filled, and its level
/// pruned when that empties it.
fn restore_head(side: &mut Vec<PriceLevel>, o: Order, s: OrderSide)
    requires
        side_well_formed(old(side)@, s),
        side_ids_unique(old(side)@),
        old(side)@.len() > 0,
        old(side)@[0].orders@.len() > 0,
        o.id == old(side)@[0].orders@[0].id,
        o.side == old(side)@[0].orders@[0].side,
        price_key(o) == price_key(old(side)@[0].orders@[0]),
    ensures
        side_well_formed(final(side)@, s),
        side_ids_unique(final(side)@),
        o.remaining_quantity > 0 ==> {
            &&& final(side)@.len() == old(side)@.len()
            &&& final(side)@[0].price == old(side)@[0].price
            &&& final(side)@[0].orders@ == old(side)@[0].orders@.update(0, o)
            &&& (forall|j: int| 1 <= j < old(side)@.len() ==> final(side)@[j] == old(side)@[j])
            &&& (forall|id: u128|
                #[trigger] side_has_id(final(side)@, id) == side_has_id(old(side)@, id))
            &&& side_order_count(final(side)@) == side_order_count(old(side)@)
        },
        forall|i: int, k: int|
            0 <= i < final(side)@.len() && 0 <= k < final(side)@[i].orders@.len() ==> (
            #[trigger] final(side)@[i].orders@[k]) == o || on_side_not_head(
                old(side)@,
                final(side)@[i].orders@[k],
            ),
        o.remaining_quantity == 0 ==> {
            &&& !side_has_id(final(side)@, o.id)
            &&& (forall|id: u128|
                id != o.id ==> #[trigger] side_has_id(final(side)@, id) == side_has_id(
                    old(side)@,
                    id,
                ))
            &&& side_order_count(final(side)@) == side_order_count(old(side)@) - 1
            &&& (if old(side)@[0].orders@.len() > 1 {
                final(side)@.len() == old(side)@.len() && final(side)@[0].price
                    == old(side)@[0].price && final(side)@[0].orders@
                    == old(side)@[0].orders@.remove(0) && (forall|j: int|
                    1 <= j < old(side)@.len() ==> final(side)@[j] == old(side)@[j])
            } else {
                final(side)@.len() == old(side)@.len() - 1 && (forall|j: int|
                    1 <= j < old(side)@.len() ==> final(side)@[j - 1] == old(side)@[j])
            })
        },
{
    let ghost before = side@;
    if o.remaining_quantity > 0 {
        let mut level = side.remove(0);
        let ghost q0 = level.orders@;
        level.orders[0] = o;
        let ghost newlevel = level;
        side.insert(0, level);
        proof {
            assert(side@ =~= before.update(0, newlevel));
            assert(newlevel.orders@ == q0.update(0, o));
            crate::book::lemma_head_order_updated(before, side@, o, s);
            assert(side@.drop_first() =~= before.drop_first());
            assert(side_order_count(side@) == side_order_count(before));
            assert forall|i: int, k: int|
                0 <= i < side@.len() && 0 <= k < side@[i].orders@.len() implies (
            #[trigger] side@[i].orders@[k]) == o || on_side_not_head(
                before,
                side@[i].orders@[k],
            ) by {
                if !(i == 0 && k == 0) {
                    assert(before[i].orders@[k] == side@[i].orders@[k]);
                }
            };
        }
    } else {
        let mut level = side.remove(0);
        if level.orders.len() > 1 {
            level.orders.remove(0);
            let ghost newlevel = level;
            side.insert(0, level);
            proof {
                assert(side@ =~= before.update(0, newlevel));
                assert(newlevel.orders@ =~= before[0].orders@.remove(0));
                crate::book::lemma_remove_from_level(before, side@, o.id, 0, 0, s);
                assert(side@.drop_first() =~= before.drop_first());
                assert(side_order_count(side@) == side_order_count(before) - 1);
                assert forall|i: int, k: int|
                    0 <= i < side@.len() && 0 <= k < side@[i].orders@.len() implies (
                #[trigger] side@[i].orders@[k]) == o || on_side_not_head(
                    before,
                    side@[i].orders@[k],
                ) by {
                    if i == 0 {
                        assert(side@[0].orders@[k] == before[0].orders@[k + 1]);
                    } else {
                        assert(side@[i].orders@[k] == before[i].orders@[k]);
                    }
                };
            }
        } else {
            proof {
                assert(side@ =~= before.remove(0));
                crate::book::lemma_remove_level(before, side@, o.id, 0, s);
                assert(side@ =~= before.drop_first());
                assert(side_order_count(side@) == side_order_count(before) - 1);
                assert forall|i: int, k: int|
                    0 <= i < side@.len() && 0 <= k < side@[i].orders@.len() implies (
                #[trigger] side@[i].orders@[k]) == o || on_side_not_head(
                    before,
                    side@[i].orders@[k],
                ) by {
                    assert(side@[i].orders@[k] == before[i + 1].orders@[k]);
                };
            }
        }
    }
}

/// Runs the crossing loop on one book: while the best bid is at or
/// above the best ask, the two head orders match for
/// `min(remaining, remaining)` at the price of whichever order was
/// created earlier. On return the book is never crossed: the best bid
/// is below the best ask or one side is empty.
#[verifier::rlimit(100)]
fn cross_book(
    book: &mut OrderBook,
    orders: &mut Vec<Order>,
    trades: &mut Vec<Trade>,
    ledger: &mut Ledger,
)
    requires
        index_ok(old(orders)@),
        sums_ok(old(orders)@, old(trades)@),
        trade_ids_bounded(old(trades)@, old(orders)@.len() as int),
        old(book).wf(),
        book_tracked(*old(book), old(orders)@),
    ensures
        final(book).wf(),
        !final(book).crossed(),
        book_tracked(*final(book), final(orders)@),
        final(book).symbol == old(book).symbol,
        final(orders)@.len() == old(orders)@.len(),
        index_ok(final(orders)@),
        sums_ok(final(orders)@, final(trades)@),
        trade_ids_bounded(final(trades)@, old(orders)@.len() as int),
        forall|i: int|
            0 <= i < old(orders)@.len() ==> same_core(
                #[trigger] final(orders)@[i],
                old(orders)@[i],
            ),
        forall|i: int|
            0 <= i < old(orders)@.len() && !old(book).has_order_id((i + 1) as u128)
                ==> final(orders)@[i] == old(orders)@[i],
        forall|id: u128|
            #[trigger] final(book).has_order_id(id) ==> old(book).has_order_id(id),
        final(trades)@.len() >= old(trades)@.len(),
        final(trades)@.subrange(0, old(trades)@.len() as int) == old(trades)@,
        forall|t: int|
            old(trades)@.len() <= t < final(trades)@.len() ==> (#[trigger] final(trades)@[t]).symbol@
                == old(book).symbol@,
        forall|t: int|
            old(trades)@.len() <= t < final(trades)@.len() ==> crossing_priced(
                #[trigger] final(trades)@[t],
                final(orders)@,
            ),
        forall|i: int|
            0 <= i < old(orders)@.len() && final(orders)@[i] != old(orders)@[i] ==> (
            #[trigger] final(orders)@[i]).status == (if final(orders)@[i].remaining_quantity == 0 {
                OrderStatus::Filled
            } else {
                OrderStatus::Partial
            }),
        !old(book).crossed() ==> *final(book) == *old(book) && *final(orders) == *old(orders)
            && *final(trades) == *old(trades) && *final(ledger) == *old(ledger),
{
    let ghost n0 = old(orders)@.len() as int;
    let ghost t0 = old(trades)@;
    proof {
        crate::book::lemma_side_order_count_nonneg(old(book).bids@);
        crate::book::lemma_side_order_count_nonneg(old(book).asks@);
    }
    while book.bids.len() > 0 && book.asks.len() > 0 && book.bids[0].price >= book.asks[0].price
        invariant
            book.wf(),
            book_tracked(*book, orders@),
            book.symbol == old(book).symbol,
            orders@.len() == n0,
            index_ok(orders@),
            sums_ok(orders@, trades@),
            trade_ids_bounded(trades@, n0),
            side_order_count(book.bids@) >= 0,
            side_order_count(book.asks@) >= 0,
            forall|i: int|
                0 <= i < n0 ==> same_core(#[trigger] orders@[i], old(orders)@[i]),
            forall|i: int|
                0 <= i < n0 && !old(book).has_order_id((i + 1) as u128) ==> orders@[i] == old(orders)@[i],
            forall|id: u128| #[trigger] book.has_order_id(id) ==> old(book).has_order_id(id),
            trades@.len() >= t0.len(),
            trades@.subrange(0, t0.len() as int) == t0,
            forall|t: int|
                t0.len() <= t < trades@.len() ==> (#[trigger] trades@[t]).symbol@ == old(book).symbol@,
            forall|t: int|
                t0.len() <= t < trades@.len() ==> crossing_priced(#[trigger] trades@[t], orders@),
            forall|i: int|
                0 <= i < n0 && orders@[i] != old(orders)@[i] ==> (#[trigger] orders@[i]).status == (
                if orders@[i].remaining_quantity == 0 {
                    OrderStatus::Filled
                } else {
                    OrderStatus::Partial
                }),
            !old(book).crossed() ==> *book == *old(book) && *orders == *old(orders) && *trades
                == *old(trades) && *ledger == *old(ledger),
        decreases side_order_count(book.bids@) + side_order_count(book.asks@),
    {
        let ghost book_before = *book;
        let ghost orders_before = orders@;
        let ghost trades_before = trades@;
        let bid_price = book.bids[0].price;
        let ask_price = book.asks[0].price;
        let mut buy = book.bids[0].orders[0].clone();
        let mut sell = book.asks[0].orders[0].clone();
        proof {
            assert(order_tracked(book.bids@[0].orders@[0], orders@, book.symbol@));
            assert(order_tracked(book.asks@[0].orders@[0], orders@, book.symbol@));
            assert(orders@[buy.id - 1] == buy);
            assert(orders@[sell.id - 1] == sell);
            assert(buy.wf() && sell.wf());
            assert(buy.side == OrderSide::Buy && sell.side == OrderSide::Sell);
            assert(buy.id != sell.id) by {
                assert(side_has_id(book.bids@, buy.id));
                if side_has_id(book.asks@, buy.id) {
                    assert(false);
                }
                assert(book.asks@[0].orders@[0].id == sell.id);
            };
        }
        let q = if buy.remaining_quantity < sell.remaining_quantity {
            buy.remaining_quantity
        } else {
            sell.remaining_quantity
        };
        let price = if buy.created_at < sell.created_at {
            bid_price
        } else {
            ask_price
        };
        execute_trade(trades, ledger, &mut buy, &mut sell, price, q);
        let ghost t = trades@.last();
        proof {
            assert(trades@.drop_last() =~= trades_before);
            assert(trades@.subrange(0, t0.len() as int) =~= t0) by {
                assert(forall|i: int| 0 <= i < trades@.len() - 1 ==> trades@[i] == trades_before[i]);
            };
            assert(t.buy_order_id == buy.id && t.sell_order_id == sell.id);
            assert(t.symbol@ == old(book).symbol@);
            assert forall|ti: int|
                0 <= ti < trades@.len() implies 1 <= (#[trigger] trades@[ti]).buy_order_id <= n0
                && 1 <= trades@[ti].sell_order_id <= n0 by {
                if ti < trades@.len() - 1 {
                    assert(trades@[ti] == trades_before[ti]);
                } else {
                    assert(trades@[ti] == t);
                }
            };
        }
        let on = orders.len();
        let bidx = (buy.id - 1) as usize;
        proof {
            assert(on as int == n0);
            assert(buy.id - 1 < on as u128);
            assert(bidx as int == buy.id - 1);
        }
        orders[bidx] = buy.clone();
        let sidx = (sell.id - 1) as usize;
        proof {
            assert(sell.id - 1 < on as u128);
            assert(sidx as int == sell.id - 1);
        }
        orders[sidx] = sell.clone();
        proof {
            assert(orders@ =~= orders_before.update(bidx as int, buy).update(sidx as int, sell));
            assert(index_ok(orders@)) by {
                assert forall|i: int|
                    0 <= i < orders@.len() implies (#[trigger] orders@[i]).id == i + 1
                    && orders@[i].wf() by {
                    if i != bidx && i != sidx {
                        assert(orders@[i] == orders_before[i]);
                    }
                };
            };
            assert(sums_ok(orders@, trades@)) by {
                assert forall|i: int|
                    0 <= i < orders@.len() implies (#[trigger] orders@[i]).filled_quantity
                    == fill_sum(trades@, orders@[i].side, orders@[i].id) by {
                    if i == bidx as int {
                        assert(orders@[i] == buy);
                    } else if i == sidx as int {
                        assert(orders@[i] == sell);
                    } else {
                        assert(orders@[i] == orders_before[i]);
                        assert(orders@[i].id == i + 1);
                        if orders@[i].side == OrderSide::Buy {
                            assert(t.buy_order_id != i + 1);
                        } else {
                            assert(t.sell_order_id != i + 1);
                        }
                    }
                };
            };
        }
        let ghost bids_mid = book.bids@;
        let ghost asks_mid = book.asks@;
        restore_head(&mut book.bids, buy, OrderSide::Buy);
        restore_head(&mut book.asks, sell, OrderSide::Sell);
        proof {
            assert(buy.remaining_quantity == 0 || sell.remaining_quantity == 0);
            // cross-side ids stay disjoint and within the old book
            assert forall|id: u128|
                #![trigger side_has_id(book.bids@, id)]
                !(side_has_id(book.bids@, id) && side_has_id(book.asks@, id)) by {
                if side_has_id(book.bids@, id) && side_has_id(book.asks@, id) {
                    assert(side_has_id(bids_mid, id));
                    assert(side_has_id(asks_mid, id));
                    assert(false);
                }
            };
            assert forall|id: u128| #[trigger] book.has_order_id(id) implies old(book).has_order_id(id) by {
                if side_has_id(book.bids@, id) {
                    assert(side_has_id(bids_mid, id));
                    assert(book_before.has_order_id(id));
                } else {
                    assert(side_has_id(asks_mid, id));
                    assert(book_before.has_order_id(id));
                }
            };
            // every resting order still mirrors its index entry
            assert(book_tracked(*book, orders@)) by {
                assert forall|i: int, k: int|
                    0 <= i < book.bids@.len() && 0 <= k < book.bids@[i].orders@.len() implies order_tracked(
                    #[trigger] book.bids@[i].orders@[k],
                    orders@,
                    book.symbol@,
                ) by {
                    let o2 = book.bids@[i].orders@[k];
                    if o2 == buy {
                        assert(orders@[buy.id - 1] == buy);
                        assert(o2.symbol@ == book.symbol@);
                    } else {
                        assert(on_side_not_head(bids_mid, o2));
                        let (i2, k2) = choose|i2: int, k2: int|
                            0 <= i2 < bids_mid.len() && 0 <= k2 < bids_mid[i2].orders@.len() && !(
                            i2 == 0 && k2 == 0) && (#[trigger] bids_mid[i2].orders@[k2]) == o2;
                        assert(order_tracked(o2, orders_before, book.symbol@));
                        assert(o2.id != buy.id) by {
                            assert(bids_mid[0].orders@[0].id == buy.id);
                        };
                        assert(o2.id != sell.id) by {
                            assert(side_has_id(bids_mid, o2.id));
                            assert(side_has_id(asks_mid, sell.id)) by {
                                assert(asks_mid[0].orders@[0].id == sell.id);
                            };
                        };
                        assert(orders@[o2.id - 1] == orders_before[o2.id - 1]);
                    }
                };
                assert forall|i: int, k: int|
                    0 <= i < book.asks@.len() && 0 <= k < book.asks@[i].orders@.len() implies order_tracked(
                    #[trigger] book.asks@[i].orders@[k],
                    orders@,
                    book.symbol@,
                ) by {
                    let o2 = book.asks@[i].orders@[k];
                    if o2 == sell {
                        assert(orders@[sell.id - 1] == sell);
                        assert(o2.symbol@ == book.symbol@);
                    } else {
                        assert(on_side_not_head(asks_mid, o2));
                        let (i2, k2) = choose|i2: int, k2: int|
                            0 <= i2 < asks_mid.len() && 0 <= k2 < asks_mid[i2].orders@.len() && !(
                            i2 == 0 && k2 == 0) && (#[trigger] asks_mid[i2].orders@[k2]) == o2;
                        assert(order_tracked(o2, orders_before, book.symbol@));
                        assert(o2.id != sell.id) by {
                            assert(asks_mid[0].orders@[0].id == sell.id);
                        };
                        assert(o2.id != buy.id) by {
                            assert(side_has_id(asks_mid, o2.id));
                            assert(side_has_id(bids_mid, buy.id)) by {
                                assert(bids_mid[0].orders@[0].id == buy.id);
                            };
                        };
                        assert(orders@[o2.id - 1] == orders_before[o2.id - 1]);
                    }
                };
            };
            assert(side_order_count(book.bids@) + side_order_count(book.asks@) < side_order_count(
                bids_mid,
            ) + side_order_count(asks_mid));
            crate::book::lemma_side_order_count_nonneg(book.bids@);
            crate::book::lemma_side_order_count_nonneg(book.asks@);
            assert forall|i: int|
                0 <= i < n0 && !old(book).has_order_id((i + 1) as u128) implies orders@[i] == old(orders)@[i] by {
                if i == bidx as int {
                    assert(side_has_id(book_before.bids@, buy.id)) by {
                        assert(book_before.bids@[0].orders@[0].id == buy.id);
                    };
                    assert(book_before.has_order_id(buy.id));
                    assert(false);
                } else if i == sidx as int {
                    assert(side_has_id(book_before.asks@, sell.id)) by {
                        assert(book_before.asks@[0].orders@[0].id == sell.id);
                    };
                    assert(book_before.has_order_id(sell.id));
                    assert(false);
                } else {
                    assert(orders@[i] == orders_before[i]);
                }
            };
            assert forall|ti: int|
                t0.len() <= ti < trades@.len() implies (#[trigger] trades@[ti]).symbol@ == old(book).symbol@ by {
                if ti < trades@.len() - 1 {
                    assert(trades@[ti] == trades_before[ti]);
                } else {
                    assert(trades@[ti] == t);
                }
            };
            // each trade carries the earlier-created order's price
            assert(price_key(buy) == bid_price);
            assert(price_key(sell) == ask_price);
            assert forall|ti: int|
                t0.len() <= ti < trades@.len() implies crossing_priced(
                #[trigger] trades@[ti],
                orders@,
            ) by {
                if ti < trades@.len() - 1 {
                    assert(trades@[ti] == trades_before[ti]);
                    assert(crossing_priced(trades_before[ti], orders_before));
                    let bi = trades@[ti].buy_order_id - 1;
                    let si = trades@[ti].sell_order_id - 1;
                    assert(same_core(orders@[bi], orders_before[bi]));
                    assert(same_core(orders@[si], orders_before[si]));
                    assert(price_key(orders@[bi]) == price_key(orders_before[bi]));
                    assert(price_key(orders@[si]) == price_key(orders_before[si]));
                } else {
                    assert(trades@[ti] == t);
                    assert(orders@[t.buy_order_id - 1] == buy);
                    assert(orders@[t.sell_order_id - 1] == sell);
                }
            };
            assert forall|i: int|
                0 <= i < n0 && orders@[i] != old(orders)@[i] implies (#[trigger] orders@[i]).status
                == (if orders@[i].remaining_quantity == 0 {
                OrderStatus::Filled
            } else {
                OrderStatus::Partial
            }) by {
                if i != bidx as int && i != sidx as int {
                    assert(orders@[i] == orders_before[i]);
                }
            };
        }
    }
}


/// The levels a `side` order matches against.
pub open spec fn opposing_levels(b: OrderBook, side: OrderSide) -> Seq<PriceLevel> {
    match side {
        OrderSide::Buy => b.asks@,
        OrderSide::Sell => b.bids@,
    }
}


/// Whether an order keyed at `key` would cross the book on arrival:
/// a buy at or above the best ask, or a sell at or below the best bid.
pub open spec fn would_cross(b: OrderBook, side: OrderSide, key: u64) -> bool {
    match side {
        OrderSide::Buy => b.asks@.len() > 0 && b.asks@[0].price <= key,
        OrderSide::Sell => b.bids@.len() > 0 && b.bids@[0].price >= key,
    }
}

/// An engine whose book at `bi` was replaced by a well-run book under
/// the same symbol, with index changes confined to that book's own
/// orders (plus newly issued ids), is well-formed.
proof fn lemma_books_updated(a: DEXEngine, b: DEXEngine, bi: int, nb: OrderBook)
    requires
        a.wf(),
        0 <= bi < a.spec_books().len(),
        b.spec_books() == a.spec_books().update(bi, nb),
        nb.wf(),
        !nb.crossed(),
        nb.symbol == a.spec_books()[bi].symbol,
        book_tracked(nb, b.spec_orders()),
        index_ok(b.spec_orders()),
        sums_ok(b.spec_orders(), b.spec_trades()),
        trade_ids_bounded(b.spec_trades(), b.spec_orders().len() as int),
        a.spec_orders().len() <= b.spec_orders().len(),
        forall|i: int|
            0 <= i < a.spec_orders().len() ==> b.spec_orders()[i] == a.spec_orders()[i] || (
            #[trigger] a.spec_orders()[i]).symbol@ == nb.symbol@,
    ensures
        b.wf(),
        forall|sym: Seq<char>| #[trigger] b.has_symbol(sym) == a.has_symbol(sym),
{
    assert forall|j: int| 0 <= j < b.spec_books().len() implies (#[trigger] b.spec_books()[j]).wf()
        && !b.spec_books()[j].crossed() && book_tracked(b.spec_books()[j], b.spec_orders()) by {
        if j != bi {
            assert(b.spec_books()[j] == a.spec_books()[j]);
            let bk = a.spec_books()[j];
            assert(bk.symbol@ != nb.symbol@) by {
                assert(a.spec_books()[bi].symbol@ == nb.symbol@);
            };
            assert(book_tracked(bk, b.spec_orders())) by {
                assert forall|i: int, k: int|
                    0 <= i < bk.bids@.len() && 0 <= k < bk.bids@[i].orders@.len() implies order_tracked(
                    #[trigger] bk.bids@[i].orders@[k],
                    b.spec_orders(),
                    bk.symbol@,
                ) by {
                    let o = bk.bids@[i].orders@[k];
                    assert(order_tracked(o, a.spec_orders(), bk.symbol@));
                    assert(b.spec_orders()[o.id - 1] == a.spec_orders()[o.id - 1]);
                };
                assert forall|i: int, k: int|
                    0 <= i < bk.asks@.len() && 0 <= k < bk.asks@[i].orders@.len() implies order_tracked(
                    #[trigger] bk.asks@[i].orders@[k],
                    b.spec_orders(),
                    bk.symbol@,
                ) by {
                    let o = bk.asks@[i].orders@[k];
                    assert(order_tracked(o, a.spec_orders(), bk.symbol@));
                    assert(b.spec_orders()[o.id - 1] == a.spec_orders()[o.id - 1]);
                };
            };
        }
    };
    assert forall|j: int, j2: int| 0 <= j < j2 < b.spec_books().len() implies (
    #[trigger] b.spec_books()[j]).symbol@ != (#[trigger] b.spec_books()[j2]).symbol@ by {
        assert(b.spec_books()[j].symbol@ == a.spec_books()[j].symbol@);
        assert(b.spec_books()[j2].symbol@ == a.spec_books()[j2].symbol@);
    };
    assert forall|sym: Seq<char>| #[trigger] b.has_symbol(sym) == a.has_symbol(sym) by {
        if a.has_symbol(sym) {
            let j = choose|j: int|
                0 <= j < a.spec_books().len() && (#[trigger] a.spec_books()[j]).symbol@ == sym;
            assert(b.spec_books()[j].symbol@ == sym);
        }
        if b.has_symbol(sym) {
            let j = choose|j: int|
                0 <= j < b.spec_books().len() && (#[trigger] b.spec_books()[j]).symbol@ == sym;
            assert(a.spec_books()[j].symbol@ == sym);
        }
    };
}

/// Routes a market order to the sweep of the opposing side.
fn process_market_order(
    book: &mut OrderBook,
    orders: &mut Vec<Order>,
    trades: &mut Vec<Trade>,
    ledger: &mut Ledger,
    incoming: &mut Order,
)
    requires
        old(incoming).wf(),
        old(incoming).id == old(orders)@.len() + 1,
        index_ok(old(orders)@),
        sums_ok(old(orders)@, old(trades)@),
        trade_ids_bounded(old(trades)@, old(orders)@.len() as int + 1),
        fill_sum(old(trades)@, old(incoming).side, old(incoming).id) == old(incoming).filled_quantity,
        old(book).wf(),
        !old(book).crossed(),
        book_tracked(*old(book), old(orders)@),
        old(incoming).symbol@ == old(book).symbol@,
    ensures
        final(book).wf(),
        !final(book).crossed(),
        book_tracked(*final(book), final(orders)@),
        final(book).symbol == old(book).symbol,
        side_swept(
            opposing_levels(*old(book), old(incoming).side),
            opposing_levels(*final(book), old(incoming).side),
        ),
        forall|id: u128| #[trigger] final(book).has_order_id(id) ==> old(book).has_order_id(id),
        final(orders)@.len() == old(orders)@.len(),
        index_ok(final(orders)@),
        sums_ok(final(orders)@, final(trades)@),
        trade_ids_bounded(final(trades)@, old(orders)@.len() as int + 1),
        same_core(*final(incoming), *old(incoming)),
        final(incoming).wf(),
        fill_sum(final(trades)@, old(incoming).side, old(incoming).id) == final(incoming).filled_quantity,
        final(incoming).filled_quantity - old(incoming).filled_quantity == vstd::math::min(
            old(incoming).remaining_quantity as int,
            side_total(opposing_levels(*old(book), old(incoming).side)),
        ),
        final(incoming).status == (if final(incoming).remaining_quantity > 0 {
            OrderStatus::Partial
        } else if old(incoming).remaining_quantity > 0 {
            OrderStatus::Filled
        } else {
            old(incoming).status
        }),
        forall|i: int|
            0 <= i < old(orders)@.len() ==> same_core(
                #[trigger] final(orders)@[i],
                old(orders)@[i],
            ),
        forall|i: int|
            0 <= i < old(orders)@.len() && final(orders)@[i] != old(orders)@[i] ==> old(orders)@[i].symbol@
                == old(book).symbol@,
        final(trades)@.len() >= old(trades)@.len(),
        final(trades)@.subrange(0, old(trades)@.len() as int) == old(trades)@,
        forall|t: int|
            old(trades)@.len() <= t < final(trades)@.len() ==> trade_for(
                #[trigger] final(trades)@[t],
                *old(incoming),
            ),
        forall|t: int|
            old(trades)@.len() <= t < final(trades)@.len() ==> is_level_price(
                opposing_levels(*old(book), old(incoming).side),
                (#[trigger] final(trades)@[t]).price,
            ),
        forall|ti: int, tj: int|
            old(trades)@.len() <= ti < tj < final(trades)@.len() ==> (old(incoming).side
                == OrderSide::Buy ==> (#[trigger] final(trades)@[ti]).price <= (
            #[trigger] final(trades)@[tj]).price) && (old(incoming).side == OrderSide::Sell ==> (
            #[trigger] final(trades)@[ti]).price >= (#[trigger] final(trades)@[tj]).price),
{
    let ghost b0 = *old(book);
    match incoming.side {
        OrderSide::Buy => {
            match_market_buy_order(book, orders, trades, ledger, incoming);
            proof {
                lemma_swept_side_facts(b0.asks@, book.asks@, OrderSide::Sell);
                assert forall|id: u128| #[trigger] book.has_order_id(id) implies b0.has_order_id(
                    id,
                ) by {
                    if side_has_id(book.asks@, id) {
                        assert(side_has_id(b0.asks@, id));
                    }
                };
                assert forall|i: int|
                    0 <= i < old(orders)@.len() && orders@[i] != old(orders)@[i] implies old(orders)@[i].symbol@ == b0.symbol@ by {
                    assert(side_has_id(b0.asks@, (i + 1) as u128));
                    let (x, y) = choose|x: int, y: int|
                        0 <= x < b0.asks@.len() && 0 <= y < b0.asks@[x].orders@.len() && (
                        #[trigger] b0.asks@[x].orders@[y]).id == (i + 1) as u128;
                    assert(order_tracked(b0.asks@[x].orders@[y], old(orders)@, b0.symbol@));
                };
            }
        },
        OrderSide::Sell => {
            match_market_sell_order(book, orders, trades, ledger, incoming);
            proof {
                lemma_swept_side_facts(b0.bids@, book.bids@, OrderSide::Buy);
                assert forall|id: u128| #[trigger] book.has_order_id(id) implies b0.has_order_id(
                    id,
                ) by {
                    if side_has_id(book.bids@, id) {
                        assert(side_has_id(b0.bids@, id));
                    }
                };
                assert forall|i: int|
                    0 <= i < old(orders)@.len() && orders@[i] != old(orders)@[i] implies old(orders)@[i].symbol@ == b0.symbol@ by {
                    assert(side_has_id(b0.bids@, (i + 1) as u128));
                    let (x, y) = choose|x: int, y: int|
                        0 <= x < b0.bids@.len() && 0 <= y < b0.bids@[x].orders@.len() && (
                        #[trigger] b0.bids@[x].orders@[y]).id == (i + 1) as u128;
                    assert(order_tracked(b0.bids@[x].orders@[y], old(orders)@, b0.symbol@));
                };
            }
        },
    }
}


impl DEXEngine {
    /// Checks the order parameters against the order type: limit orders
    /// need a positive price, stop orders a positive stop price,
    /// stop-limit orders both, and market orders neither.
    fn validate_order(
        &self,
        order_type: &OrderType,
        price: Option<u64>,
        stop_price: Option<u64>,
    ) -> (r: Result<(), EngineError>)
        ensures
            r is Ok <==> params_valid(*order_type, price, stop_price),
            r is Err ==> r == Result::<(), EngineError>::Err(EngineError::InvalidOrderParameters),
    {
        match order_type {
            OrderType::Limit => {
                match price {
                    Some(p) => {
                        if p > 0 {
                            Ok(())
                        } else {
                            Err(EngineError::InvalidOrderParameters)
                        }
                    },
                    None => Err(EngineError::InvalidOrderParameters),
                }
            },
            OrderType::Stop => {
                match stop_price {
                    Some(p) => {
                        if p > 0 {
                            Ok(())
                        } else {
                            Err(EngineError::InvalidOrderParameters)
                        }
                    },
                    None => Err(EngineError::InvalidOrderParameters),
                }
            },
            OrderType::StopLimit => {
                match (price, stop_price) {
                    (Some(p), Some(sp)) => {
                        if p > 0 && sp > 0 {
                            Ok(())
                        } else {
                            Err(EngineError::InvalidOrderParameters)
                        }
                    },
                    _ => Err(EngineError::InvalidOrderParameters),
                }
            },
            OrderType::Market => Ok(()),
        }
    }

    /// Validates and routes one incoming order under price-time
    /// priority. Market orders sweep the opposing side immediately for
    /// exactly `min(quantity, resting contra-quantity)` and never rest.
    /// Other orders are queued into the book and the crossing loop then
    /// matches them while the best bid is at or above the best ask, so
    /// no crossed book survives the call. A stop order without a limit
    /// price is keyed at price zero and is therefore immediately
    /// marketable when it arrives as a sell against resting bids. Every
    /// rejection leaves the engine exactly as it was.
    #[verifier::rlimit(100)]
    pub fn place_order(
        &mut self,
        trader: String,
        symbol: String,
        side: OrderSide,
        order_type: OrderType,
        quantity: u64,
        price: Option<u64>,
        stop_price: Option<u64>,
        time_in_force: TimeInForce,
        expire_at: Option<i64>,
    ) -> (r: Result<u128, EngineError>)
        requires
            old(self).wf(),
        ensures
            final(self).wf(),
            r == Result::<u128, EngineError>::Err(EngineError::SymbolNotSupported) <==> !old(self).has_symbol(symbol@),
            r == Result::<u128, EngineError>::Err(EngineError::InvalidOrderParameters) <==> old(self).has_symbol(symbol@) && !params_valid(order_type, price, stop_price),
            r == Result::<u128, EngineError>::Err(EngineError::InsufficientBalance) <==> old(self).has_symbol(symbol@) && params_valid(order_type, price, stop_price) && side
                == OrderSide::Sell && old(self).balances()[(trader@, base_of(symbol@))] < quantity,
            r is Err ==> *final(self) == *old(self),
            r is Ok <==> old(self).has_symbol(symbol@) && params_valid(
                order_type,
                price,
                stop_price,
            ) && !(side == OrderSide::Sell && old(self).balances()[(trader@, base_of(symbol@))]
                < quantity),
            r is Ok ==> r == Result::<u128, EngineError>::Ok(
                (old(self).spec_orders().len() + 1) as u128,
            ),
            r is Ok ==> final(self).spec_orders().len() == old(self).spec_orders().len() + 1,
            r is Ok ==> ({
                let o = final(self).spec_orders().last();
                &&& o.id == old(self).spec_orders().len() + 1
                &&& o.trader@ == trader@
                &&& o.symbol@ == symbol@
                &&& o.side == side
                &&& o.order_type == order_type
                &&& o.quantity == quantity
                &&& o.price == price
                &&& o.stop_price == stop_price
                &&& o.time_in_force == time_in_force
                &&& o.expire_at == expire_at
                &&& o.wf()
            }),
            r is Ok ==> (forall|i: int|
                0 <= i < old(self).spec_orders().len() ==> same_core(
                    #[trigger] final(self).spec_orders()[i],
                    old(self).spec_orders()[i],
                )),
            r is Ok ==> final(self).spec_trades().len() >= old(self).spec_trades().len() && final(self).spec_trades().subrange(0, old(self).spec_trades().len() as int) == old(self).spec_trades(),
            r is Ok && order_type == OrderType::Market ==> ({
                let o = final(self).spec_orders().last();
                let opposing = opposing_levels(
                    old(self).spec_books()[choose|b: int|
                        0 <= b < old(self).spec_books().len() && (#[trigger] old(self).spec_books()[b]).symbol@ == symbol@],
                    side,
                );
                &&& o.filled_quantity == vstd::math::min(quantity as int, side_total(opposing))
                &&& (forall|b: int|
                    0 <= b < final(self).spec_books().len() ==> !(#[trigger] final(self).spec_books()[b]).has_order_id(o.id))
                &&& o.status == (if o.remaining_quantity > 0 {
                    OrderStatus::Partial
                } else if quantity > 0 {
                    OrderStatus::Filled
                } else {
                    OrderStatus::Pending
                })
                &&& (forall|t: int|
                    old(self).spec_trades().len() <= t < final(self).spec_trades().len()
                        ==> is_level_price(
                        opposing,
                        (#[trigger] final(self).spec_trades()[t]).price,
                    ))
                &&& (forall|ti: int, tj: int|
                    old(self).spec_trades().len() <= ti < tj < final(self).spec_trades().len()
                        ==> (side == OrderSide::Buy ==> (#[trigger] final(self).spec_trades()[ti]).price <= (#[trigger] final(self).spec_trades()[tj]).price)
                        && (side == OrderSide::Sell ==> (#[trigger] final(self).spec_trades()[ti]).price >= (#[trigger] final(self).spec_trades()[tj]).price))
                &&& (forall|t: int|
                    old(self).spec_trades().len() <= t < final(self).spec_trades().len() ==> (
                    #[trigger] final(self).spec_trades()[t]).symbol@ == symbol@ && (side
                        == OrderSide::Buy ==> final(self).spec_trades()[t].buy_order_id == o.id)
                        && (side == OrderSide::Sell ==> final(self).spec_trades()[t].sell_order_id
                        == o.id))
            }),
            r is Ok && order_type != OrderType::Market ==> ({
                let o = final(self).spec_orders().last();
                (o.status == OrderStatus::Pending && o.filled_quantity == 0
                    && o.remaining_quantity == quantity) || o.status == (
                if o.remaining_quantity == 0 {
                    OrderStatus::Filled
                } else {
                    OrderStatus::Partial
                })
            }),
            r is Ok && order_type != OrderType::Market ==> (forall|t: int|
                old(self).spec_trades().len() <= t < final(self).spec_trades().len()
                    ==> crossing_priced(
                    #[trigger] final(self).spec_trades()[t],
                    final(self).spec_orders(),
                )),
            r is Ok && order_type != OrderType::Market ==> (forall|bb: int|
                0 <= bb < old(self).spec_books().len() && (#[trigger] old(self).spec_books()[bb]).symbol@ == symbol@ && !would_cross(
                    old(self).spec_books()[bb],
                    side,
                    price_key(final(self).spec_orders().last()),
                ) ==> ({
                    let o = final(self).spec_orders().last();
                    &&& o.status == OrderStatus::Pending
                    &&& o.filled_quantity == 0
                    &&& o.remaining_quantity == quantity
                    &&& final(self).spec_trades() == old(self).spec_trades()
                    &&& final(self).balances() == old(self).balances()
                    &&& bb < final(self).spec_books().len()
                    &&& final(self).spec_books()[bb].symbol == old(self).spec_books()[bb].symbol
                    &&& (side == OrderSide::Buy ==> side_inserted(
                        old(self).spec_books()[bb].bids@,
                        final(self).spec_books()[bb].bids@,
                        o,
                    ) && final(self).spec_books()[bb].asks == old(self).spec_books()[bb].asks)
                    &&& (side == OrderSide::Sell ==> side_inserted(
                        old(self).spec_books()[bb].asks@,
                        final(self).spec_books()[bb].asks@,
                        o,
                    ) && final(self).spec_books()[bb].bids == old(self).spec_books()[bb].bids)
                })),
    {
        let found = self.find_book(symbol.as_str());
        let b = match found {
            Some(b) => b,
            None => {
                return Err(EngineError::SymbolNotSupported);
            },
        };
        if let Err(e) = self.validate_order(&order_type, price, stop_price) {
            return Err(e);
        }
        if side == OrderSide::Sell {
            let base = base_currency(symbol.as_str());
            let balance = self.ledger.get(trader.as_str(), base.as_str());
            if balance < quantity as u128 {
                return Err(EngineError::InsufficientBalance);
            }
        }
        let ghost n0 = self.orders@.len() as int;
        let on = self.orders.len();
        let id = (on as u128) + 1;
        let mut order = Order::new(
            id,
            trader,
            symbol.clone(),
            side,
            order_type,
            quantity,
            price,
            stop_price,
            time_in_force,
            expire_at,
        );
        proof {
            assert(self.spec_books()[b as int].symbol@ == symbol@);
            lemma_fill_sum_fresh(self.trades@, n0, side, id);
        }
        if order_type == OrderType::Market {
            let ghost books0 = self.order_books@;
            let mut book = self.order_books.remove(b);
            let ghost b0 = book;
            process_market_order(
                &mut book,
                &mut self.orders,
                &mut self.trades,
                &mut self.ledger,
                &mut order,
            );
            let ghost book1 = book;
            let ghost orders_mid = self.orders@;
            self.order_books.insert(b, book);
            let ghost inc = order;
            self.orders.push(order);
            proof {
                assert(self.order_books@ =~= books0.update(b as int, book1));
                assert(self.orders@.drop_last() =~= orders_mid);
                assert forall|i: int|
                    0 <= i < n0 && self.orders@[i] != old(self).spec_orders()[i] implies (
                #[trigger] old(self).spec_orders()[i]).symbol@ == book1.symbol@ by {
                    assert(self.orders@[i] == orders_mid[i]);
                };
                assert(index_ok(self.orders@)) by {
                    assert forall|i: int|
                        0 <= i < self.orders@.len() implies (#[trigger] self.orders@[i]).id == i
                        + 1 && self.orders@[i].wf() by {
                        if i < n0 {
                            assert(self.orders@[i] == self.orders@.drop_last()[i]);
                        } else {
                            assert(self.orders@[i] == inc);
                        }
                    };
                };
                assert(sums_ok(self.orders@, self.trades@)) by {
                    assert forall|i: int|
                        0 <= i < self.orders@.len() implies (
                    #[trigger] self.orders@[i]).filled_quantity == fill_sum(
                        self.trades@,
                        self.orders@[i].side,
                        self.orders@[i].id,
                    ) by {
                        if i < n0 {
                            assert(self.orders@[i] == self.orders@.drop_last()[i]);
                        } else {
                            assert(self.orders@[i] == inc);
                        }
                    };
                };
                assert(book_tracked(book1, self.orders@)) by {
                    assert forall|i: int, k: int|
                        0 <= i < book1.bids@.len() && 0 <= k < book1.bids@[i].orders@.len() implies order_tracked(
                        #[trigger] book1.bids@[i].orders@[k],
                        self.orders@,
                        book1.symbol@,
                    ) by {
                        let o = book1.bids@[i].orders@[k];
                        assert(order_tracked(o, self.orders@.drop_last(), book1.symbol@));
                        assert(self.orders@[o.id - 1] == self.orders@.drop_last()[o.id - 1]);
                    };
                    assert forall|i: int, k: int|
                        0 <= i < book1.asks@.len() && 0 <= k < book1.asks@[i].orders@.len() implies order_tracked(
                        #[trigger] book1.asks@[i].orders@[k],
                        self.orders@,
                        book1.symbol@,
                    ) by {
                        let o = book1.asks@[i].orders@[k];
                        assert(order_tracked(o, self.orders@.drop_last(), book1.symbol@));
                        assert(self.orders@[o.id - 1] == self.orders@.drop_last()[o.id - 1]);
                    };
                };
                lemma_books_updated(*old(self), *self, b as int, book1);
                assert(!book1.has_order_id(id)) by {
                    if book1.has_order_id(id) {
                        assert(b0.has_order_id(id));
                        if side_has_id(b0.bids@, id) {
                            let (x, y) = choose|x: int, y: int|
                                0 <= x < b0.bids@.len() && 0 <= y < b0.bids@[x].orders@.len() && (
                                #[trigger] b0.bids@[x].orders@[y]).id == id;
                            assert(order_tracked(b0.bids@[x].orders@[y], old(self).spec_orders(), b0.symbol@));
                            assert(false);
                        } else {
                            let (x, y) = choose|x: int, y: int|
                                0 <= x < b0.asks@.len() && 0 <= y < b0.asks@[x].orders@.len() && (
                                #[trigger] b0.asks@[x].orders@[y]).id == id;
                            assert(order_tracked(b0.asks@[x].orders@[y], old(self).spec_orders(), b0.symbol@));
                            assert(false);
                        }
                    }
                };
                assert forall|bb: int|
                    0 <= bb < self.spec_books().len() implies !(#[trigger] self.spec_books()[bb]).has_order_id(
                    id,
                ) by {
                    if bb == b as int {
                        assert(self.spec_books()[bb] == book1);
                    } else {
                        assert(self.spec_books()[bb] == old(self).spec_books()[bb]);
                        if self.spec_books()[bb].has_order_id(id) {
                            let bk = old(self).spec_books()[bb];
                            if side_has_id(bk.bids@, id) {
                                let (x, y) = choose|x: int, y: int|
                                    0 <= x < bk.bids@.len() && 0 <= y < bk.bids@[x].orders@.len()
                                        && (#[trigger] bk.bids@[x].orders@[y]).id == id;
                                assert(order_tracked(bk.bids@[x].orders@[y], old(self).spec_orders(), bk.symbol@));
                                assert(false);
                            } else {
                                let (x, y) = choose|x: int, y: int|
                                    0 <= x < bk.asks@.len() && 0 <= y < bk.asks@[x].orders@.len()
                                        && (#[trigger] bk.asks@[x].orders@[y]).id == id;
                                assert(order_tracked(bk.asks@[x].orders@[y], old(self).spec_orders(), bk.symbol@));
                                assert(false);
                            }
                        }
                    }
                };
                assert(self.spec_orders().last() == inc);
                assert(opposing_levels(b0, side) == opposing_levels(
                    old(self).spec_books()[choose|bb: int|
                        0 <= bb < old(self).spec_books().len() && (#[trigger] old(self).spec_books()[bb]).symbol@ == symbol@],
                    side,
                )) by {
                    let bb = choose|bb: int|
                        0 <= bb < old(self).spec_books().len() && (#[trigger] old(self).spec_books()[bb]).symbol@ == symbol@;
                    if bb != b as int {
                        assert(old(self).spec_books()[bb].symbol@ != old(self).spec_books()[b as int].symbol@);
                        assert(false);
                    }
                };
            }
            Ok(id)
        } else {
            self.orders.push(order.clone());
            let ghost inc = order;
            let ghost books0 = self.order_books@;
            let mut book = self.order_books.remove(b);
            let ghost b0 = book;
            proof {
                assert(self.orders@.drop_last() =~= old(self).spec_orders());
                assert(index_ok(self.orders@)) by {
                    assert forall|i: int|
                        0 <= i < self.orders@.len() implies (#[trigger] self.orders@[i]).id == i
                        + 1 && self.orders@[i].wf() by {
                        if i < n0 {
                            assert(self.orders@[i] == self.orders@.drop_last()[i]);
                        } else {
                            assert(self.orders@[i] == inc);
                        }
                    };
                };
                assert(sums_ok(self.orders@, self.trades@)) by {
                    assert forall|i: int|
                        0 <= i < self.orders@.len() implies (
                    #[trigger] self.orders@[i]).filled_quantity == fill_sum(
                        self.trades@,
                        self.orders@[i].side,
                        self.orders@[i].id,
                    ) by {
                        if i < n0 {
                            assert(self.orders@[i] == self.orders@.drop_last()[i]);
                        } else {
                            assert(self.orders@[i] == inc);
                        }
                    };
                };
                assert(!b0.has_order_id(id)) by {
                    if side_has_id(b0.bids@, id) {
                        let (x, y) = choose|x: int, y: int|
                            0 <= x < b0.bids@.len() && 0 <= y < b0.bids@[x].orders@.len() && (
                            #[trigger] b0.bids@[x].orders@[y]).id == id;
                        assert(order_tracked(b0.bids@[x].orders@[y], old(self).spec_orders(), b0.symbol@));
                        assert(false);
                    }
                    if side_has_id(b0.asks@, id) {
                        let (x, y) = choose|x: int, y: int|
                            0 <= x < b0.asks@.len() && 0 <= y < b0.asks@[x].orders@.len() && (
                            #[trigger] b0.asks@[x].orders@[y]).id == id;
                        assert(order_tracked(b0.asks@[x].orders@[y], old(self).spec_orders(), b0.symbol@));
                        assert(false);
                    }
                };
                assert(book_tracked(b0, self.orders@)) by {
                    assert forall|i: int, k: int|
                        0 <= i < b0.bids@.len() && 0 <= k < b0.bids@[i].orders@.len() implies order_tracked(
                        #[trigger] b0.bids@[i].orders@[k],
                        self.orders@,
                        b0.symbol@,
                    ) by {
                        let o = b0.bids@[i].orders@[k];
                        assert(order_tracked(o, old(self).spec_orders(), b0.symbol@));
                        assert(self.orders@[o.id - 1] == self.orders@.drop_last()[o.id - 1]);
                    };
                    assert forall|i: int, k: int|
                        0 <= i < b0.asks@.len() && 0 <= k < b0.asks@[i].orders@.len() implies order_tracked(
                        #[trigger] b0.asks@[i].orders@[k],
                        self.orders@,
                        b0.symbol@,
                    ) by {
                        let o = b0.asks@[i].orders@[k];
                        assert(order_tracked(o, old(self).spec_orders(), b0.symbol@));
                        assert(self.orders@[o.id - 1] == self.orders@.drop_last()[o.id - 1]);
                    };
                };
            }
            book.add_order(order);
            proof {
                assert(book_tracked(book, self.orders@)) by {
                    assert(self.orders@[id - 1] == inc);
                    assert forall|i: int, k: int|
                        0 <= i < book.bids@.len() && 0 <= k < book.bids@[i].orders@.len() implies order_tracked(
                        #[trigger] book.bids@[i].orders@[k],
                        self.orders@,
                        book.symbol@,
                    ) by {
                        let o = book.bids@[i].orders@[k];
                        if o == inc {
                        } else {
                            assert(crate::book::order_on_side(b0.bids@, o) || o == inc) by {
                                if side == OrderSide::Buy {
                                    crate::book::lemma_inserted_membership(b0.bids@, book.bids@, inc);
                                } else {
                                    assert(book.bids@ == b0.bids@);
                                }
                            };
                            let (x, y) = choose|x: int, y: int|
                                0 <= x < b0.bids@.len() && 0 <= y < b0.bids@[x].orders@.len() && (
                                #[trigger] b0.bids@[x].orders@[y]) == o;
                            assert(order_tracked(o, self.orders@, b0.symbol@));
                        }
                    };
                    assert forall|i: int, k: int|
                        0 <= i < book.asks@.len() && 0 <= k < book.asks@[i].orders@.len() implies order_tracked(
                        #[trigger] book.asks@[i].orders@[k],
                        self.orders@,
                        book.symbol@,
                    ) by {
                        let o = book.asks@[i].orders@[k];
                        if o == inc {
                        } else {
                            assert(crate::book::order_on_side(b0.asks@, o) || o == inc) by {
                                if side == OrderSide::Sell {
                                    crate::book::lemma_inserted_membership(b0.asks@, book.asks@, inc);
                                } else {
                                    assert(book.asks@ == b0.asks@);
                                }
                            };
                            let (x, y) = choose|x: int, y: int|
                                0 <= x < b0.asks@.len() && 0 <= y < b0.asks@[x].orders@.len() && (
                                #[trigger] b0.asks@[x].orders@[y]) == o;
                            assert(order_tracked(o, self.orders@, b0.symbol@));
                        }
                    };
                };
            }
            let ghost book_mid = book;
            let ghost orders_mid = self.orders@;
            let ghost trades_mid = self.trades@;
            proof {
                assert(trade_ids_bounded(self.trades@, self.orders@.len() as int));
            }
            cross_book(&mut book, &mut self.orders, &mut self.trades, &mut self.ledger);
            let ghost book1 = book;
            self.order_books.insert(b, book);
            proof {
                assert(self.order_books@ =~= books0.update(b as int, book1));
                assert(self.spec_trades().subrange(0, old(self).spec_trades().len() as int) =~= old(self).spec_trades()) by {
                    assert(trades_mid == self.trades@.subrange(0, trades_mid.len() as int));
                    assert(forall|i: int|
                        0 <= i < trades_mid.len() ==> self.trades@.subrange(
                            0,
                            trades_mid.len() as int,
                        )[i] == self.trades@[i]);
                };
                assert forall|i: int|
                    0 <= i < n0 && self.orders@[i] != old(self).spec_orders()[i] implies (
                #[trigger] old(self).spec_orders()[i]).symbol@ == book1.symbol@ by {
                    assert(orders_mid[i] == old(self).spec_orders()[i]);
                    assert(book_mid.has_order_id((i + 1) as u128));
                    assert((i + 1) as u128 != id);
                    assert(b0.has_order_id((i + 1) as u128));
                    if side_has_id(b0.bids@, (i + 1) as u128) {
                        let (x, y) = choose|x: int, y: int|
                            0 <= x < b0.bids@.len() && 0 <= y < b0.bids@[x].orders@.len() && (
                            #[trigger] b0.bids@[x].orders@[y]).id == (i + 1) as u128;
                        assert(order_tracked(b0.bids@[x].orders@[y], old(self).spec_orders(), b0.symbol@));
                    } else {
                        let (x, y) = choose|x: int, y: int|
                            0 <= x < b0.asks@.len() && 0 <= y < b0.asks@[x].orders@.len() && (
                            #[trigger] b0.asks@[x].orders@[y]).id == (i + 1) as u128;
                        assert(order_tracked(b0.asks@[x].orders@[y], old(self).spec_orders(), b0.symbol@));
                    }
                };
                lemma_books_updated(*old(self), *self, b as int, book1);
                assert(self.spec_orders().last().id == id) by {
                    assert(index_ok(self.spec_orders()));
                };
                assert(same_core(self.spec_orders()[n0], orders_mid[n0]));
                assert(orders_mid[n0] == inc);
                // status of the new order after the synchronous crossing
                assert(({
                    let o = self.spec_orders().last();
                    (o.status == OrderStatus::Pending && o.filled_quantity == 0
                        && o.remaining_quantity == quantity) || o.status == (
                    if o.remaining_quantity == 0 {
                        OrderStatus::Filled
                    } else {
                        OrderStatus::Partial
                    })
                })) by {
                    if self.orders@[n0] == orders_mid[n0] {
                        assert(orders_mid[n0] == inc);
                    }
                };
                // a non-crossing insert simply rests in the book
                assert forall|bb: int|
                    0 <= bb < old(self).spec_books().len() && (#[trigger] old(self).spec_books()[bb]).symbol@ == symbol@ && !would_cross(
                        old(self).spec_books()[bb],
                        side,
                        price_key(self.spec_orders().last()),
                    ) implies ({
                    let o = self.spec_orders().last();
                    &&& o.status == OrderStatus::Pending
                    &&& o.filled_quantity == 0
                    &&& o.remaining_quantity == quantity
                    &&& self.spec_trades() == old(self).spec_trades()
                    &&& self.balances() == old(self).balances()
                    &&& bb < self.spec_books().len()
                    &&& self.spec_books()[bb].symbol == old(self).spec_books()[bb].symbol
                    &&& (side == OrderSide::Buy ==> side_inserted(
                        old(self).spec_books()[bb].bids@,
                        self.spec_books()[bb].bids@,
                        o,
                    ) && self.spec_books()[bb].asks == old(self).spec_books()[bb].asks)
                    &&& (side == OrderSide::Sell ==> side_inserted(
                        old(self).spec_books()[bb].asks@,
                        self.spec_books()[bb].asks@,
                        o,
                    ) && self.spec_books()[bb].bids == old(self).spec_books()[bb].bids)
                }) by {
                    if bb != b as int {
                        assert(old(self).spec_books()[bb].symbol@ != old(self).spec_books()[b as int].symbol@);
                        assert(false);
                    }
                    assert(old(self).spec_books()[bb] == b0);
                    assert(price_key(self.spec_orders().last()) == price_key(inc));
                    assert(!would_cross(b0, side, price_key(inc)));
                    assert(!book_mid.crossed()) by {
                        match side {
                            OrderSide::Buy => {
                                assert(book_mid.asks == b0.asks);
                                crate::book::lemma_inserted_head(b0.bids@, book_mid.bids@, inc);
                                if book_mid.crossed() {
                                    if book_mid.bids@[0].price == price_key(inc) {
                                        assert(would_cross(b0, side, price_key(inc)));
                                        assert(false);
                                    } else {
                                        assert(book_mid.bids@[0].price == b0.bids@[0].price);
                                        assert(b0.crossed());
                                        assert(false);
                                    }
                                }
                            },
                            OrderSide::Sell => {
                                assert(book_mid.bids == b0.bids);
                                crate::book::lemma_inserted_head(b0.asks@, book_mid.asks@, inc);
                                if book_mid.crossed() {
                                    if book_mid.asks@[0].price == price_key(inc) {
                                        assert(would_cross(b0, side, price_key(inc)));
                                        assert(false);
                                    } else {
                                        assert(book_mid.asks@[0].price == b0.asks@[0].price);
                                        assert(b0.crossed());
                                        assert(false);
                                    }
                                }
                            },
                        }
                    };
                    assert(book1 == book_mid);
                    assert(self.orders@ == orders_mid);
                    assert(self.spec_orders().last() == inc);
                    assert(self.spec_books()[bb] == book1);
                    assert(self.spec_trades() =~= old(self).spec_trades());
                    assert(self.balances() == old(self).balances());
                };
            }
            Ok(id)
        }
    }
}


impl DEXEngine {
    /// Removes the order at index `idx` from its book, if it rests
    /// there, and overwrites its status; used by cancellation and the
    /// expiry sweep. Balances and trades are untouched.
    #[verifier::rlimit(100)]
    fn remove_from_book_and_set_status(&mut self, idx: usize, status: OrderStatus, touch_updated: bool)
        requires
            old(self).wf(),
            idx < old(self).spec_orders().len(),
        ensures
            final(self).wf(),
            final(self).spec_books().len() == old(self).spec_books().len(),
            forall|bb: int|
                0 <= bb < old(self).spec_books().len() ==> (#[trigger] final(self).spec_books()[bb]).symbol
                    == old(self).spec_books()[bb].symbol,
            forall|bb: int|
                0 <= bb < old(self).spec_books().len() ==> !(#[trigger] final(self).spec_books()[bb]).has_order_id(
                    (idx + 1) as u128,
                ),
            forall|bb: int, id: u128|
                0 <= bb < old(self).spec_books().len() && id != (idx + 1) as u128 ==> (
                #[trigger] final(self).spec_books()[bb].has_order_id(id)) == old(self).spec_books()[bb].has_order_id(id),
            final(self).spec_orders().len() == old(self).spec_orders().len(),
            ({
                let o = final(self).spec_orders()[idx as int];
                let o0 = old(self).spec_orders()[idx as int];
                &&& same_core(o, o0)
                &&& o.filled_quantity == o0.filled_quantity
                &&& o.remaining_quantity == o0.remaining_quantity
                &&& o.status == status
                &&& (!touch_updated ==> o.updated_at == o0.updated_at)
            }),
            forall|i: int|
                0 <= i < old(self).spec_orders().len() && i != idx ==> final(self).spec_orders()[i]
                    == old(self).spec_orders()[i],
            final(self).spec_trades() == old(self).spec_trades(),
            final(self).balances() == old(self).balances(),
            final(self).spec_ledger_entries() == old(self).spec_ledger_entries(),
    {
        let ghost oid = (idx + 1) as u128;
        let symclone = self.orders[idx].symbol.clone();
        let found = self.find_book(symclone.as_str());
        let ghost books0 = self.order_books@;
        match found {
            Some(b) => {
                let mut book = self.order_books.remove(b);
                let ghost b0 = book;
                let _removed = book.remove_order((idx as u128) + 1);
                let ghost book1 = book;
                self.order_books.insert(b, book);
                proof {
                    assert(self.order_books@ =~= books0.update(b as int, book1));
                    assert(book_tracked(book1, old(self).spec_orders())) by {
                        assert forall|i: int, k: int|
                            0 <= i < book1.bids@.len() && 0 <= k < book1.bids@[i].orders@.len() implies order_tracked(
                            #[trigger] book1.bids@[i].orders@[k],
                            old(self).spec_orders(),
                            book1.symbol@,
                        ) by {
                            assert(crate::book::order_on_side(book1.bids@, book1.bids@[i].orders@[k]));
                            assert(crate::book::order_on_side(b0.bids@, book1.bids@[i].orders@[k]));
                        };
                        assert forall|i: int, k: int|
                            0 <= i < book1.asks@.len() && 0 <= k < book1.asks@[i].orders@.len() implies order_tracked(
                            #[trigger] book1.asks@[i].orders@[k],
                            old(self).spec_orders(),
                            book1.symbol@,
                        ) by {
                            assert(crate::book::order_on_side(book1.asks@, book1.asks@[i].orders@[k]));
                            assert(crate::book::order_on_side(b0.asks@, book1.asks@[i].orders@[k]));
                        };
                    };
                    crate::book::lemma_removed_best(b0.bids@, book1.bids@, oid, OrderSide::Buy);
                    crate::book::lemma_removed_best(b0.asks@, book1.asks@, oid, OrderSide::Sell);
                    assert(!book1.crossed());
                }
            },
            None => {},
        }
        let ghost books_mid = self.order_books@;
        let mut o = self.orders[idx].clone();
        o.status = status;
        if touch_updated {
            o.updated_at = crate::clock::now_nanos();
        }
        let ghost onew = o;
        self.orders[idx] = o;
        proof {
            let ghost orders0 = old(self).spec_orders();
            assert(self.orders@ =~= orders0.update(idx as int, onew));
            assert(index_ok(self.orders@)) by {
                assert forall|i: int|
                    0 <= i < self.orders@.len() implies (#[trigger] self.orders@[i]).id == i + 1
                    && self.orders@[i].wf() by {
                    if i != idx {
                        assert(self.orders@[i] == orders0[i]);
                    }
                };
            };
            assert(sums_ok(self.orders@, self.trades@)) by {
                assert forall|i: int|
                    0 <= i < self.orders@.len() implies (#[trigger] self.orders@[i]).filled_quantity
                    == fill_sum(self.trades@, self.orders@[i].side, self.orders@[i].id) by {
                    if i != idx {
                        assert(self.orders@[i] == orders0[i]);
                    } else {
                        assert(orders0[i].filled_quantity == fill_sum(
                            self.trades@,
                            orders0[i].side,
                            orders0[i].id,
                        ));
                    }
                };
            };
            // no book holds the order any more, so the index change is safe
            assert forall|bb: int|
                0 <= bb < self.spec_books().len() implies (#[trigger] self.spec_books()[bb]).wf()
                && !self.spec_books()[bb].crossed() && book_tracked(
                self.spec_books()[bb],
                self.orders@,
            ) by {
                let bk = books_mid[bb];
                assert(self.spec_books()[bb] == bk);
                assert(!bk.has_order_id(oid)) by {
                    if bk.has_order_id(oid) {
                        match found {
                            Some(b) => {
                                if bb != b as int {
                                    assert(bk == old(self).spec_books()[bb]);
                                    if side_has_id(bk.bids@, oid) {
                                        let (x, y) = choose|x: int, y: int|
                                            0 <= x < bk.bids@.len() && 0 <= y
                                                < bk.bids@[x].orders@.len() && (
                                            #[trigger] bk.bids@[x].orders@[y]).id == oid;
                                        assert(order_tracked(bk.bids@[x].orders@[y], orders0, bk.symbol@));
                                        assert(orders0[idx as int].symbol@ == bk.symbol@);
                                        assert(old(self).spec_books()[found.unwrap() as int].symbol@
                                            == orders0[idx as int].symbol@);
                                        assert(false);
                                    } else {
                                        let (x, y) = choose|x: int, y: int|
                                            0 <= x < bk.asks@.len() && 0 <= y
                                                < bk.asks@[x].orders@.len() && (
                                            #[trigger] bk.asks@[x].orders@[y]).id == oid;
                                        assert(order_tracked(bk.asks@[x].orders@[y], orders0, bk.symbol@));
                                        assert(orders0[idx as int].symbol@ == bk.symbol@);
                                        assert(old(self).spec_books()[found.unwrap() as int].symbol@
                                            == orders0[idx as int].symbol@);
                                        assert(false);
                                    }
                                }
                            },
                            None => {
                                assert(bk == old(self).spec_books()[bb]);
                                if side_has_id(bk.bids@, oid) {
                                    let (x, y) = choose|x: int, y: int|
                                        0 <= x < bk.bids@.len() && 0 <= y
                                            < bk.bids@[x].orders@.len() && (
                                        #[trigger] bk.bids@[x].orders@[y]).id == oid;
                                    assert(order_tracked(bk.bids@[x].orders@[y], orders0, bk.symbol@));
                                    assert(old(self).has_symbol(orders0[idx as int].symbol@));
                                    assert(false);
                                } else {
                                    let (x, y) = choose|x: int, y: int|
                                        0 <= x < bk.asks@.len() && 0 <= y
                                            < bk.asks@[x].orders@.len() && (
                                        #[trigger] bk.asks@[x].orders@[y]).id == oid;
                                    assert(order_tracked(bk.asks@[x].orders@[y], orders0, bk.symbol@));
                                    assert(old(self).has_symbol(orders0[idx as int].symbol@));
                                    assert(false);
                                }
                            },
                        }
                    }
                };
                assert(book_tracked(bk, self.orders@)) by {
                    assert forall|i: int, k: int|
                        0 <= i < bk.bids@.len() && 0 <= k < bk.bids@[i].orders@.len() implies order_tracked(
                        #[trigger] bk.bids@[i].orders@[k],
                        self.orders@,
                        bk.symbol@,
                    ) by {
                        let o2 = bk.bids@[i].orders@[k];
                        assert(o2.id != oid);
                        assert(self.orders@[o2.id - 1] == orders0[o2.id - 1]);
                    };
                    assert forall|i: int, k: int|
                        0 <= i < bk.asks@.len() && 0 <= k < bk.asks@[i].orders@.len() implies order_tracked(
                        #[trigger] bk.asks@[i].orders@[k],
                        self.orders@,
                        bk.symbol@,
                    ) by {
                        let o2 = bk.asks@[i].orders@[k];
                        assert(o2.id != oid);
                        assert(self.orders@[o2.id - 1] == orders0[o2.id - 1]);
                    };
                };
            };
            assert forall|bb: int, id: u128|
                0 <= bb < old(self).spec_books().len() && id != oid implies (
            #[trigger] self.spec_books()[bb].has_order_id(id)) == old(self).spec_books()[bb].has_order_id(id) by {
                match found {
                    Some(b) => {
                        if bb != b as int {
                            assert(self.spec_books()[bb] == old(self).spec_books()[bb]);
                        }
                    },
                    None => {
                        assert(self.spec_books()[bb] == old(self).spec_books()[bb]);
                    },
                }
            };
            assert forall|j: int, j2: int| 0 <= j < j2 < self.spec_books().len() implies (
            #[trigger] self.spec_books()[j]).symbol@ != (#[trigger] self.spec_books()[j2]).symbol@ by {
                assert(self.spec_books()[j].symbol@ == old(self).spec_books()[j].symbol@);
                assert(self.spec_books()[j2].symbol@ == old(self).spec_books()[j2].symbol@);
            };
        }
    }
}


/// Whether an order counts as expired at the instant `now`: only
/// pending orders with an expiry that has passed.
pub open spec fn expires_at(o: Order, now: i64) -> bool {
    o.status == OrderStatus::Pending && match o.expire_at {
        Some(e) => now > e,
        None => false,
    }
}

impl DEXEngine {
    /// Cancels an order for its own trader. Fails `OrderNotFound` for an
    /// unknown id, `Unauthorized` for another trader's order, and
    /// `OrderNotCancellable` unless the order is still pending or
    /// partially filled; every failure leaves the engine untouched. On
    /// success the order leaves its book and its status becomes
    /// `Cancelled`.
    pub fn cancel_order(&mut self, order_id: u128, trader: &str) -> (r: Result<(), EngineError>)
        requires
            old(self).wf(),
        ensures
            final(self).wf(),
            r == Result::<(), EngineError>::Err(EngineError::OrderNotFound) <==> !(1 <= order_id
                <= old(self).spec_orders().len()),
            r == Result::<(), EngineError>::Err(EngineError::Unauthorized) <==> 1 <= order_id <= old(self).spec_orders().len() && old(self).spec_orders()[order_id - 1].trader@ != trader@,
            r == Result::<(), EngineError>::Err(EngineError::OrderNotCancellable) <==> 1 <= order_id
                <= old(self).spec_orders().len() && old(self).spec_orders()[order_id - 1].trader@
                == trader@ && !(old(self).spec_orders()[order_id - 1].status == OrderStatus::Pending
                || old(self).spec_orders()[order_id - 1].status == OrderStatus::Partial),
            r is Err ==> *final(self) == *old(self),
            r is Ok <==> 1 <= order_id <= old(self).spec_orders().len() && old(self).spec_orders()[order_id - 1].trader@ == trader@ && (old(self).spec_orders()[order_id
                - 1].status == OrderStatus::Pending || old(self).spec_orders()[order_id - 1].status
                == OrderStatus::Partial),
            r is Ok ==> ({
                let o = final(self).spec_orders()[order_id - 1];
                let o0 = old(self).spec_orders()[order_id - 1];
                &&& same_core(o, o0)
                &&& o.filled_quantity == o0.filled_quantity
                &&& o.remaining_quantity == o0.remaining_quantity
                &&& o.status == OrderStatus::Cancelled
            }),
            r is Ok ==> (forall|i: int|
                0 <= i < old(self).spec_orders().len() && i != order_id - 1 ==> final(self).spec_orders()[i] == old(self).spec_orders()[i]),
            r is Ok ==> (forall|bb: int|
                0 <= bb < final(self).spec_books().len() ==> !(#[trigger] final(self).spec_books()[bb]).has_order_id(order_id)),
            r is Ok ==> (forall|bb: int, id: u128|
                0 <= bb < old(self).spec_books().len() && id != order_id ==> (#[trigger] final(self).spec_books()[bb].has_order_id(id)) == old(self).spec_books()[bb].has_order_id(
                    id,
                )),
            final(self).spec_trades() == old(self).spec_trades(),
            final(self).balances() == old(self).balances(),
            final(self).spec_orders().len() == old(self).spec_orders().len(),
    {
        if order_id < 1 || order_id > self.orders.len() as u128 {
            return Err(EngineError::OrderNotFound);
        }
        let idx = (order_id - 1) as usize;
        if !crate::text::str_eq(self.orders[idx].trader.as_str(), trader) {
            return Err(EngineError::Unauthorized);
        }
        let cancellable = self.orders[idx].status == OrderStatus::Pending || self.orders[idx].status
            == OrderStatus::Partial;
        if !cancellable {
            return Err(EngineError::OrderNotCancellable);
        }
        self.remove_from_book_and_set_status(idx, OrderStatus::Cancelled, true);
        Ok(())
    }

    /// The expiry sweep, measured against the instant `now`: every
    /// pending order whose expiry has passed becomes `Expired` and
    /// leaves its book; partially filled orders are not auto-expired.
    pub fn process_pending_orders_at(&mut self, now: i64)
        requires
            old(self).wf(),
        ensures
            final(self).wf(),
            final(self).spec_orders().len() == old(self).spec_orders().len(),
            forall|i: int|
                0 <= i < old(self).spec_orders().len() && !expires_at(
                    old(self).spec_orders()[i],
                    now,
                ) ==> final(self).spec_orders()[i] == old(self).spec_orders()[i],
            forall|i: int|
                0 <= i < old(self).spec_orders().len() && expires_at(
                    old(self).spec_orders()[i],
                    now,
                ) ==> ({
                    let o = #[trigger] final(self).spec_orders()[i];
                    let o0 = old(self).spec_orders()[i];
                    &&& same_core(o, o0)
                    &&& o.filled_quantity == o0.filled_quantity
                    &&& o.remaining_quantity == o0.remaining_quantity
                    &&& o.updated_at == o0.updated_at
                    &&& o.status == OrderStatus::Expired
                }),
            final(self).spec_books().len() == old(self).spec_books().len(),
            forall|bb: int, id: u128|
                0 <= bb < old(self).spec_books().len() && 1 <= id <= old(self).spec_orders().len() && expires_at(old(self).spec_orders()[id - 1], now) ==> !(
                #[trigger] final(self).spec_books()[bb].has_order_id(id)),
            forall|bb: int, id: u128|
                0 <= bb < old(self).spec_books().len() && 1 <= id <= old(self).spec_orders().len() && !expires_at(old(self).spec_orders()[id - 1], now) ==> (
                #[trigger] final(self).spec_books()[bb].has_order_id(id)) == old(self).spec_books()[bb].has_order_id(id),
            final(self).spec_trades() == old(self).spec_trades(),
            final(self).balances() == old(self).balances(),
    {
        let n = self.orders.len();
        let mut i: usize = 0;
        while i < n
            invariant
                old(self).wf(),
                self.wf(),
                n == old(self).spec_orders().len(),
                self.spec_orders().len() == n,
                0 <= i <= n,
                self.spec_books().len() == old(self).spec_books().len(),
                forall|j: int|
                    i <= j < n ==> #[trigger] self.spec_orders()[j] == old(self).spec_orders()[j],
                forall|j: int|
                    0 <= j < i && !expires_at(old(self).spec_orders()[j], now)
                        ==> self.spec_orders()[j] == old(self).spec_orders()[j],
                forall|j: int|
                    0 <= j < i && expires_at(old(self).spec_orders()[j], now) ==> ({
                        let o = #[trigger] self.spec_orders()[j];
                        let o0 = old(self).spec_orders()[j];
                        &&& same_core(o, o0)
                        &&& o.filled_quantity == o0.filled_quantity
                        &&& o.remaining_quantity == o0.remaining_quantity
                        &&& o.updated_at == o0.updated_at
                        &&& o.status == OrderStatus::Expired
                    }),
                forall|bb: int, id: u128|
                    0 <= bb < old(self).spec_books().len() && 1 <= id <= n && id <= i && expires_at(
                        old(self).spec_orders()[id - 1],
                        now,
                    ) ==> !(#[trigger] self.spec_books()[bb].has_order_id(id)),
                forall|bb: int, id: u128|
                    0 <= bb < old(self).spec_books().len() && 1 <= id <= n && (id > i || !expires_at(
                        old(self).spec_orders()[id - 1],
                        now,
                    )) ==> (#[trigger] self.spec_books()[bb].has_order_id(id)) == old(self).spec_books()[bb].has_order_id(id),
                self.spec_trades() == old(self).spec_trades(),
                self.balances() == old(self).balances(),
            decreases n - i,
        {
            let pending = self.orders[i].status == OrderStatus::Pending;
            let expired = pending && self.orders[i].is_expired_at(now);
            proof {
                assert(self.spec_orders()[i as int] == old(self).spec_orders()[i as int]);
            }
            if expired {
                self.remove_from_book_and_set_status(i, OrderStatus::Expired, false);
            }
            i = i + 1;
        }
    }

    /// The expiry sweep against the current wall clock.
    pub fn process_pending_orders(&mut self)
        requires
            old(self).wf(),
        ensures
            final(self).wf(),
            final(self).spec_orders().len() == old(self).spec_orders().len(),
            final(self).spec_trades() == old(self).spec_trades(),
            final(self).balances() == old(self).balances(),
            forall|i: int|
                0 <= i < old(self).spec_orders().len() ==> final(self).spec_orders()[i] == old(self).spec_orders()[i] || ({
                    let o = #[trigger] final(self).spec_orders()[i];
                    let o0 = old(self).spec_orders()[i];
                    &&& same_core(o, o0)
                    &&& o.filled_quantity == o0.filled_quantity
                    &&& o.remaining_quantity == o0.remaining_quantity
                    &&& o0.status == OrderStatus::Pending
                    &&& o0.expire_at is Some
                    &&& o.status == OrderStatus::Expired
                }),
    {
        let now = crate::clock::now_nanos();
        self.process_pending_orders_at(now);
    }

    /// Runs the crossing loop for one symbol as an explicit periodic
    /// step. Because no crossed book ever survives an operation, the
    /// step finds nothing to match and reports only whether the symbol
    /// is registered.
    pub fn process_limit_order_matching(&mut self, symbol: &str) -> (r: Result<(), EngineError>)
        requires
            old(self).wf(),
        ensures
            final(self).wf(),
            r is Ok <==> old(self).has_symbol(symbol@),
            r is Err ==> r == Result::<(), EngineError>::Err(EngineError::SymbolNotSupported),
            final(self).spec_books() == old(self).spec_books(),
            final(self).spec_orders() == old(self).spec_orders(),
            final(self).spec_trades() == old(self).spec_trades(),
            final(self).balances() == old(self).balances(),
    {
        let found = self.find_book(symbol);
        let b = match found {
            Some(b) => b,
            None => {
                return Err(EngineError::SymbolNotSupported);
            },
        };
        let ghost books0 = self.order_books@;
        let mut book = self.order_books.remove(b);
        let ghost b0 = book;
        cross_book(&mut book, &mut self.orders, &mut self.trades, &mut self.ledger);
        let ghost book1 = book;
        self.order_books.insert(b, book);
        proof {
            assert(!b0.crossed());
            assert(book1 == b0);
            assert(self.order_books@ =~= books0);
            lemma_wf_ledger_independent(*old(self), *self);
        }
        Ok(())
    }
}


/// The orders a trader has placed, in placement order.
pub open spec fn orders_of_trader(s: Seq<Order>, trader: Seq<char>) -> Seq<Order>
    decreases s.len(),
{
    if s.len() == 0 {
        Seq::empty()
    } else {
        let rest = orders_of_trader(s.drop_last(), trader);
        if s.last().trader@ == trader {
            rest.push(s.last())
        } else {
            rest
        }
    }
}

/// The trades of one symbol, oldest first.
pub open spec fn trades_of_symbol(s: Seq<Trade>, sym: Seq<char>) -> Seq<Trade>
    decreases s.len(),
{
    if s.len() == 0 {
        Seq::empty()
    } else {
        let rest = trades_of_symbol(s.drop_last(), sym);
        if s.last().symbol@ == sym {
            rest.push(s.last())
        } else {
            rest
        }
    }
}

/// Whether any trade was struck on `sym`.
pub open spec fn has_trade(s: Seq<Trade>, sym: Seq<char>) -> bool {
    exists|i: int| 0 <= i < s.len() && (#[trigger] s[i]).symbol@ == sym
}

/// The price of the most recent trade on `sym`; zero when there is none.
pub open spec fn last_trade_price(s: Seq<Trade>, sym: Seq<char>) -> u64
    decreases s.len(),
{
    if s.len() == 0 {
        0
    } else if s.last().symbol@ == sym {
        s.last().price
    } else {
        last_trade_price(s.drop_last(), sym)
    }
}

/// The highest trade price on `sym`; zero when there is none.
pub open spec fn high_trade_price(s: Seq<Trade>, sym: Seq<char>) -> u64
    decreases s.len(),
{
    if s.len() == 0 {
        0
    } else {
        let rest = high_trade_price(s.drop_last(), sym);
        if s.last().symbol@ == sym && s.last().price > rest {
            s.last().price
        } else {
            rest
        }
    }
}

/// The lowest trade price on `sym`; the largest price when there is
/// none.
pub open spec fn low_trade_price(s: Seq<Trade>, sym: Seq<char>) -> u64
    decreases s.len(),
{
    if s.len() == 0 {
        u64::MAX
    } else {
        let rest = low_trade_price(s.drop_last(), sym);
        if s.last().symbol@ == sym && s.last().price < rest {
            s.last().price
        } else {
            rest
        }
    }
}

/// The total quantity traded on `sym`.
pub open spec fn traded_volume(s: Seq<Trade>, sym: Seq<char>) -> int
    decreases s.len(),
{
    if s.len() == 0 {
        0
    } else {
        traded_volume(s.drop_last(), sym) + if s.last().symbol@ == sym {
            s.last().quantity as int
        } else {
            0
        }
    }
}

impl DEXEngine {
    /// All orders a trader ever placed, in placement order.
    pub fn get_user_orders(&self, trader: &str) -> (r: Vec<Order>)
        ensures
            r@ == orders_of_trader(self.spec_orders(), trader@),
    {
        let n = self.orders.len();
        let mut out: Vec<Order> = Vec::new();
        let mut i: usize = 0;
        proof {
            assert(self.orders@.subrange(0, 0) =~= Seq::<Order>::empty());
        }
        while i < n
            invariant
                n == self.orders@.len(),
                0 <= i <= n,
                out@ == orders_of_trader(self.orders@.subrange(0, i as int), trader@),
            decreases n - i,
        {
            proof {
                assert(self.orders@.subrange(0, i as int + 1).drop_last() =~= self.orders@.subrange(
                    0,
                    i as int,
                ));
                assert(self.orders@.subrange(0, i as int + 1).last() == self.orders@[i as int]);
            }
            if crate::text::str_eq(self.orders[i].trader.as_str(), trader) {
                out.push(self.orders[i].clone());
            }
            i = i + 1;
        }
        proof {
            assert(self.orders@.subrange(0, n as int) =~= self.orders@);
        }
        out
    }

    /// A snapshot of the book registered for `symbol`, if any.
    pub fn get_order_book(&self, symbol: &str) -> (r: Option<OrderBook>)
        ensures
            r is Some <==> self.has_symbol(symbol@),
            match r {
                Some(bk) => exists|b: int|
                    #![auto]
                    0 <= b < self.spec_books().len() && self.spec_books()[b].symbol@ == symbol@
                        && bk.symbol@ == symbol@ && sides_equal(
                        self.spec_books()[b].bids@,
                        bk.bids@,
                    ) && sides_equal(self.spec_books()[b].asks@, bk.asks@),
                None => !self.has_symbol(symbol@),
            },
    {
        let found = self.find_book(symbol);
        match found {
            Some(b) => {
                let bk = self.order_books[b].clone();
                proof {
                    assert(self.spec_books()[b as int].symbol@ == symbol@);
                }
                Some(bk)
            },
            None => None,
        }
    }

    /// The most recent trades on `symbol`, newest first, at most `limit`
    /// of them.
    pub fn get_recent_trades(&self, symbol: &str, limit: usize) -> (r: Vec<Trade>)
        ensures
            r@.len() == vstd::math::min(
                limit as int,
                trades_of_symbol(self.spec_trades(), symbol@).len() as int,
            ),
            forall|m: int|
                0 <= m < r@.len() ==> #[trigger] r@[m] == trades_of_symbol(
                    self.spec_trades(),
                    symbol@,
                )[trades_of_symbol(self.spec_trades(), symbol@).len() - 1 - m],
    {
        let n = self.trades.len();
        let mut matching: Vec<Trade> = Vec::new();
        let mut i: usize = 0;
        proof {
            assert(self.trades@.subrange(0, 0) =~= Seq::<Trade>::empty());
        }
        while i < n
            invariant
                n == self.trades@.len(),
                0 <= i <= n,
                matching@ == trades_of_symbol(self.trades@.subrange(0, i as int), symbol@),
            decreases n - i,
        {
            proof {
                assert(self.trades@.subrange(0, i as int + 1).drop_last() =~= self.trades@.subrange(
                    0,
                    i as int,
                ));
                assert(self.trades@.subrange(0, i as int + 1).last() == self.trades@[i as int]);
            }
            if crate::text::str_eq(self.trades[i].symbol.as_str(), symbol) {
                matching.push(self.trades[i].clone());
            }
            i = i + 1;
        }
        proof {
            assert(self.trades@.subrange(0, n as int) =~= self.trades@);
        }
        let m = matching.len();
        let count = if limit < m {
            limit
        } else {
            m
        };
        let mut out: Vec<Trade> = Vec::new();
        let mut j: usize = 0;
        while j < count
            invariant
                m == matching@.len(),
                count == vstd::math::min(limit as int, m as int),
                0 <= j <= count,
                out@.len() == j,
                forall|k: int| 0 <= k < j ==> #[trigger] out@[k] == matching@[m - 1 - k],
            decreases count - j,
        {
            out.push(matching[m - 1 - j].clone());
            j = j + 1;
        }
        out
    }

    /// The market summary for `symbol`: last, highest and lowest trade
    /// price, total traded volume, and the current best bid and ask
    /// (zero for an empty side). Absent until a first trade exists and
    /// the symbol is registered.
    pub fn get_ticker(&self, symbol: &str) -> (r: Option<Ticker>)
        ensures
            r is Some <==> has_trade(self.spec_trades(), symbol@) && self.has_symbol(symbol@),
            match r {
                Some(t) => {
                    &&& t.last_price == last_trade_price(self.spec_trades(), symbol@)
                    &&& t.high == high_trade_price(self.spec_trades(), symbol@)
                    &&& t.low == low_trade_price(self.spec_trades(), symbol@)
                    &&& t.volume == traded_volume(self.spec_trades(), symbol@)
                    &&& exists|b: int|
                        #![auto]
                        0 <= b < self.spec_books().len() && self.spec_books()[b].symbol@ == symbol@
                            && t.bid == (match self.spec_books()[b].spec_best_bid() {
                            Some(p) => p,
                            None => 0,
                        }) && t.ask == (match self.spec_books()[b].spec_best_ask() {
                            Some(p) => p,
                            None => 0,
                        })
                },
                None => true,
            },
    {
        let n = self.trades.len();
        let mut found = false;
        let mut last: u64 = 0;
        let mut high: u64 = 0;
        let mut low: u64 = u64::MAX;
        let mut volume: u128 = 0;
        let mut i: usize = 0;
        proof {
            assert(self.trades@.subrange(0, 0) =~= Seq::<Trade>::empty());
        }
        while i < n
            invariant
                n == self.trades@.len(),
                0 <= i <= n,
                found == has_trade(self.trades@.subrange(0, i as int), symbol@),
                last == last_trade_price(self.trades@.subrange(0, i as int), symbol@),
                high == high_trade_price(self.trades@.subrange(0, i as int), symbol@),
                low == low_trade_price(self.trades@.subrange(0, i as int), symbol@),
                volume == traded_volume(self.trades@.subrange(0, i as int), symbol@),
                volume <= i * (u64::MAX as int),
            decreases n - i,
        {
            let ghost prefix = self.trades@.subrange(0, i as int);
            proof {
                assert(self.trades@.subrange(0, i as int + 1).drop_last() =~= prefix);
                assert(self.trades@.subrange(0, i as int + 1).last() == self.trades@[i as int]);
                assert(i * (u64::MAX as int) + (u64::MAX as int) == (i + 1) * (u64::MAX as int))
                    by (nonlinear_arith);
                assert((i + 1) * (u64::MAX as int) <= (usize::MAX as int) * (u64::MAX as int))
                    by (nonlinear_arith)
                    requires
                        0 <= i,
                        i + 1 <= usize::MAX as int,
                ;
                assert((usize::MAX as int) * (u64::MAX as int)
                    < 0x100000000000000000000000000000000) by (nonlinear_arith)
                    requires
                        usize::MAX as int <= u64::MAX as int,
                ;
                if has_trade(prefix, symbol@) {
                    let k = choose|k: int|
                        0 <= k < prefix.len() && (#[trigger] prefix[k]).symbol@ == symbol@;
                    assert(self.trades@.subrange(0, i as int + 1)[k].symbol@ == symbol@);
                }
            }
            if crate::text::str_eq(self.trades[i].symbol.as_str(), symbol) {
                found = true;
                last = self.trades[i].price;
                if self.trades[i].price > high {
                    high = self.trades[i].price;
                }
                if self.trades[i].price < low {
                    low = self.trades[i].price;
                }
                volume = volume + (self.trades[i].quantity as u128);
                proof {
                    assert(self.trades@.subrange(0, i as int + 1)[i as int].symbol@ == symbol@);
                }
            }
            i = i + 1;
        }
        proof {
            assert(self.trades@.subrange(0, n as int) =~= self.trades@);
        }
        if !found {
            return None;
        }
        let b = match self.find_book(symbol) {
            Some(b) => b,
            None => {
                return None;
            },
        };
        let bid = match self.order_books[b].get_best_bid() {
            Some(p) => p,
            None => 0,
        };
        let ask = match self.order_books[b].get_best_ask() {
            Some(p) => p,
            None => 0,
        };
        proof {
            assert(self.spec_books()[b as int].symbol@ == symbol@);
        }
        Some(Ticker { last_price: last, bid, ask, high, low, volume })
    }
}

/// Conservation of quantity: at every point in an order's lifecycle,
/// its filled and remaining quantities make up its original quantity.
pub proof fn lemma_order_quantity_conserved(e: &DEXEngine, i: int)
    requires
        e.wf(),
        0 <= i < e.spec_orders().len(),
    ensures
        e.spec_orders()[i].filled_quantity + e.spec_orders()[i].remaining_quantity
            == e.spec_orders()[i].quantity,
{
}

/// Trade-log accounting: the trade quantities that reference an order
/// on its own side sum to exactly its filled quantity, and so never
/// exceed its original quantity.
pub proof fn lemma_trade_sums_bounded(e: &DEXEngine, i: int)
    requires
        e.wf(),
        0 <= i < e.spec_orders().len(),
    ensures
        fill_sum(e.spec_trades(), e.spec_orders()[i].side, e.spec_orders()[i].id)
            == e.spec_orders()[i].filled_quantity,
        fill_sum(e.spec_trades(), e.spec_orders()[i].side, e.spec_orders()[i].id)
            <= e.spec_orders()[i].quantity,
{
}

/// Non-negative balances: whatever deposits, withdrawals and trades ran
/// before, no ledger balance is ever negative. Amounts are unsigned,
/// and every withdrawal or settlement debit that is not covered is
/// rejected before any state changes.
pub proof fn lemma_balances_non_negative(e: &DEXEngine, user: Seq<char>, asset: Seq<char>)
    ensures
        e.balances()[(user, asset)] >= 0,
{
}

/// No persisted crossed book: between operations, every book shows its
/// best bid strictly below its best ask, or one side empty.
pub proof fn lemma_no_crossed_book(e: &DEXEngine, b: int)
    requires
        e.wf(),
        0 <= b < e.spec_books().len(),
    ensures
        e.spec_books()[b].bids@.len() == 0 || e.spec_books()[b].asks@.len() == 0
            || e.spec_books()[b].bids@[0].price < e.spec_books()[b].asks@[0].price,
{
}

/// First-in-first-out execution within a price level: when a single
/// aggressor sweeps a queue, a later order can be gone only if every
/// order queued ahead of it is gone too.
pub proof fn lemma_fifo_within_level(before: Seq<Order>, after: Seq<Order>, k: int, l: int)
    requires
        queue_swept(before, after),
        forall|x: int, y: int| 0 <= x < y < before.len() ==> before[x].id != before[y].id,
        0 <= k < l < before.len(),
        !queue_has_id(after, before[l].id),
    ensures
        !queue_has_id(after, before[k].id),
{
    let d = choose|d: int| #[trigger] queue_swept_by(before, after, d);
    if queue_has_id(after, before[k].id) {
        let j = choose|j: int| 0 <= j < after.len() && (#[trigger] after[j]).id == before[k].id;
        if j == 0 {
            assert(fill_advanced(before[d], after[0]));
            assert(before[d].id == before[k].id);
            assert(d == k);
        } else {
            assert(after[j] == before[j + d]);
            assert(j + d == k);
        }
        assert(l > k >= d);
        if l == d {
            assert(false);
        } else {
            assert(after.len() > l - d >= 1);
            if l - d >= 1 && l - d < after.len() {
                assert(after[l - d] == before[l]);
                assert(queue_has_id(after, before[l].id));
            } else {
                assert(l - d >= after.len());
                assert(l >= before.len());
            }
            assert(false);
        }
    }
}

} // verus!
