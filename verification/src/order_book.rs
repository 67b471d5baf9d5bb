//! Price-ordered order book with deterministic matching.
//!
//! The book keeps two ordered collections: bids ranked by descending
//! price and asks by ascending price, ties broken in both by
//! ascending order id. Matching repeatedly pairs the best bid with
//! the best ask while their prices cross and removes both, so the
//! pop order of the book is total and deterministic.

use vstd::prelude::*;

verus! {

#[derive(Clone, Copy, PartialEq, Eq, Structural, Debug)]
pub enum OrderType {
    Buy,
    Sell,
}

/// A resting order. Orders are immutable values; the book replaces
/// entries rather than mutating them in place.
#[derive(Clone, Copy, PartialEq, Eq, Structural, Debug)]
pub struct Order {
    /// Globally unique identity, drawn at creation; also the
    /// deterministic tie-break key among equal-priced orders.
    pub id: u128,
    pub order_type: OrderType,
    pub price: u64,
    pub quantity: u64,
}

/// Bid ranking: higher price first, ties broken by ascending id.
pub open spec fn bid_before(a: Order, b: Order) -> bool {
    a.price > b.price || (a.price == b.price && a.id < b.id)
}

/// Ask ranking: lower price first, ties broken by ascending id.
pub open spec fn ask_before(a: Order, b: Order) -> bool {
    a.price < b.price || (a.price == b.price && a.id < b.id)
}

/// The ranking of the given book side.
pub open spec fn before(side: OrderType, a: Order, b: Order) -> bool {
    match side {
        OrderType::Buy => bid_before(a, b),
        OrderType::Sell => ask_before(a, b),
    }
}

/// Two orders occupy the same slot of a book side when price and id
/// coincide; a side never holds two such entries.
pub open spec fn same_key(a: Order, b: Order) -> bool {
    a.price == b.price && a.id == b.id
}

/// A side is sorted strictly by its ranking, best order first.
pub open spec fn sorted(side: OrderType, s: Seq<Order>) -> bool {
    forall|i: int, j: int| 0 <= i < j < s.len() ==> before(side, s[i], s[j])
}

/// Every order of the sequence carries the given side.
pub open spec fn all_side(side: OrderType, s: Seq<Order>) -> bool {
    forall|i: int| 0 <= i < s.len() ==> s[i].order_type == side
}

/// The sequence with `o` inserted at its rank, unchanged if an entry
/// with the same price and id is already present.
pub open spec fn spec_insert(side: OrderType, s: Seq<Order>, o: Order) -> Seq<Order>
    decreases s.len(),
{
    if s.len() == 0 {
        seq![o]
    } else if before(side, o, s[0]) {
        seq![o] + s
    } else if same_key(o, s[0]) {
        s
    } else {
        seq![s[0]] + spec_insert(side, s.drop_first(), o)
    }
}

/// The sequence with the first entry keyed like `o` removed,
/// unchanged if no such entry exists.
pub open spec fn spec_remove(s: Seq<Order>, o: Order) -> Seq<Order>
    decreases s.len(),
{
    if s.len() == 0 {
        s
    } else if same_key(s[0], o) {
        s.drop_first()
    } else {
        seq![s[0]] + spec_remove(s.drop_first(), o)
    }
}

/// Whether some entry of the sequence shares price and id with `o`.
pub open spec fn has_key(s: Seq<Order>, o: Order) -> bool {
    exists|i: int| 0 <= i < s.len() && same_key(s[i], o)
}

/// The best bid and best ask cross: a match is available.
pub open spec fn crossing(bids: Seq<Order>, asks: Seq<Order>) -> bool {
    bids.len() > 0 && asks.len() > 0 && bids[0].price >= asks[0].price
}

/// How many best-bid/best-ask pairs a single matching pass removes:
/// pairs are taken from the front of both sides as long as they
/// cross.
pub open spec fn match_count(bids: Seq<Order>, asks: Seq<Order>) -> nat
    decreases bids.len(),
{
    if crossing(bids, asks) {
        (1 + match_count(bids.drop_first(), asks.drop_first())) as nat
    } else {
        0
    }
}

/// Structured outcome of one matching pass: the price and quantity
/// of both sides of the last pair matched, or the report that
/// nothing crossed.
#[derive(Clone, Copy, PartialEq, Eq, Structural, Debug)]
pub enum MatchReport {
    Matched { buy_price: u64, buy_quantity: u64, sell_price: u64, sell_quantity: u64 },
    NoMatch,
}

/// Relies on `uuid::Uuid::new_v4` for a random 128-bit order id;
/// the value is random, so nothing is promised of it.
#[verifier::external_body]
fn fresh_id() -> u128 {
    uuid::Uuid::new_v4().as_u128()
}

impl Order {
    /// A new order with a freshly drawn random id.
    pub fn new(order_type: OrderType, price: u64, quantity: u64) -> (order: Order)
        ensures
            order.order_type == order_type,
            order.price == price,
            order.quantity == quantity,
    {
        Order { id: fresh_id(), order_type, price, quantity }
    }
}

#[derive(Debug)]
pub struct OrderBook {
    /// Resting bids, best (highest) price first.
    pub buy_orders: Vec<Order>,
    /// Resting asks, best (lowest) price first.
    pub sell_orders: Vec<Order>,
}

impl OrderBook {
    /// Well-formedness: each side is strictly ordered by its ranking
    /// (so no entry appears twice) and holds only orders of its own
    /// side.
    pub open spec fn wf(self) -> bool {
        &&& sorted(OrderType::Buy, self.buy_orders@)
        &&& sorted(OrderType::Sell, self.sell_orders@)
        &&& all_side(OrderType::Buy, self.buy_orders@)
        &&& all_side(OrderType::Sell, self.sell_orders@)
    }

    pub fn new() -> (book: OrderBook)
        ensures
            book.buy_orders@ == Seq::<Order>::empty(),
            book.sell_orders@ == Seq::<Order>::empty(),
            book.wf(),
    {
        OrderBook { buy_orders: Vec::new(), sell_orders: Vec::new() }
    }

    /// Insert the order into the side named by its `order_type`; the
    /// other side is untouched. Inserting an order whose price and id
    /// are already resting on its side leaves the book unchanged.
    pub fn add_order(&mut self, order: Order)
        requires
            old(self).wf(),
        ensures
            final(self).wf(),
            order.order_type == OrderType::Buy ==> {
                &&& final(self).buy_orders@ == spec_insert(
                    OrderType::Buy,
                    old(self).buy_orders@,
                    order,
                )
                &&& final(self).sell_orders@ == old(self).sell_orders@
            },
            order.order_type == OrderType::Sell ==> {
                &&& final(self).sell_orders@ == spec_insert(
                    OrderType::Sell,
                    old(self).sell_orders@,
                    order,
                )
                &&& final(self).buy_orders@ == old(self).buy_orders@
            },
    {
        match order.order_type {
            OrderType::Buy => {
                insert_sorted(OrderType::Buy, &mut self.buy_orders, order);
            }
            OrderType::Sell => {
                insert_sorted(OrderType::Sell, &mut self.sell_orders, order);
            }
        }
    }

    /// One matching pass: while the best bid and best ask cross, pop
    /// and pair both, and report whether anything matched together
    /// with the last pair's prices and quantities.
    pub fn match_orders(&mut self) -> (r: (bool, MatchReport))
        requires
            old(self).wf(),
        ensures
            ({
                let n = match_count(old(self).buy_orders@, old(self).sell_orders@) as int;
                &&& final(self).wf()
                &&& final(self).buy_orders@ == old(self).buy_orders@.skip(n)
                &&& final(self).sell_orders@ == old(self).sell_orders@.skip(n)
                &&& !crossing(final(self).buy_orders@, final(self).sell_orders@)
                &&& r.0 == (n > 0)
                &&& (n > 0 ==> r.1 == (MatchReport::Matched {
                    buy_price: old(self).buy_orders@[n - 1].price,
                    buy_quantity: old(self).buy_orders@[n - 1].quantity,
                    sell_price: old(self).sell_orders@[n - 1].price,
                    sell_quantity: old(self).sell_orders@[n - 1].quantity,
                }))
                &&& (n == 0 ==> r.1 == MatchReport::NoMatch)
            }),
    {
        let mut matched = false;
        let mut report = MatchReport::NoMatch;
        let ghost mut steps: int = 0;
        while self.buy_orders.len() > 0 && self.sell_orders.len() > 0
            && self.buy_orders[0].price >= self.sell_orders[0].price
            invariant
                self.wf(),
                0 <= steps,
                steps <= old(self).buy_orders@.len(),
                steps <= old(self).sell_orders@.len(),
                self.buy_orders@ == old(self).buy_orders@.skip(steps),
                self.sell_orders@ == old(self).sell_orders@.skip(steps),
                match_count(old(self).buy_orders@, old(self).sell_orders@) == steps
                    + match_count(self.buy_orders@, self.sell_orders@),
                matched == (steps > 0),
                steps > 0 ==> report == (MatchReport::Matched {
                    buy_price: old(self).buy_orders@[steps - 1].price,
                    buy_quantity: old(self).buy_orders@[steps - 1].quantity,
                    sell_price: old(self).sell_orders@[steps - 1].price,
                    sell_quantity: old(self).sell_orders@[steps - 1].quantity,
                }),
                steps == 0 ==> report == MatchReport::NoMatch,
            decreases self.buy_orders@.len(),
        {
            let ghost bids_at_entry = self.buy_orders@;
            let ghost asks_at_entry = self.sell_orders@;
            let buy = self.buy_orders.remove(0);
            let sell = self.sell_orders.remove(0);
            matched = true;
            report = MatchReport::Matched {
                buy_price: buy.price,
                buy_quantity: buy.quantity,
                sell_price: sell.price,
                sell_quantity: sell.quantity,
            };
            proof {
                assert(crossing(bids_at_entry, asks_at_entry));
                assert(self.buy_orders@ =~= bids_at_entry.drop_first());
                assert(self.sell_orders@ =~= asks_at_entry.drop_first());
                assert(self.buy_orders@ =~= old(self).buy_orders@.skip(steps + 1));
                assert(self.sell_orders@ =~= old(self).sell_orders@.skip(steps + 1));
                lemma_suffix_wf(OrderType::Buy, bids_at_entry, self.buy_orders@);
                lemma_suffix_wf(OrderType::Sell, asks_at_entry, self.sell_orders@);
                steps = steps + 1;
            }
        }
        proof {
            assert(match_count(self.buy_orders@, self.sell_orders@) == 0);
        }
        (matched, report)
    }

    /// Remove the specific order (matched by side, price and id) from
    /// its resting side, reporting whether it was present. Removing
    /// an order that is not resting is a no-op, not an error.
    pub fn take(&mut self, order: &Order) -> (removed: bool)
        requires
            old(self).wf(),
        ensures
            final(self).wf(),
            order.order_type == OrderType::Buy ==> {
                &&& final(self).buy_orders@ == spec_remove(old(self).buy_orders@, *order)
                &&& final(self).sell_orders@ == old(self).sell_orders@
                &&& removed == has_key(old(self).buy_orders@, *order)
            },
            order.order_type == OrderType::Sell ==> {
                &&& final(self).sell_orders@ == spec_remove(old(self).sell_orders@, *order)
                &&& final(self).buy_orders@ == old(self).buy_orders@
                &&& removed == has_key(old(self).sell_orders@, *order)
            },
            !removed ==> {
                &&& final(self).buy_orders@ == old(self).buy_orders@
                &&& final(self).sell_orders@ == old(self).sell_orders@
            },
    {
        match order.order_type {
            OrderType::Buy => remove_key(OrderType::Buy, &mut self.buy_orders, order),
            OrderType::Sell => remove_key(OrderType::Sell, &mut self.sell_orders, order),
        }
    }

    /// Read-only snapshot for display: the resting bids and asks,
    /// each best-first, copied out of the book.
    pub fn snapshot_book(&self) -> (r: (Vec<Order>, Vec<Order>))
        ensures
            r.0@ == self.buy_orders@,
            r.1@ == self.sell_orders@,
    {
        (copy_orders(&self.buy_orders), copy_orders(&self.sell_orders))
    }
}

fn copy_orders(orders: &Vec<Order>) -> (r: Vec<Order>)
    ensures
        r@ == orders@,
{
    let mut out: Vec<Order> = Vec::new();
    let mut i: usize = 0;
    while i < orders.len()
        invariant
            0 <= i <= orders@.len(),
            out@ == orders@.take(i as int),
        decreases orders@.len() - i,
    {
        out.push(orders[i]);
        i = i + 1;
        proof {
            assert(out@ =~= orders@.take(i as int));
        }
    }
    proof {
        assert(out@ =~= orders@);
    }
    out
}

/// The ranking, decided executably.
fn comes_before(side: OrderType, a: &Order, b: &Order) -> (r: bool)
    ensures
        r == before(side, *a, *b),
{
    match side {
        OrderType::Buy => a.price > b.price || (a.price == b.price && a.id < b.id),
        OrderType::Sell => a.price < b.price || (a.price == b.price && a.id < b.id),
    }
}

/// Sorted insertion keeping the side's strict ranking; a duplicate
/// key leaves the sequence unchanged.
fn insert_sorted(side: OrderType, orders: &mut Vec<Order>, order: Order)
    requires
        sorted(side, old(orders)@),
    ensures
        final(orders)@ == spec_insert(side, old(orders)@, order),
        sorted(side, final(orders)@),
        all_side(side, old(orders)@) && order.order_type == side ==> all_side(
            side,
            final(orders)@,
        ),
{
    let mut i: usize = 0;
    while i < orders.len() && comes_before(side, &orders[i], &order)
        invariant
            orders@ == old(orders)@,
            0 <= i <= orders@.len(),
            sorted(side, orders@),
            forall|j: int| 0 <= j < i ==> before(side, orders@[j], order),
        decreases orders@.len() - i,
    {
        i = i + 1;
    }
    let duplicate = i < orders.len() && orders[i].price == order.price && orders[i].id
        == order.id;
    proof {
        lemma_spec_insert_at(side, orders@, order, i as int);
    }
    if !duplicate {
        let ghost before_insert = orders@;
        orders.insert(i, order);
        proof {
            before_insert.insert_ensures(i as int, order);
            assert forall|a: int, b: int|
                0 <= a < b < orders@.len() implies before(side, orders@[a], orders@[b]) by {
                let pos = i as int;
                if b < pos {
                    assert(orders@[a] == before_insert[a]);
                    assert(orders@[b] == before_insert[b]);
                    assert(before(side, before_insert[a], before_insert[b]));
                } else if a < pos && b == pos {
                    assert(orders@[a] == before_insert[a]);
                    assert(orders@[b] == order);
                    assert(before(side, before_insert[a], order));
                } else if a < pos && b > pos {
                    assert(orders@[a] == before_insert[a]);
                    assert(orders@[b] == before_insert[b - 1]);
                    assert(a < b - 1 < before_insert.len());
                    assert(before(side, before_insert[a], before_insert[b - 1]));
                } else if a == pos {
                    assert(orders@[a] == order);
                    assert(orders@[b] == before_insert[b - 1]);
                    assert(pos <= b - 1 < before_insert.len());
                    assert(before(side, order, before_insert[pos]));
                    if b - 1 > pos {
                        assert(before(side, before_insert[pos], before_insert[b - 1]));
                    }
                } else {
                    assert(orders@[a] == before_insert[a - 1]);
                    assert(orders@[b] == before_insert[b - 1]);
                    assert(before(side, before_insert[a - 1], before_insert[b - 1]));
                }
            }
        }
    }
}

/// Remove the first (and, on a sorted side, only) entry keyed like
/// `order`; absent keys leave the sequence unchanged.
fn remove_key(side: OrderType, orders: &mut Vec<Order>, order: &Order) -> (removed: bool)
    requires
        sorted(side, old(orders)@),
    ensures
        final(orders)@ == spec_remove(old(orders)@, *order),
        removed == has_key(old(orders)@, *order),
        !removed ==> final(orders)@ == old(orders)@,
        sorted(side, final(orders)@),
        all_side(side, old(orders)@) ==> all_side(side, final(orders)@),
{
    let mut i: usize = 0;
    while i < orders.len() && !(orders[i].price == order.price && orders[i].id == order.id)
        invariant
            orders@ == old(orders)@,
            0 <= i <= orders@.len(),
            forall|j: int| 0 <= j < i ==> !same_key(orders@[j], *order),
        decreases orders@.len() - i,
    {
        i = i + 1;
    }
    proof {
        lemma_spec_remove_at(orders@, *order, i as int);
    }
    if i < orders.len() {
        let ghost before_remove = orders@;
        orders.remove(i);
        proof {
            before_remove.remove_ensures(i as int);
            assert(orders@ =~= before_remove.remove(i as int));
            assert forall|a: int, b: int|
                0 <= a < b < orders@.len() implies before(side, orders@[a], orders@[b]) by {
                let pos = i as int;
                if a < pos {
                    assert(orders@[a] == before_remove[a]);
                } else {
                    assert(orders@[a] == before_remove[a + 1]);
                }
                if b < pos {
                    assert(orders@[b] == before_remove[b]);
                } else {
                    assert(orders@[b] == before_remove[b + 1]);
                }
            }
            assert forall|m: int|
                0 <= m < orders@.len() implies before_remove.contains(orders@[m]) by {
                let pos = i as int;
                if m < pos {
                    assert(orders@[m] == before_remove[m]);
                } else {
                    assert(orders@[m] == before_remove[m + 1]);
                }
            }
        }
        true
    } else {
        false
    }
}

/// Taking entries off the front of a sorted single-sided sequence
/// keeps it sorted and single-sided.
proof fn lemma_suffix_wf(side: OrderType, s: Seq<Order>, suffix: Seq<Order>)
    requires
        suffix =~= s.drop_first(),
        s.len() >= 1,
        sorted(side, s),
        all_side(side, s),
    ensures
        sorted(side, suffix),
        all_side(side, suffix),
{
    assert forall|i: int, j: int|
        0 <= i < j < suffix.len() implies before(side, suffix[i], suffix[j]) by {
        assert(suffix[i] == s[i + 1]);
        assert(suffix[j] == s[j + 1]);
    }
    assert forall|i: int| 0 <= i < suffix.len() implies suffix[i].order_type == side by {
        assert(suffix[i] == s[i + 1]);
    }
}

/// Where the insertion scan stops, `spec_insert` either finds the
/// duplicate key or puts the order at exactly that index.
proof fn lemma_spec_insert_at(side: OrderType, s: Seq<Order>, o: Order, i: int)
    requires
        sorted(side, s),
        0 <= i <= s.len(),
        forall|j: int| 0 <= j < i ==> before(side, s[j], o),
        i < s.len() ==> !before(side, s[i], o),
    ensures
        i < s.len() && same_key(o, s[i]) ==> spec_insert(side, s, o) == s,
        !(i < s.len() && same_key(o, s[i])) ==> spec_insert(side, s, o) == s.insert(i, o),
    decreases s.len(),
{
    if s.len() == 0 {
        assert(s.insert(0, o) =~= seq![o]);
    } else if i == 0 {
        if same_key(o, s[0]) {
            assert(!before(side, o, s[0]));
        } else {
            assert(before(side, o, s[0]));
            assert(s.insert(0, o) =~= seq![o] + s);
        }
    } else {
        assert(before(side, s[0], o));
        assert(!before(side, o, s[0]));
        assert(!same_key(o, s[0]));
        let tail = s.drop_first();
        assert forall|a: int, b: int|
            0 <= a < b < tail.len() implies before(side, tail[a], tail[b]) by {
            assert(tail[a] == s[a + 1]);
            assert(tail[b] == s[b + 1]);
        }
        assert forall|j: int| 0 <= j < i - 1 implies before(side, tail[j], o) by {
            assert(tail[j] == s[j + 1]);
        }
        assert(i - 1 < tail.len() ==> tail[i - 1] == s[i]);
        lemma_spec_insert_at(side, tail, o, i - 1);
        if i < s.len() && same_key(o, s[i]) {
            assert(spec_insert(side, tail, o) == tail);
            assert(seq![s[0]] + tail =~= s);
        } else {
            assert(spec_insert(side, tail, o) == tail.insert(i - 1, o));
            assert(seq![s[0]] + tail.insert(i - 1, o) =~= s.insert(i, o));
        }
    }
}

/// Where the removal scan stops, `spec_remove` either removes
/// exactly that index or, past the end, leaves the sequence as it
/// was.
proof fn lemma_spec_remove_at(s: Seq<Order>, o: Order, i: int)
    requires
        0 <= i <= s.len(),
        forall|j: int| 0 <= j < i ==> !same_key(s[j], o),
        i < s.len() ==> same_key(s[i], o),
    ensures
        i == s.len() ==> spec_remove(s, o) == s && !has_key(s, o),
        i < s.len() ==> spec_remove(s, o) == s.remove(i) && has_key(s, o),
    decreases s.len(),
{
    if s.len() == 0 {
    } else if i == 0 {
        if same_key(s[0], o) {
            assert(s.remove(0) =~= s.drop_first());
        }
    } else {
        assert(!same_key(s[0], o));
        let tail = s.drop_first();
        assert forall|j: int| 0 <= j < i - 1 implies !same_key(tail[j], o) by {
            assert(tail[j] == s[j + 1]);
        }
        assert(i - 1 < tail.len() ==> tail[i - 1] == s[i]);
        lemma_spec_remove_at(tail, o, i - 1);
        if i == s.len() {
            assert(spec_remove(s, o) == seq![s[0]] + tail);
            assert(seq![s[0]] + tail =~= s);
            assert forall|m: int| 0 <= m < s.len() implies !same_key(s[m], o) by {
                if m > 0 {
                    assert(tail[m - 1] == s[m]);
                }
            }
        } else {
            assert(spec_remove(s, o) == seq![s[0]] + tail.remove(i - 1));
            assert(seq![s[0]] + tail.remove(i - 1) =~= s.remove(i));
            assert(same_key(s[i], o));
        }
    }
}

/// Among equal-priced entries at the top of a well-formed book the
/// first one carries the strictly smallest id, so matching, which
/// always pops the front, deterministically selects the lowest id.
pub proof fn lemma_tie_break_lowest_id(book: OrderBook, i: int)
    requires
        book.wf(),
        0 < i < book.buy_orders@.len(),
        book.buy_orders@[i].price == book.buy_orders@[0].price,
    ensures
        book.buy_orders@[0].id < book.buy_orders@[i].id,
{
    assert(before(OrderType::Buy, book.buy_orders@[0], book.buy_orders@[i]));
}

/// In a well-formed book the first resting order of each side has
/// the best price: the highest among bids, the lowest among asks.
pub proof fn lemma_best_price_first(book: OrderBook, i: int)
    requires
        book.wf(),
    ensures
        0 <= i < book.buy_orders@.len() ==> book.buy_orders@[0].price
            >= book.buy_orders@[i].price,
        0 <= i < book.sell_orders@.len() ==> book.sell_orders@[0].price
            <= book.sell_orders@[i].price,
{
    if 0 < i < book.buy_orders@.len() {
        assert(before(OrderType::Buy, book.buy_orders@[0], book.buy_orders@[i]));
    }
    if 0 < i < book.sell_orders@.len() {
        assert(before(OrderType::Sell, book.sell_orders@[0], book.sell_orders@[i]));
    }
}

/// A matching pass loses no order: it splits each side into the
/// matched prefix of length `match_count` and the untouched resting
/// suffix, and every matched pair crossed. Every order therefore
/// ends up either matched or still resting, never dropped.
pub proof fn lemma_matching_loses_no_order(bids: Seq<Order>, asks: Seq<Order>)
    ensures
        ({
            let n = match_count(bids, asks) as int;
            &&& 0 <= n <= bids.len()
            &&& n <= asks.len()
            &&& bids =~= bids.take(n) + bids.skip(n)
            &&& asks =~= asks.take(n) + asks.skip(n)
            &&& forall|i: int| 0 <= i < n ==> bids[i].price >= asks[i].price
        }),
    decreases bids.len(),
{
    if crossing(bids, asks) {
        lemma_matching_loses_no_order(bids.drop_first(), asks.drop_first());
        let n = match_count(bids, asks) as int;
        assert(n == 1 + match_count(bids.drop_first(), asks.drop_first()));
        assert forall|i: int| 0 <= i < n implies bids[i].price >= asks[i].price by {
            if i > 0 {
                assert(bids.drop_first()[i - 1] == bids[i]);
                assert(asks.drop_first()[i - 1] == asks[i]);
            }
        }
        assert(bids =~= bids.take(n) + bids.skip(n));
        assert(asks =~= asks.take(n) + asks.skip(n));
    } else {
        let n = match_count(bids, asks) as int;
        assert(n == 0);
        assert(bids =~= bids.take(0) + bids.skip(0));
        assert(asks =~= asks.take(0) + asks.skip(0));
    }
}

} // verus!
