//! A level-3 order book: every order is tracked individually, and per
//! (side, price) aggregates are maintained for level-2 consumers.
//!
//! Orders live in one arena, in arrival order; the per-side level tables and
//! the per-level FIFO queues refer to them by arena index.  The central
//! invariant, `Book::wf`, ties the two paths together: a level's `open_size`
//! is exactly the sum of the open sizes of the booked orders queued at it,
//! its `total_size` the sum of all their original sizes, and no size is ever
//! negative.

use vstd::prelude::*;

use crate::price::Price;

pub mod bounds;

verus! {

broadcast use crate::price::lemma_price_in_range;

/// Side of the book an order rests on.
#[derive(Copy, Clone, Debug, PartialEq, Eq, Structural)]
pub enum Side {
    Bid,
    Ask,
}

/// The type and price of an order: market orders carry no limit price but
/// still occupy a (hidden) slot in the level tables.
#[derive(Copy, Clone, Debug, PartialEq, Eq, PartialOrd, Ord, Structural)]
pub enum OrderPrice {
    Market,
    Limit(Price),
}

/// Why an order left the book.
#[derive(Copy, Clone, Debug, PartialEq, Eq, Structural)]
pub enum DoneReason {
    Filled,
    Canceled,
}

/// Feed timestamp, as delivered.
#[derive(Copy, Clone, Debug)]
pub struct Time(pub u64);

/// Feed sequence number, as delivered.
#[derive(Copy, Clone, Debug)]
pub struct Sequence(pub u64);

// Event structs.  These carry the data common to all feeds.

pub struct NewOrderEvent {
    pub seq: Sequence,
    pub time: Time,
    pub order_id: String,
    pub side: Side,
    pub px: OrderPrice,
    pub orig_size: Price,
    pub open_size: Price,
}

pub struct OpenEvent {
    pub seq: Sequence,
    pub time: Time,
    pub order_id: String,
    pub remaining_size: Price,
}

pub struct MatchEvent {
    pub seq: Sequence,
    pub time: Time,
    pub maker_order_id: String,
    pub taker_order_id: String,
    pub side: Side,
    pub price: Price,
    pub size: Price,
}

pub struct ChangeEvent {
    pub seq: Sequence,
    pub time: Time,
    pub order_id: String,
    pub price: OrderPrice,
    pub old_size_or_funds: Price,
    pub new_size_or_funds: Price,
}

pub struct DoneEvent {
    pub seq: Sequence,
    pub time: Time,
    pub order_id: String,
    pub reason: DoneReason,
}

/// The level-3 listener surface: one handler per feed event.  `Book` offers
/// the same five entry points with full contracts; the trait is the shape a
/// custom observer implements.
pub trait Level3FeedListener {
    fn on_add(&mut self, event: &NewOrderEvent);

    fn on_open(&mut self, event: &OpenEvent);

    fn on_match(&mut self, event: &MatchEvent);

    fn on_change(&mut self, event: &ChangeEvent);

    fn on_done(&mut self, event: &DoneEvent);
}

/// Hook reserved for level-2 consumers: called after any level-mutating
/// transition with the level's old and new open size.
pub trait Level2EventListener {
    fn on_level_change(side: Side, price: Price, old_size: Price, new_size: Price);
}

/// Mathematical image of one order.
pub ghost struct OrderV {
    pub id: Seq<char>,
    pub side: Side,
    pub px: OrderPrice,
    pub orig_size: int,
    pub open_size: int,
    pub booked: bool,
}

/// Mathematical image of one price level: the two aggregates and the FIFO
/// queue of arena indices of the orders ever added at this level.
pub ghost struct LevelV {
    pub total: int,
    pub open: int,
    pub queue: Seq<int>,
}

/// One resting order.  `booked` records whether the order is currently open
/// on the book (between its Open and its Done), which is exactly when it
/// contributes to its level's `open_size`.
pub struct Order {
    id: String,
    side: Side,
    px: OrderPrice,
    orig_size: Price,
    open_size: Price,
    booked: bool,
}

impl View for Order {
    type V = OrderV;

    closed spec fn view(&self) -> OrderV {
        OrderV {
            id: self.id@,
            side: self.side,
            px: self.px,
            orig_size: self.orig_size@,
            open_size: self.open_size@,
            booked: self.booked,
        }
    }
}

/// Aggregates for one (side, price) slot, plus the queue of its orders in
/// arrival order.
pub struct PriceLevel {
    orders: Vec<usize>,
    total_size: Price,
    open_size: Price,
}

impl View for PriceLevel {
    type V = LevelV;

    closed spec fn view(&self) -> LevelV {
        LevelV {
            total: self.total_size@,
            open: self.open_size@,
            queue: self.orders@.map(|n: int, v: usize| v as int),
        }
    }
}

/// Index of the order with this id, searching from the youngest entry;
/// `-1` when no order carries the id.
pub open spec fn find_order(os: Seq<OrderV>, id: Seq<char>) -> int
    decreases os.len(),
{
    if os.len() == 0 {
        -1
    } else if os.last().id == id {
        os.len() - 1
    } else {
        find_order(os.drop_last(), id)
    }
}

/// Index of the level keyed by this price, searching from the youngest
/// entry; `-1` when the price has no level.
pub open spec fn find_level(ls: Seq<(OrderPrice, PriceLevel)>, px: OrderPrice) -> int
    decreases ls.len(),
{
    if ls.len() == 0 {
        -1
    } else if ls.last().0 == px {
        ls.len() - 1
    } else {
        find_level(ls.drop_last(), px)
    }
}

/// What an order contributes to its level's open size: its open size while
/// booked, nothing otherwise.
pub open spec fn open_contrib(o: OrderV) -> int {
    if o.booked {
        o.open_size
    } else {
        0
    }
}

/// Sum of the open-size contributions of the orders at the given arena
/// indices.
pub open spec fn sum_open(os: Seq<OrderV>, q: Seq<int>) -> int
    decreases q.len(),
{
    if q.len() == 0 {
        0
    } else {
        sum_open(os, q.drop_last()) + open_contrib(os[q.last()])
    }
}

/// Sum of the original sizes of the orders at the given arena indices.
pub open spec fn sum_orig(os: Seq<OrderV>, q: Seq<int>) -> int
    decreases q.len(),
{
    if q.len() == 0 {
        0
    } else {
        sum_orig(os, q.drop_last()) + os[q.last()].orig_size
    }
}

/// Sum of the open sizes of all booked orders at (side, px), taken over the
/// whole arena.
pub open spec fn booked_open_sum(os: Seq<OrderV>, side: Side, px: OrderPrice) -> int
    decreases os.len(),
{
    if os.len() == 0 {
        0
    } else {
        booked_open_sum(os.drop_last(), side, px) + (if os.last().side == side && os.last().px
            == px {
            open_contrib(os.last())
        } else {
            0
        })
    }
}

// Facts about the search and summation functions.

proof fn lemma_find_order_props(os: Seq<OrderV>, id: Seq<char>)
    ensures
        find_order(os, id) == -1 ==> forall|i: int| 0 <= i < os.len() ==> (#[trigger] os[i].id)
            != id,
        find_order(os, id) != -1 ==> 0 <= find_order(os, id) < os.len() && os[find_order(
            os,
            id,
        )].id == id,
    decreases os.len(),
{
    if os.len() > 0 && os.last().id != id {
        lemma_find_order_props(os.drop_last(), id);
        if find_order(os, id) == -1 {
            assert forall|i: int| 0 <= i < os.len() implies (#[trigger] os[i].id) != id by {
                if i < os.len() - 1 {
                    assert(os.drop_last()[i] == os[i]);
                }
            }
        }
    }
}

proof fn lemma_find_order_congruent(os1: Seq<OrderV>, os2: Seq<OrderV>, id: Seq<char>)
    requires
        os1.len() == os2.len(),
        forall|i: int| 0 <= i < os1.len() ==> (#[trigger] os1[i].id) == os2[i].id,
    ensures
        find_order(os1, id) == find_order(os2, id),
    decreases os1.len(),
{
    if os1.len() > 0 {
        lemma_find_order_congruent(os1.drop_last(), os2.drop_last(), id);
    }
}

proof fn lemma_find_level_props(ls: Seq<(OrderPrice, PriceLevel)>, px: OrderPrice)
    ensures
        find_level(ls, px) == -1 ==> forall|k: int| 0 <= k < ls.len() ==> (#[trigger] ls[k].0)
            != px,
        find_level(ls, px) != -1 ==> 0 <= find_level(ls, px) < ls.len() && ls[find_level(
            ls,
            px,
        )].0 == px,
    decreases ls.len(),
{
    if ls.len() > 0 && ls.last().0 != px {
        lemma_find_level_props(ls.drop_last(), px);
        if find_level(ls, px) == -1 {
            assert forall|k: int| 0 <= k < ls.len() implies (#[trigger] ls[k].0) != px by {
                if k < ls.len() - 1 {
                    assert(ls.drop_last()[k] == ls[k]);
                }
            }
        }
    }
}

proof fn lemma_find_level_congruent(
    ls1: Seq<(OrderPrice, PriceLevel)>,
    ls2: Seq<(OrderPrice, PriceLevel)>,
    px: OrderPrice,
)
    requires
        ls1.len() == ls2.len(),
        forall|k: int| 0 <= k < ls1.len() ==> (#[trigger] ls1[k].0) == ls2[k].0,
    ensures
        find_level(ls1, px) == find_level(ls2, px),
    decreases ls1.len(),
{
    if ls1.len() > 0 {
        lemma_find_level_congruent(ls1.drop_last(), ls2.drop_last(), px);
    }
}

proof fn lemma_sum_open_congruent(os1: Seq<OrderV>, os2: Seq<OrderV>, q: Seq<int>)
    requires
        forall|n: int| #![trigger q[n]] 0 <= n < q.len() ==> open_contrib(os1[q[n]])
            == open_contrib(os2[q[n]]),
    ensures
        sum_open(os1, q) == sum_open(os2, q),
    decreases q.len(),
{
    if q.len() > 0 {
        lemma_sum_open_congruent(os1, os2, q.drop_last());
    }
}

proof fn lemma_sum_orig_congruent(os1: Seq<OrderV>, os2: Seq<OrderV>, q: Seq<int>)
    requires
        forall|n: int| #![trigger q[n]] 0 <= n < q.len() ==> os1[q[n]].orig_size
            == os2[q[n]].orig_size,
    ensures
        sum_orig(os1, q) == sum_orig(os2, q),
    decreases q.len(),
{
    if q.len() > 0 {
        lemma_sum_orig_congruent(os1, os2, q.drop_last());
    }
}

proof fn lemma_sum_open_update(os: Seq<OrderV>, j: int, o2: OrderV, q: Seq<int>)
    requires
        0 <= j < os.len(),
        forall|n: int| #![trigger q[n]] 0 <= n < q.len() ==> 0 <= q[n] < os.len(),
        forall|m: int, n: int| #![trigger q[m], q[n]] 0 <= m < n < q.len() ==> q[m] != q[n],
        q.contains(j),
    ensures
        sum_open(os.update(j, o2), q) == sum_open(os, q) + open_contrib(o2) - open_contrib(
            os[j],
        ),
    decreases q.len(),
{
    let os2 = os.update(j, o2);
    let dl = q.drop_last();
    if q.last() == j {
        assert(forall|n: int| #![trigger dl[n]] 0 <= n < dl.len() ==> dl[n] != j);
        lemma_sum_open_congruent(os, os2, dl);
    } else {
        let m = choose|m: int| 0 <= m < q.len() && q[m] == j;
        assert(dl[m] == j);
        assert(dl.contains(j));
        lemma_sum_open_update(os, j, o2, dl);
    }
}

proof fn lemma_sum_open_nonneg(os: Seq<OrderV>, q: Seq<int>)
    requires
        forall|n: int| #![trigger q[n]] 0 <= n < q.len() ==> os[q[n]].open_size >= 0,
    ensures
        sum_open(os, q) >= 0,
    decreases q.len(),
{
    if q.len() > 0 {
        lemma_sum_open_nonneg(os, q.drop_last());
    }
}

proof fn lemma_sum_open_lower(os: Seq<OrderV>, q: Seq<int>, m: int)
    requires
        forall|n: int| #![trigger q[n]] 0 <= n < q.len() ==> os[q[n]].open_size >= 0,
        forall|a: int, b: int| #![trigger q[a], q[b]] 0 <= a < b < q.len() ==> q[a] != q[b],
        0 <= m < q.len(),
    ensures
        sum_open(os, q) >= open_contrib(os[q[m]]),
    decreases q.len(),
{
    if m == q.len() - 1 {
        lemma_sum_open_nonneg(os, q.drop_last());
    } else {
        lemma_sum_open_lower(os, q.drop_last(), m);
    }
}

proof fn lemma_sum_open_le_orig(os: Seq<OrderV>, q: Seq<int>)
    requires
        forall|n: int| #![trigger q[n]] 0 <= n < q.len() ==> open_contrib(os[q[n]])
            <= os[q[n]].orig_size,
    ensures
        sum_open(os, q) <= sum_orig(os, q),
    decreases q.len(),
{
    if q.len() > 0 {
        lemma_sum_open_le_orig(os, q.drop_last());
    }
}

proof fn lemma_sum_singleton(os: Seq<OrderV>, j: int)
    ensures
        sum_orig(os, seq![j]) == os[j].orig_size,
        sum_open(os, seq![j]) == open_contrib(os[j]),
{
    let q = seq![j];
    assert(q.last() == j);
    assert(q.drop_last() =~= Seq::<int>::empty());
    assert(sum_orig(os, Seq::<int>::empty()) == 0);
    assert(sum_open(os, Seq::<int>::empty()) == 0);
}

// Well-formedness of the pieces.

/// The queue of a level at (side, px) lists, without repetition, in-range
/// orders that all carry exactly this side and price, and the two stored
/// aggregates equal the corresponding sums over the queue.
pub open spec fn level_wf(os: Seq<OrderV>, side: Side, px: OrderPrice, lv: LevelV) -> bool {
    &&& forall|n: int| #![trigger lv.queue[n]] 0 <= n < lv.queue.len() ==> 0 <= lv.queue[n]
        < os.len() && os[lv.queue[n]].side == side && os[lv.queue[n]].px == px
    &&& forall|m: int, n: int| #![trigger lv.queue[m], lv.queue[n]] 0 <= m < n < lv.queue.len()
        ==> lv.queue[m] != lv.queue[n]
    &&& lv.total == sum_orig(os, lv.queue)
    &&& lv.open == sum_open(os, lv.queue)
    &&& lv.open >= 0
    &&& lv.open <= lv.total
}

/// Orders carry pairwise distinct ids and non-negative sizes, and a booked
/// order is never open beyond its original size.
pub open spec fn orders_wf(os: Seq<OrderV>) -> bool {
    &&& forall|a: int, b: int| 0 <= a < b < os.len() ==> (#[trigger] os[a].id) != (
    #[trigger] os[b].id)
    &&& forall|i: int| #![trigger os[i]] 0 <= i < os.len() ==> os[i].open_size >= 0
        && os[i].orig_size >= 0 && (os[i].booked ==> os[i].open_size <= os[i].orig_size)
}

/// One side's level table: distinct keys, each level well formed.
pub open spec fn levels_wf(
    os: Seq<OrderV>,
    side: Side,
    ls: Seq<(OrderPrice, PriceLevel)>,
) -> bool {
    &&& forall|a: int, b: int| 0 <= a < b < ls.len() ==> (#[trigger] ls[a].0) != (
    #[trigger] ls[b].0)
    &&& forall|k: int| #![trigger ls[k]] 0 <= k < ls.len() ==> level_wf(os, side, ls[k].0, ls[k].1@)
}

/// The order at arena index `i` is queued at the level slot matching its own
/// side and price.
pub open spec fn linked_at(
    os: Seq<OrderV>,
    bid: Seq<(OrderPrice, PriceLevel)>,
    ask: Seq<(OrderPrice, PriceLevel)>,
    i: int,
) -> bool {
    let ls = if os[i].side == Side::Bid {
        bid
    } else {
        ask
    };
    let k = find_level(ls, os[i].px);
    k >= 0 && ls[k].1@.queue.contains(i)
}

/// Every order is queued at the level slot matching its own side and price.
pub open spec fn linked(
    os: Seq<OrderV>,
    bid: Seq<(OrderPrice, PriceLevel)>,
    ask: Seq<(OrderPrice, PriceLevel)>,
) -> bool {
    forall|i: int| 0 <= i < os.len() ==> #[trigger] linked_at(os, bid, ask, i)
}

/// The side opposite the given one.
pub open spec fn opposite(side: Side) -> Side {
    match side {
        Side::Bid => Side::Ask,
        Side::Ask => Side::Bid,
    }
}

/// How one side's level table changes when the order at arena index `idx`,
/// of original size `orig`, is added at price `px`: the level keyed `px` is
/// extended, or freshly created at the end of the table, and nothing else
/// moves.
pub open spec fn level_added(
    ls1: Seq<(OrderPrice, PriceLevel)>,
    ls2: Seq<(OrderPrice, PriceLevel)>,
    px: OrderPrice,
    idx: int,
    orig: int,
) -> bool {
    let f = find_level(ls1, px);
    if f >= 0 {
        &&& ls2.len() == ls1.len()
        &&& forall|a: int| 0 <= a < ls1.len() && a != f ==> ls2[a] == #[trigger] ls1[a]
        &&& ls2[f].0 == ls1[f].0
        &&& ls2[f].1@ == (LevelV {
            total: ls1[f].1@.total + orig,
            open: ls1[f].1@.open,
            queue: ls1[f].1@.queue.push(idx),
        })
    } else {
        &&& ls2.len() == ls1.len() + 1
        &&& forall|a: int| 0 <= a < ls1.len() ==> ls2[a] == #[trigger] ls1[a]
        &&& ls2.last().0 == px
        &&& ls2.last().1@ == (LevelV { total: orig, open: 0, queue: seq![idx] })
    }
}

/// How one side's level table changes when the level at position `k` has
/// `delta` added to its open size and nothing else moves.
pub open spec fn level_opened(
    ls1: Seq<(OrderPrice, PriceLevel)>,
    ls2: Seq<(OrderPrice, PriceLevel)>,
    k: int,
    delta: int,
) -> bool {
    &&& ls2.len() == ls1.len()
    &&& forall|a: int| 0 <= a < ls1.len() && a != k ==> ls2[a] == #[trigger] ls1[a]
    &&& ls2[k].0 == ls1[k].0
    &&& ls2[k].1@ == (LevelV {
        total: ls1[k].1@.total,
        open: ls1[k].1@.open + delta,
        queue: ls1[k].1@.queue,
    })
}

/// The whole book, double-indexed: orders by id, levels by side and price.
pub struct Book {
    orders: Vec<Order>,
    bid: Vec<(OrderPrice, PriceLevel)>,
    ask: Vec<(OrderPrice, PriceLevel)>,
}

impl Book {
    /// The order arena, in arrival order.
    pub closed spec fn orders_view(self) -> Seq<OrderV> {
        self.orders@.map(|n: int, o: Order| o@)
    }

    /// One side's level table, in creation order.
    pub closed spec fn levels_of(self, side: Side) -> Seq<(OrderPrice, PriceLevel)> {
        match side {
            Side::Bid => self.bid@,
            Side::Ask => self.ask@,
        }
    }

    pub open spec fn spec_has_order(self, id: Seq<char>) -> bool {
        find_order(self.orders_view(), id) >= 0
    }

    pub open spec fn spec_order(self, id: Seq<char>) -> OrderV {
        self.orders_view()[find_order(self.orders_view(), id)]
    }

    pub open spec fn spec_has_level(self, side: Side, px: OrderPrice) -> bool {
        find_level(self.levels_of(side), px) >= 0
    }

    pub open spec fn spec_level(self, side: Side, px: OrderPrice) -> LevelV {
        self.levels_of(side)[find_level(self.levels_of(side), px)].1@
    }

    /// Total size of the level at (side, px), or zero while no such level
    /// exists.
    pub open spec fn spec_level_total(self, side: Side, px: OrderPrice) -> int {
        if self.spec_has_level(side, px) {
            self.spec_level(side, px).total
        } else {
            0
        }
    }

    /// Open size of the level at (side, px), or zero while no such level
    /// exists.
    pub open spec fn spec_level_open(self, side: Side, px: OrderPrice) -> int {
        if self.spec_has_level(side, px) {
            self.spec_level(side, px).open
        } else {
            0
        }
    }

    /// The book invariant; every public operation preserves it.
    pub open spec fn wf(self) -> bool {
        &&& orders_wf(self.orders_view())
        &&& levels_wf(self.orders_view(), Side::Bid, self.levels_of(Side::Bid))
        &&& levels_wf(self.orders_view(), Side::Ask, self.levels_of(Side::Ask))
        &&& linked(self.orders_view(), self.levels_of(Side::Bid), self.levels_of(Side::Ask))
    }

    pub fn new() -> (r: Book)
        ensures
            r.wf(),
            r.orders_view() == Seq::<OrderV>::empty(),
            forall|id: Seq<char>| !r.spec_has_order(id),
            forall|side: Side, px: OrderPrice| !r.spec_has_level(side, px),
    {
        Book { orders: Vec::new(), bid: Vec::new(), ask: Vec::new() }
    }
}

impl PriceLevel {
    fn new() -> (r: PriceLevel)
        ensures
            r@.total == 0,
            r@.open == 0,
            r@.queue == Seq::<int>::empty(),
    {
        let r = PriceLevel { orders: Vec::new(), total_size: Price::zero(), open_size: Price::zero() };
        proof {
            assert(r@.queue =~= Seq::<int>::empty());
        }
        r
    }

    /// Total size ever added at this level.
    pub fn total_size(&self) -> (r: Price)
        ensures
            r@ == self@.total,
    {
        self.total_size
    }

    /// Open (booked) size currently resting at this level.
    pub fn open_size(&self) -> (r: Price)
        ensures
            r@ == self@.open,
    {
        self.open_size
    }

    /// Appends the order at arena index `idx` and accrues its original size.
    fn on_add(&mut self, idx: usize, orig: Price)
        requires
            orig@ >= 0,
            old(self)@.total + orig@ <= i64::MAX,
        ensures
            final(self)@.total == old(self)@.total + orig@,
            final(self)@.open == old(self)@.open,
            final(self)@.queue == old(self)@.queue.push(idx as int),
    {
        self.total_size = self.total_size.add(orig);
        self.orders.push(idx);
        proof {
            assert(self@.queue =~= old(self)@.queue.push(idx as int));
        }
    }

    /// A queued order became visible: its booked size joins the aggregate.
    fn on_open(&mut self, size: Price)
        requires
            size@ >= 0,
            old(self)@.open + size@ <= i64::MAX,
        ensures
            final(self)@.total == old(self)@.total,
            final(self)@.open == old(self)@.open + size@,
            final(self)@.queue == old(self)@.queue,
    {
        self.open_size = self.open_size.add(size);
    }

    /// A resting (maker) order traded: the traded size leaves the aggregate.
    fn on_match_maker(&mut self, size: Price)
        requires
            0 <= size@ <= old(self)@.open,
        ensures
            final(self)@.total == old(self)@.total,
            final(self)@.open == old(self)@.open - size@,
            final(self)@.queue == old(self)@.queue,
    {
        self.open_size = self.open_size.sub(size);
    }

    /// An order shrank by `delta` (which is never positive).
    fn on_change(&mut self, delta: Price)
        requires
            delta@ <= 0,
            old(self)@.open + delta@ >= 0,
        ensures
            final(self)@.total == old(self)@.total,
            final(self)@.open == old(self)@.open + delta@,
            final(self)@.queue == old(self)@.queue,
    {
        self.open_size = self.open_size.add(delta);
    }

    /// An order left the book; its residual open size leaves the aggregate.
    fn on_done(&mut self, size: Price)
        requires
            0 <= size@ <= old(self)@.open,
        ensures
            final(self)@.total == old(self)@.total,
            final(self)@.open == old(self)@.open - size@,
            final(self)@.queue == old(self)@.queue,
    {
        self.open_size = self.open_size.sub(size);
    }
}

impl Order {
    /// A fresh order; it is not booked until its Open arrives.
    pub fn new(id: String, side: Side, px: OrderPrice, size: Price) -> (r: Order)
        ensures
            r@ == (OrderV {
                id: id@,
                side,
                px,
                orig_size: size@,
                open_size: size@,
                booked: false,
            }),
    {
        Order { id, side, px, orig_size: size, open_size: size, booked: false }
    }

    fn on_open(&mut self, remaining_size: Price)
        requires
            remaining_size@ >= 0,
        ensures
            final(self)@ == (OrderV {
                open_size: remaining_size@,
                booked: true,
                ..old(self)@
            }),
    {
        self.open_size = remaining_size;
        self.booked = true;
    }

    fn on_match_maker(&mut self, size: Price)
        requires
            0 <= size@ <= old(self)@.open_size,
        ensures
            final(self)@ == (OrderV { open_size: old(self)@.open_size - size@, ..old(self)@ }),
    {
        self.open_size = self.open_size.sub(size);
    }

    fn on_change(&mut self, delta: Price)
        requires
            delta@ <= 0,
            old(self)@.open_size + delta@ >= 0,
        ensures
            final(self)@ == (OrderV { open_size: old(self)@.open_size + delta@, ..old(self)@ }),
    {
        self.open_size = self.open_size.add(delta);
    }

    /// The aggressing (taker) side of a match: deliberately a no-op, as the
    /// observer tracks takers only through their own later events.
    #[allow(dead_code)]
    fn on_match_taker(&mut self, _size: Price)
        ensures
            final(self)@ == old(self)@,
    {
    }

    /// The order's id.
    pub fn id(&self) -> (r: &String)
        ensures
            r@ == self@.id,
    {
        &self.id
    }

    /// The side the order rests on.
    pub fn side(&self) -> (r: Side)
        ensures
            r == self@.side,
    {
        self.side
    }

    /// The order's price, or `Market`.
    pub fn px(&self) -> (r: OrderPrice)
        ensures
            r == self@.px,
    {
        self.px
    }

    /// The size the order was placed with.
    pub fn orig_size(&self) -> (r: Price)
        ensures
            r@ == self@.orig_size,
    {
        self.orig_size
    }

    /// The size still open.
    pub fn open_size(&self) -> (r: Price)
        ensures
            r@ == self@.open_size,
    {
        self.open_size
    }

    /// Whether the order is currently booked (between Open and Done).
    pub fn is_booked(&self) -> (r: bool)
        ensures
            r == self@.booked,
    {
        self.booked
    }

    /// Final transition: hands back the residual open size and takes the
    /// order off the book.  A fill must leave nothing open.
    fn on_done(&mut self, reason: DoneReason) -> (r: Price)
        requires
            reason == DoneReason::Filled ==> old(self)@.open_size == 0,
        ensures
            r@ == old(self)@.open_size,
            final(self)@ == (OrderV { booked: false, ..old(self)@ }),
    {
        self.booked = false;
        self.open_size
    }
}

impl Book {
    /// Backward scan for the order carrying `id`; agrees with `find_order`.
    fn find_order_idx(&self, id: &String) -> (r: Option<usize>)
        ensures
            (match r {
                Some(j) => j < self.orders@.len() && j as int == find_order(
                    self.orders_view(),
                    id@,
                ),
                None => find_order(self.orders_view(), id@) == -1,
            }),
    {
        let ghost os = self.orders_view();
        let n = self.orders.len();
        let mut i: usize = n;
        proof {
            assert(os.take(n as int) =~= os);
        }
        while i > 0
            invariant
                i <= n,
                n == self.orders@.len(),
                os == self.orders_view(),
                os.len() == n,
                find_order(os, id@) == find_order(os.take(i as int), id@),
            decreases i,
        {
            i = i - 1;
            proof {
                assert(os[i as int] == self.orders@[i as int]@);
                assert(os.take(i + 1).last() == os[i as int]);
                assert(os.take(i + 1).drop_last() =~= os.take(i as int));
            }
            if self.orders[i].id == *id {
                return Some(i);
            }
        }
        None
    }

    /// Backward scan for the level keyed `px`; agrees with `find_level`.
    fn find_level_idx(ls: &Vec<(OrderPrice, PriceLevel)>, px: &OrderPrice) -> (r: Option<usize>)
        ensures
            (match r {
                Some(k) => k < ls@.len() && k as int == find_level(ls@, *px),
                None => find_level(ls@, *px) == -1,
            }),
    {
        let n = ls.len();
        let mut i: usize = n;
        proof {
            assert(ls@.take(n as int) =~= ls@);
        }
        while i > 0
            invariant
                i <= n,
                n == ls@.len(),
                find_level(ls@, *px) == find_level(ls@.take(i as int), *px),
            decreases i,
        {
            i = i - 1;
            proof {
                assert(ls@.take(i + 1).last() == ls@[i as int]);
                assert(ls@.take(i + 1).drop_last() =~= ls@.take(i as int));
            }
            if ls[i].0 == *px {
                return Some(i);
            }
        }
        None
    }

    /// Looks up the level keyed `px`, creating it if absent, and applies its
    /// add hook for the order at arena index `idx` with original size `orig`.
    fn level_add(ls: &mut Vec<(OrderPrice, PriceLevel)>, px: OrderPrice, idx: usize, orig: Price)
        requires
            orig@ >= 0,
            find_level(old(ls)@, px) >= 0 ==> old(ls)@[find_level(old(ls)@, px)].1@.total + orig@
                <= i64::MAX,
        ensures
            level_added(old(ls)@, final(ls)@, px, idx as int, orig@),
    {
        match Self::find_level_idx(ls, &px) {
            Some(k) => {
                ls[k].1.on_add(idx, orig);
            },
            None => {
                let mut lv = PriceLevel::new();
                lv.on_add(idx, orig);
                proof {
                    assert(lv@.queue =~= seq![idx as int]);
                }
                ls.push((px, lv));
            },
        }
    }

    /// A new order arrived: it joins the arena and its (side, price) level,
    /// which accrues its original size.  The order is not yet booked, so no
    /// level's open size moves.
    pub fn on_add(&mut self, event: &NewOrderEvent)
        requires
            old(self).wf(),
            !old(self).spec_has_order(event.order_id@),
            event.orig_size@ >= 0,
            event.open_size@ >= 0,
            old(self).spec_level_total(event.side, event.px) + event.orig_size@ <= i64::MAX,
        ensures
            final(self).wf(),
            final(self).orders_view() == old(self).orders_view().push(
                (OrderV {
                    id: event.order_id@,
                    side: event.side,
                    px: event.px,
                    orig_size: event.orig_size@,
                    open_size: event.open_size@,
                    booked: false,
                }),
            ),
            final(self).spec_has_order(event.order_id@),
            final(self).spec_order(event.order_id@) == (OrderV {
                id: event.order_id@,
                side: event.side,
                px: event.px,
                orig_size: event.orig_size@,
                open_size: event.open_size@,
                booked: false,
            }),
            forall|id2: Seq<char>|
                id2 != event.order_id@ ==> #[trigger] final(self).spec_has_order(id2)
                    == old(self).spec_has_order(id2),
            forall|id2: Seq<char>|
                id2 != event.order_id@ && old(self).spec_has_order(id2)
                    ==> #[trigger] final(self).spec_order(id2) == old(self).spec_order(id2),
            final(self).spec_has_level(event.side, event.px),
            final(self).spec_level(event.side, event.px).total == old(self).spec_level_total(
                event.side,
                event.px,
            ) + event.orig_size@,
            final(self).spec_level(event.side, event.px).open == old(self).spec_level_open(
                event.side,
                event.px,
            ),
            forall|s: Side, p: OrderPrice|
                !(s == event.side && p == event.px) ==> #[trigger] final(self).spec_has_level(s, p)
                    == old(self).spec_has_level(s, p),
            forall|s: Side, p: OrderPrice|
                !(s == event.side && p == event.px) && old(self).spec_has_level(s, p)
                    ==> #[trigger] final(self).spec_level(s, p) == old(self).spec_level(s, p),
            forall|s: Side, p: OrderPrice|
                #[trigger] final(self).spec_level_total(s, p) >= old(self).spec_level_total(s, p),
    {
        let ghost b1 = *self;
        let idx = self.orders.len();
        let ord = Order {
            id: event.order_id.clone(),
            side: event.side,
            px: event.px,
            orig_size: event.orig_size,
            open_size: event.open_size,
            booked: false,
        };
        let ghost o = ord@;
        self.orders.push(ord);
        proof {
            assert(self.orders_view() =~= b1.orders_view().push(o));
        }
        match event.side {
            Side::Bid => Self::level_add(&mut self.bid, event.px, idx, event.orig_size),
            Side::Ask => Self::level_add(&mut self.ask, event.px, idx, event.orig_size),
        }
        proof {
            assert(self.levels_of(opposite(o.side)) == b1.levels_of(opposite(o.side)));
            assert(level_added(
                b1.levels_of(o.side),
                self.levels_of(o.side),
                o.px,
                idx as int,
                o.orig_size,
            ));
            lemma_add_preserves(b1, *self, o);
        }
    }

    /// A resting order became visible: its open size is set to the event's
    /// remaining size and joins its level's open aggregate.
    pub fn on_open(&mut self, event: &OpenEvent)
        requires
            old(self).wf(),
            old(self).spec_has_order(event.order_id@),
            !old(self).spec_order(event.order_id@).booked,
            0 <= event.remaining_size@ <= old(self).spec_order(event.order_id@).orig_size,
        ensures
            final(self).wf(),
            forall|id2: Seq<char>|
                #[trigger] final(self).spec_has_order(id2) == old(self).spec_has_order(id2),
            final(self).spec_order(event.order_id@) == (OrderV {
                open_size: event.remaining_size@,
                booked: true,
                ..old(self).spec_order(event.order_id@)
            }),
            forall|id2: Seq<char>|
                id2 != event.order_id@ && old(self).spec_has_order(id2)
                    ==> #[trigger] final(self).spec_order(id2) == old(self).spec_order(id2),
            forall|s: Side, p: OrderPrice|
                #[trigger] final(self).spec_has_level(s, p) == old(self).spec_has_level(s, p),
            ({
                let o = old(self).spec_order(event.order_id@);
                final(self).spec_level(o.side, o.px) == (LevelV {
                    total: old(self).spec_level(o.side, o.px).total,
                    open: old(self).spec_level(o.side, o.px).open + event.remaining_size@,
                    queue: old(self).spec_level(o.side, o.px).queue,
                })
            }),
            ({
                let o = old(self).spec_order(event.order_id@);
                forall|s: Side, p: OrderPrice|
                    !(s == o.side && p == o.px) && old(self).spec_has_level(s, p)
                        ==> #[trigger] final(self).spec_level(s, p) == old(self).spec_level(s, p)
            }),
            forall|s: Side, p: OrderPrice|
                #[trigger] final(self).spec_level_total(s, p) == old(self).spec_level_total(s, p),
    {
        let ghost b1 = *self;
        let ghost id = event.order_id@;
        let ghost os1 = b1.orders_view();
        let j = self.find_order_idx(&event.order_id).unwrap();
        let ghost jv = j as int;
        let side = self.orders[j].side;
        let px = self.orders[j].px;
        proof {
            lemma_find_order_props(os1, id);
            assert(os1[jv] == self.orders@[jv]@);
            assert(side == b1.spec_order(id).side && px == b1.spec_order(id).px);
            assert(linked_at(os1, b1.levels_of(Side::Bid), b1.levels_of(Side::Ask), jv));
        }
        let k_opt = match side {
            Side::Bid => Self::find_level_idx(&self.bid, &px),
            Side::Ask => Self::find_level_idx(&self.ask, &px),
        };
        let k = k_opt.unwrap();
        let ghost kv = k as int;
        let ghost ls1 = b1.levels_of(side);

        self.orders[j].on_open(event.remaining_size);
        let ghost o2 = (OrderV { open_size: event.remaining_size@, booked: true, ..os1[jv] });
        proof {
            bounds::lemma_level_in_range(ls1[kv].1);
            assert(self.orders@[jv]@ == o2);
            assert(self.orders_view() =~= os1.update(jv, o2));
            let os2 = self.orders_view();
            let lv1 = ls1[kv].1@;
            let q = lv1.queue;
            assert(levels_wf(os1, side, ls1));
            assert(level_wf(os1, side, ls1[kv].0, lv1));
            assert(q.contains(jv));
            lemma_sum_open_update(os1, jv, o2, q);
            assert forall|n: int| #![trigger q[n]] 0 <= n < q.len() implies os2[q[n]].open_size
                >= 0 && open_contrib(os2[q[n]]) <= os2[q[n]].orig_size && os2[q[n]].orig_size
                == os1[q[n]].orig_size by {
                if q[n] != jv {
                    assert(os2[q[n]] == os1[q[n]]);
                }
            }
            lemma_sum_open_le_orig(os2, q);
            lemma_sum_orig_congruent(os1, os2, q);
            assert(open_contrib(os1[jv]) == 0);
            assert(sum_open(os2, q) == lv1.open + event.remaining_size@);
            assert(sum_open(os2, q) <= lv1.total);
            assert(lv1.open + event.remaining_size@ <= i64::MAX);
        }
        match side {
            Side::Bid => self.bid[k].1.on_open(event.remaining_size),
            Side::Ask => self.ask[k].1.on_open(event.remaining_size),
        }
        proof {
            assert(self.levels_of(opposite(side)) == b1.levels_of(opposite(side)));
            assert(open_contrib(o2) - open_contrib(b1.spec_order(id)) == event.remaining_size@);
            assert(level_opened(ls1, self.levels_of(side), kv, event.remaining_size@));
            lemma_update_preserves(b1, *self, id, o2);
        }
    }

    /// A trade against a resting (maker) order: the traded size leaves both
    /// the maker's open size and its level's open aggregate.  The taker needs
    /// no state change in this observer.
    pub fn on_match(&mut self, event: &MatchEvent)
        requires
            old(self).wf(),
            old(self).spec_has_order(event.maker_order_id@),
            old(self).spec_order(event.maker_order_id@).booked,
            0 <= event.size@ <= old(self).spec_order(event.maker_order_id@).open_size,
        ensures
            final(self).wf(),
            forall|id2: Seq<char>|
                #[trigger] final(self).spec_has_order(id2) == old(self).spec_has_order(id2),
            final(self).spec_order(event.maker_order_id@) == (OrderV {
                open_size: old(self).spec_order(event.maker_order_id@).open_size - event.size@,
                ..old(self).spec_order(event.maker_order_id@)
            }),
            forall|id2: Seq<char>|
                id2 != event.maker_order_id@ && old(self).spec_has_order(id2)
                    ==> #[trigger] final(self).spec_order(id2) == old(self).spec_order(id2),
            forall|s: Side, p: OrderPrice|
                #[trigger] final(self).spec_has_level(s, p) == old(self).spec_has_level(s, p),
            ({
                let o = old(self).spec_order(event.maker_order_id@);
                final(self).spec_level(o.side, o.px) == (LevelV {
                    total: old(self).spec_level(o.side, o.px).total,
                    open: old(self).spec_level(o.side, o.px).open - event.size@,
                    queue: old(self).spec_level(o.side, o.px).queue,
                })
            }),
            ({
                let o = old(self).spec_order(event.maker_order_id@);
                forall|s: Side, p: OrderPrice|
                    !(s == o.side && p == o.px) && old(self).spec_has_level(s, p)
                        ==> #[trigger] final(self).spec_level(s, p) == old(self).spec_level(s, p)
            }),
            forall|s: Side, p: OrderPrice|
                #[trigger] final(self).spec_level_total(s, p) == old(self).spec_level_total(s, p),
    {
        let ghost b1 = *self;
        let ghost id = event.maker_order_id@;
        let ghost os1 = b1.orders_view();
        let j = self.find_order_idx(&event.maker_order_id).unwrap();
        let ghost jv = j as int;
        let side = self.orders[j].side;
        let px = self.orders[j].px;
        proof {
            lemma_find_order_props(os1, id);
            assert(os1[jv] == self.orders@[jv]@);
            assert(side == b1.spec_order(id).side && px == b1.spec_order(id).px);
            assert(linked_at(os1, b1.levels_of(Side::Bid), b1.levels_of(Side::Ask), jv));
        }
        let k_opt = match side {
            Side::Bid => Self::find_level_idx(&self.bid, &px),
            Side::Ask => Self::find_level_idx(&self.ask, &px),
        };
        let k = k_opt.unwrap();
        let ghost kv = k as int;
        let ghost ls1 = b1.levels_of(side);

        self.orders[j].on_match_maker(event.size);
        let ghost o2 = (OrderV { open_size: os1[jv].open_size - event.size@, ..os1[jv] });
        proof {
            assert(self.orders@[jv]@ == o2);
            assert(self.orders_view() =~= os1.update(jv, o2));
            let lv1 = ls1[kv].1@;
            let q = lv1.queue;
            assert(levels_wf(os1, side, ls1));
            assert(level_wf(os1, side, ls1[kv].0, lv1));
            assert(q.contains(jv));
            let m = choose|m: int| 0 <= m < q.len() && q[m] == jv;
            assert forall|n: int| #![trigger q[n]] 0 <= n < q.len() implies os1[q[n]].open_size
                >= 0 by {
            }
            lemma_sum_open_lower(os1, q, m);
            assert(lv1.open >= open_contrib(os1[jv]));
            assert(lv1.open >= event.size@);
        }
        match side {
            Side::Bid => self.bid[k].1.on_match_maker(event.size),
            Side::Ask => self.ask[k].1.on_match_maker(event.size),
        }
        proof {
            assert(self.levels_of(opposite(side)) == b1.levels_of(opposite(side)));
            assert(open_contrib(o2) - open_contrib(b1.spec_order(id)) == -event.size@);
            assert(level_opened(ls1, self.levels_of(side), kv, -event.size@));
            lemma_update_preserves(b1, *self, id, o2);
        }
    }

    /// An order shrank: the difference between the new and old size (never
    /// positive) is applied to the order and to its level.  A change on an
    /// order that is not booked must carry no size difference.
    pub fn on_change(&mut self, event: &ChangeEvent)
        requires
            old(self).wf(),
            old(self).spec_has_order(event.order_id@),
            0 <= event.new_size_or_funds@ <= event.old_size_or_funds@,
            old(self).spec_order(event.order_id@).open_size + event.new_size_or_funds@
                - event.old_size_or_funds@ >= 0,
            !old(self).spec_order(event.order_id@).booked ==> event.new_size_or_funds@
                == event.old_size_or_funds@,
        ensures
            final(self).wf(),
            forall|id2: Seq<char>|
                #[trigger] final(self).spec_has_order(id2) == old(self).spec_has_order(id2),
            final(self).spec_order(event.order_id@) == (OrderV {
                open_size: old(self).spec_order(event.order_id@).open_size
                    + event.new_size_or_funds@ - event.old_size_or_funds@,
                ..old(self).spec_order(event.order_id@)
            }),
            forall|id2: Seq<char>|
                id2 != event.order_id@ && old(self).spec_has_order(id2)
                    ==> #[trigger] final(self).spec_order(id2) == old(self).spec_order(id2),
            forall|s: Side, p: OrderPrice|
                #[trigger] final(self).spec_has_level(s, p) == old(self).spec_has_level(s, p),
            ({
                let o = old(self).spec_order(event.order_id@);
                final(self).spec_level(o.side, o.px) == (LevelV {
                    total: old(self).spec_level(o.side, o.px).total,
                    open: old(self).spec_level(o.side, o.px).open + event.new_size_or_funds@
                        - event.old_size_or_funds@,
                    queue: old(self).spec_level(o.side, o.px).queue,
                })
            }),
            ({
                let o = old(self).spec_order(event.order_id@);
                forall|s: Side, p: OrderPrice|
                    !(s == o.side && p == o.px) && old(self).spec_has_level(s, p)
                        ==> #[trigger] final(self).spec_level(s, p) == old(self).spec_level(s, p)
            }),
            forall|s: Side, p: OrderPrice|
                #[trigger] final(self).spec_level_total(s, p) == old(self).spec_level_total(s, p),
    {
        let delta = event.new_size_or_funds.sub(event.old_size_or_funds);
        let ghost b1 = *self;
        let ghost id = event.order_id@;
        let ghost os1 = b1.orders_view();
        let j = self.find_order_idx(&event.order_id).unwrap();
        let ghost jv = j as int;
        let side = self.orders[j].side;
        let px = self.orders[j].px;
        proof {
            lemma_find_order_props(os1, id);
            assert(os1[jv] == self.orders@[jv]@);
            assert(side == b1.spec_order(id).side && px == b1.spec_order(id).px);
            assert(linked_at(os1, b1.levels_of(Side::Bid), b1.levels_of(Side::Ask), jv));
        }
        let k_opt = match side {
            Side::Bid => Self::find_level_idx(&self.bid, &px),
            Side::Ask => Self::find_level_idx(&self.ask, &px),
        };
        let k = k_opt.unwrap();
        let ghost kv = k as int;
        let ghost ls1 = b1.levels_of(side);

        self.orders[j].on_change(delta);
        let ghost o2 = (OrderV { open_size: os1[jv].open_size + delta@, ..os1[jv] });
        proof {
            assert(self.orders@[jv]@ == o2);
            assert(self.orders_view() =~= os1.update(jv, o2));
            let lv1 = ls1[kv].1@;
            let q = lv1.queue;
            assert(levels_wf(os1, side, ls1));
            assert(level_wf(os1, side, ls1[kv].0, lv1));
            assert(q.contains(jv));
            let m = choose|m: int| 0 <= m < q.len() && q[m] == jv;
            assert forall|n: int| #![trigger q[n]] 0 <= n < q.len() implies os1[q[n]].open_size
                >= 0 by {
            }
            lemma_sum_open_lower(os1, q, m);
            assert(lv1.open >= open_contrib(os1[jv]));
            assert(lv1.open + delta@ >= 0);
        }
        match side {
            Side::Bid => self.bid[k].1.on_change(delta),
            Side::Ask => self.ask[k].1.on_change(delta),
        }
        proof {
            assert(self.levels_of(opposite(side)) == b1.levels_of(opposite(side)));
            assert(open_contrib(o2) - open_contrib(b1.spec_order(id)) == delta@);
            assert(level_opened(ls1, self.levels_of(side), kv, delta@));
            lemma_update_preserves(b1, *self, id, o2);
        }
    }

    /// An order left the book.  Its residual open size (zero for a fill)
    /// leaves its level's open aggregate, and the order stops counting
    /// toward it.  An order that was never booked must carry no residual.
    pub fn on_done(&mut self, event: &DoneEvent)
        requires
            old(self).wf(),
            old(self).spec_has_order(event.order_id@),
            event.reason == DoneReason::Filled ==> old(self).spec_order(
                event.order_id@,
            ).open_size == 0,
            !old(self).spec_order(event.order_id@).booked ==> old(self).spec_order(
                event.order_id@,
            ).open_size == 0,
        ensures
            final(self).wf(),
            forall|id2: Seq<char>|
                #[trigger] final(self).spec_has_order(id2) == old(self).spec_has_order(id2),
            final(self).spec_order(event.order_id@) == (OrderV {
                booked: false,
                ..old(self).spec_order(event.order_id@)
            }),
            event.reason == DoneReason::Filled ==> final(self).spec_order(
                event.order_id@,
            ).open_size == 0,
            forall|id2: Seq<char>|
                id2 != event.order_id@ && old(self).spec_has_order(id2)
                    ==> #[trigger] final(self).spec_order(id2) == old(self).spec_order(id2),
            forall|s: Side, p: OrderPrice|
                #[trigger] final(self).spec_has_level(s, p) == old(self).spec_has_level(s, p),
            ({
                let o = old(self).spec_order(event.order_id@);
                final(self).spec_level(o.side, o.px) == (LevelV {
                    total: old(self).spec_level(o.side, o.px).total,
                    open: old(self).spec_level(o.side, o.px).open - o.open_size,
                    queue: old(self).spec_level(o.side, o.px).queue,
                })
            }),
            ({
                let o = old(self).spec_order(event.order_id@);
                forall|s: Side, p: OrderPrice|
                    !(s == o.side && p == o.px) && old(self).spec_has_level(s, p)
                        ==> #[trigger] final(self).spec_level(s, p) == old(self).spec_level(s, p)
            }),
            forall|s: Side, p: OrderPrice|
                #[trigger] final(self).spec_level_total(s, p) == old(self).spec_level_total(s, p),
    {
        let ghost b1 = *self;
        let ghost id = event.order_id@;
        let ghost os1 = b1.orders_view();
        let j = self.find_order_idx(&event.order_id).unwrap();
        let ghost jv = j as int;
        let side = self.orders[j].side;
        let px = self.orders[j].px;
        proof {
            lemma_find_order_props(os1, id);
            assert(os1[jv] == self.orders@[jv]@);
            assert(side == b1.spec_order(id).side && px == b1.spec_order(id).px);
            assert(linked_at(os1, b1.levels_of(Side::Bid), b1.levels_of(Side::Ask), jv));
        }
        let k_opt = match side {
            Side::Bid => Self::find_level_idx(&self.bid, &px),
            Side::Ask => Self::find_level_idx(&self.ask, &px),
        };
        let k = k_opt.unwrap();
        let ghost kv = k as int;
        let ghost ls1 = b1.levels_of(side);

        let residual = self.orders[j].on_done(event.reason);
        let ghost o2 = (OrderV { booked: false, ..os1[jv] });
        proof {
            assert(self.orders@[jv]@ == o2);
            assert(self.orders_view() =~= os1.update(jv, o2));
            let lv1 = ls1[kv].1@;
            let q = lv1.queue;
            assert(levels_wf(os1, side, ls1));
            assert(level_wf(os1, side, ls1[kv].0, lv1));
            assert(q.contains(jv));
            let m = choose|m: int| 0 <= m < q.len() && q[m] == jv;
            assert forall|n: int| #![trigger q[n]] 0 <= n < q.len() implies os1[q[n]].open_size
                >= 0 by {
            }
            lemma_sum_open_lower(os1, q, m);
            assert(lv1.open >= open_contrib(os1[jv]));
            assert(0 <= residual@ <= lv1.open);
        }
        match side {
            Side::Bid => self.bid[k].1.on_done(residual),
            Side::Ask => self.ask[k].1.on_done(residual),
        }
        proof {
            assert(self.levels_of(opposite(side)) == b1.levels_of(opposite(side)));
            assert(open_contrib(o2) - open_contrib(b1.spec_order(id)) == -residual@);
            assert(level_opened(ls1, self.levels_of(side), kv, -residual@));
            lemma_update_preserves(b1, *self, id, o2);
            assert(residual@ == b1.spec_order(id).open_size);
        }
    }

    /// Read accessor for the order carrying `id`.
    pub fn order(&self, id: &String) -> (r: Option<&Order>)
        ensures
            (match r {
                Some(o) => self.spec_has_order(id@) && o@ == self.spec_order(id@),
                None => !self.spec_has_order(id@),
            }),
    {
        match self.find_order_idx(id) {
            Some(j) => {
                proof {
                    assert(self.orders_view()[j as int] == self.orders@[j as int]@);
                }
                Some(&self.orders[j])
            },
            None => None,
        }
    }

    /// Read accessor for the level at (side, px).  Market-order slots are
    /// deliberately not reachable from here.
    pub fn price_level(&self, side: Side, px: Price) -> (r: Option<&PriceLevel>)
        ensures
            (match r {
                Some(l) => self.spec_has_level(side, OrderPrice::Limit(px)) && l@
                    == self.spec_level(side, OrderPrice::Limit(px)),
                None => !self.spec_has_level(side, OrderPrice::Limit(px)),
            }),
    {
        let key = OrderPrice::Limit(px);
        match side {
            Side::Bid => match Self::find_level_idx(&self.bid, &key) {
                Some(k) => Some(&self.bid[k].1),
                None => None,
            },
            Side::Ask => match Self::find_level_idx(&self.ask, &key) {
                Some(k) => Some(&self.ask[k].1),
                None => None,
            },
        }
    }
}

proof fn lemma_add_orders(os1: Seq<OrderV>, os2: Seq<OrderV>, o: OrderV)
    requires
        orders_wf(os1),
        find_order(os1, o.id) < 0,
        o.orig_size >= 0,
        o.open_size >= 0,
        !o.booked,
        os2 == os1.push(o),
    ensures
        orders_wf(os2),
        find_order(os2, o.id) == os1.len(),
        forall|id2: Seq<char>|
            id2 != o.id ==> #[trigger] find_order(os2, id2) == find_order(os1, id2),
{
    let n = os1.len() as int;
    lemma_find_order_props(os1, o.id);
    assert(os2.last() == o);
    assert(os2.drop_last() =~= os1);
    assert(find_order(os2, o.id) == n);
    assert forall|id2: Seq<char>| id2 != o.id implies #[trigger] find_order(os2, id2)
        == find_order(os1, id2) by {
        assert(os2.last().id != id2);
    }
    assert forall|a: int, b: int| 0 <= a < b < os2.len() implies (#[trigger] os2[a].id) != (
    #[trigger] os2[b].id) by {
        if b == n {
            assert(os1[a].id != o.id);
        }
    }
}

proof fn lemma_add_same_side(
    os1: Seq<OrderV>,
    os2: Seq<OrderV>,
    o: OrderV,
    ls1: Seq<(OrderPrice, PriceLevel)>,
    ls2: Seq<(OrderPrice, PriceLevel)>,
)
    requires
        levels_wf(os1, o.side, ls1),
        os2 == os1.push(o),
        o.orig_size >= 0,
        o.open_size >= 0,
        !o.booked,
        level_added(ls1, ls2, o.px, os1.len() as int, o.orig_size),
    ensures
        levels_wf(os2, o.side, ls2),
        find_level(ls2, o.px) >= 0,
        ls2[find_level(ls2, o.px)].1@.queue == (if find_level(ls1, o.px) >= 0 {
            ls1[find_level(ls1, o.px)].1@.queue
        } else {
            Seq::<int>::empty()
        }).push(os1.len() as int),
        ls2[find_level(ls2, o.px)].1@.total == (if find_level(ls1, o.px) >= 0 {
            ls1[find_level(ls1, o.px)].1@.total
        } else {
            0
        }) + o.orig_size,
        ls2[find_level(ls2, o.px)].1@.open == (if find_level(ls1, o.px) >= 0 {
            ls1[find_level(ls1, o.px)].1@.open
        } else {
            0
        }),
        forall|p: OrderPrice|
            p != o.px ==> #[trigger] find_level(ls2, p) == find_level(ls1, p),
        forall|p: OrderPrice|
            p != o.px && find_level(ls1, p) >= 0 ==> #[trigger] ls2[find_level(ls1, p)]
                == ls1[find_level(ls1, p)],
{
    let n = os1.len() as int;
    let side = o.side;
    let f = find_level(ls1, o.px);
    lemma_find_level_props(ls1, o.px);
    assert(forall|i: int| 0 <= i < n ==> #[trigger] os2[i] == os1[i]);

    if f >= 0 {
        assert(forall|a: int| 0 <= a < ls2.len() ==> (#[trigger] ls2[a].0) == ls1[a].0);
        assert forall|p: OrderPrice| p != o.px implies #[trigger] find_level(ls2, p)
            == find_level(ls1, p) by {
            lemma_find_level_congruent(ls1, ls2, p);
        }
        lemma_find_level_congruent(ls1, ls2, o.px);
        assert(find_level(ls2, o.px) == f);
    } else {
        assert(ls2.drop_last() =~= ls1);
        assert forall|p: OrderPrice| p != o.px implies #[trigger] find_level(ls2, p)
            == find_level(ls1, p) by {
            assert(ls2.last().0 != p);
        }
        assert(find_level(ls2, o.px) == ls1.len());
    }
    assert forall|p: OrderPrice| p != o.px && find_level(ls1, p) >= 0 implies #[trigger] ls2[
        find_level(ls1, p)] == ls1[find_level(ls1, p)] by {
        lemma_find_level_props(ls1, p);
    }

    assert forall|a: int, b: int| 0 <= a < b < ls2.len() implies (#[trigger] ls2[a].0) != (
    #[trigger] ls2[b].0) by {
        if f >= 0 {
            assert(ls2[a].0 == ls1[a].0 && ls2[b].0 == ls1[b].0);
        } else if b == ls1.len() {
            assert(ls2[a].0 == ls1[a].0);
            assert(ls1[a].0 != o.px);
        } else {
            assert(ls2[a].0 == ls1[a].0 && ls2[b].0 == ls1[b].0);
        }
    }
    assert forall|k: int| 0 <= k < ls2.len() implies level_wf(
        os2,
        side,
        (#[trigger] ls2[k]).0,
        ls2[k].1@,
    ) by {
        if f >= 0 && k == f {
            let lv1 = ls1[f].1@;
            let lv2 = ls2[f].1@;
            assert(level_wf(os1, side, ls1[f].0, lv1));
            assert(lv2.queue.drop_last() =~= lv1.queue);
            assert(lv2.queue.last() == n);
            lemma_sum_orig_congruent(os1, os2, lv1.queue);
            lemma_sum_open_congruent(os1, os2, lv1.queue);
            assert(os2[n] == o);
            assert(level_wf(os2, side, ls2[f].0, lv2));
        } else if k < ls1.len() {
            assert(ls2[k] == ls1[k]);
            let lv = ls1[k].1@;
            assert(level_wf(os1, side, ls1[k].0, lv));
            lemma_sum_orig_congruent(os1, os2, lv.queue);
            lemma_sum_open_congruent(os1, os2, lv.queue);
            assert(level_wf(os2, side, ls2[k].0, lv));
        } else {
            let lv = ls2[k].1@;
            assert(lv.queue =~= seq![n]);
            assert(os2[n] == o);
            lemma_sum_singleton(os2, n);
            assert(level_wf(os2, side, ls2[k].0, lv));
        }
    }
}

proof fn lemma_untouched_side(
    os1: Seq<OrderV>,
    os2: Seq<OrderV>,
    side: Side,
    ls: Seq<(OrderPrice, PriceLevel)>,
)
    requires
        levels_wf(os1, side, ls),
        os2.len() >= os1.len(),
        forall|i: int| 0 <= i < os1.len() ==> #[trigger] os2[i] == os1[i],
    ensures
        levels_wf(os2, side, ls),
{
    assert forall|k: int| 0 <= k < ls.len() implies level_wf(
        os2,
        side,
        (#[trigger] ls[k]).0,
        ls[k].1@,
    ) by {
        let lv = ls[k].1@;
        assert(level_wf(os1, side, ls[k].0, lv));
        lemma_sum_orig_congruent(os1, os2, lv.queue);
        lemma_sum_open_congruent(os1, os2, lv.queue);
    }
}

proof fn lemma_add_linked(b1: Book, b2: Book, o: OrderV)
    requires
        b1.wf(),
        b2.orders_view() == b1.orders_view().push(o),
        b2.levels_of(opposite(o.side)) == b1.levels_of(opposite(o.side)),
        level_added(
            b1.levels_of(o.side),
            b2.levels_of(o.side),
            o.px,
            b1.orders_view().len() as int,
            o.orig_size,
        ),
    ensures
        linked(b2.orders_view(), b2.levels_of(Side::Bid), b2.levels_of(Side::Ask)),
{
    let os1 = b1.orders_view();
    let os2 = b2.orders_view();
    let n = os1.len() as int;
    let side = o.side;
    let ls1 = b1.levels_of(side);
    let ls2 = b2.levels_of(side);
    let f = find_level(ls1, o.px);
    lemma_find_level_props(ls1, o.px);
    assert(forall|i: int| 0 <= i < n ==> #[trigger] os2[i] == os1[i]);
    if f == -1 {
        assert(ls2.drop_last() =~= ls1);
    }

    assert forall|i: int| 0 <= i < os2.len() implies #[trigger] linked_at(
        os2,
        b2.levels_of(Side::Bid),
        b2.levels_of(Side::Ask),
        i,
    ) by {
        if i < n {
            assert(linked_at(os1, b1.levels_of(Side::Bid), b1.levels_of(Side::Ask), i));
            assert(os2[i] == os1[i]);
            if os1[i].side == side {
                let k = find_level(ls1, os1[i].px);
                lemma_find_level_props(ls1, os1[i].px);
                if f >= 0 {
                    lemma_find_level_congruent(ls1, ls2, os1[i].px);
                } else {
                    assert(os1[i].px != o.px);
                    assert(ls2.last().0 != os1[i].px);
                }
                assert(find_level(ls2, os1[i].px) == k);
                if f >= 0 && k == f {
                    let m = choose|m: int|
                        0 <= m < ls1[f].1@.queue.len() && ls1[f].1@.queue[m] == i;
                    assert(ls2[f].1@.queue[m] == i);
                    assert(ls2[f].1@.queue.contains(i));
                } else {
                    assert(ls2[k] == ls1[k]);
                    assert(ls2[k].1@.queue.contains(i));
                }
                assert(linked_at(os2, b2.levels_of(Side::Bid), b2.levels_of(Side::Ask), i));
            } else {
                assert(os2[i].side == opposite(side));
                assert(b2.levels_of(opposite(side)) == b1.levels_of(opposite(side)));
                assert(linked_at(os2, b2.levels_of(Side::Bid), b2.levels_of(Side::Ask), i));
            }
        } else {
            assert(os2[i] == o);
            if f >= 0 {
                lemma_find_level_congruent(ls1, ls2, o.px);
                assert(find_level(ls2, o.px) == f);
                assert(ls2[f].1@.queue.last() == n);
                assert(ls2[f].1@.queue.contains(n));
            } else {
                assert(find_level(ls2, o.px) == ls1.len());
                assert(ls2.last().1@.queue == seq![n]);
                assert(ls2.last().1@.queue[0] == n);
                assert(ls2.last().1@.queue.contains(n));
            }
            assert(linked_at(os2, b2.levels_of(Side::Bid), b2.levels_of(Side::Ask), i));
        }
    }
}

#[verifier::rlimit(40)]
proof fn lemma_add_preserves(b1: Book, b2: Book, o: OrderV)
    requires
        b1.wf(),
        !b1.spec_has_order(o.id),
        o.orig_size >= 0,
        o.open_size >= 0,
        !o.booked,
        b2.orders_view() == b1.orders_view().push(o),
        b2.levels_of(opposite(o.side)) == b1.levels_of(opposite(o.side)),
        level_added(
            b1.levels_of(o.side),
            b2.levels_of(o.side),
            o.px,
            b1.orders_view().len() as int,
            o.orig_size,
        ),
    ensures
        b2.wf(),
        b2.spec_has_order(o.id),
        b2.spec_order(o.id) == o,
        forall|id2: Seq<char>|
            id2 != o.id ==> #[trigger] b2.spec_has_order(id2) == b1.spec_has_order(id2),
        forall|id2: Seq<char>|
            id2 != o.id && b1.spec_has_order(id2) ==> #[trigger] b2.spec_order(id2)
                == b1.spec_order(id2),
        b2.spec_has_level(o.side, o.px),
        b2.spec_level(o.side, o.px).total == b1.spec_level_total(o.side, o.px) + o.orig_size,
        b2.spec_level(o.side, o.px).open == b1.spec_level_open(o.side, o.px),
        b2.spec_level(o.side, o.px).queue == (if b1.spec_has_level(o.side, o.px) {
            b1.spec_level(o.side, o.px).queue
        } else {
            Seq::<int>::empty()
        }).push(b1.orders_view().len() as int),
        forall|s: Side, p: OrderPrice|
            !(s == o.side && p == o.px) ==> #[trigger] b2.spec_has_level(s, p)
                == b1.spec_has_level(s, p),
        forall|s: Side, p: OrderPrice|
            !(s == o.side && p == o.px) && b1.spec_has_level(s, p) ==> #[trigger] b2.spec_level(
                s,
                p,
            ) == b1.spec_level(s, p),
        forall|s: Side, p: OrderPrice|
            #[trigger] b2.spec_level_total(s, p) >= b1.spec_level_total(s, p),
{
    let os1 = b1.orders_view();
    let os2 = b2.orders_view();
    let n = os1.len() as int;
    let side = o.side;
    let op = opposite(side);
    let ls1 = b1.levels_of(side);
    let ls2 = b2.levels_of(side);

    assert(forall|i: int| 0 <= i < n ==> #[trigger] os2[i] == os1[i]);
    lemma_add_orders(os1, os2, o);
    lemma_add_same_side(os1, os2, o, ls1, ls2);
    lemma_untouched_side(os1, os2, op, b1.levels_of(op));
    lemma_add_linked(b1, b2, o);
    assert(b2.wf());

    assert forall|id2: Seq<char>| id2 != o.id && b1.spec_has_order(id2) implies
        #[trigger] b2.spec_order(id2) == b1.spec_order(id2) by {
        lemma_find_order_props(os1, id2);
    }

    assert forall|s: Side, p: OrderPrice| !(s == o.side && p == o.px) implies
        #[trigger] b2.spec_has_level(s, p) == b1.spec_has_level(s, p) && (b1.spec_has_level(s, p)
        ==> b2.spec_level(s, p) == b1.spec_level(s, p)) by {
        if s == side {
            lemma_find_level_props(ls1, p);
        } else {
            assert(b2.levels_of(s) == b1.levels_of(s));
        }
    }

    assert forall|s: Side, p: OrderPrice| #[trigger] b2.spec_level_total(s, p)
        >= b1.spec_level_total(s, p) by {
        if s == o.side && p == o.px {
            assert(b2.spec_level_total(s, p) == b1.spec_level_total(s, p) + o.orig_size);
        } else {
            assert(b2.spec_has_level(s, p) == b1.spec_has_level(s, p));
        }
    }
}

proof fn lemma_update_orders(os1: Seq<OrderV>, os2: Seq<OrderV>, j: int, o2: OrderV)
    requires
        orders_wf(os1),
        0 <= j < os1.len(),
        o2.id == os1[j].id,
        o2.orig_size == os1[j].orig_size,
        o2.open_size >= 0,
        o2.booked ==> o2.open_size <= o2.orig_size,
        os2 == os1.update(j, o2),
    ensures
        orders_wf(os2),
        forall|id2: Seq<char>| #[trigger] find_order(os2, id2) == find_order(os1, id2),
{
    assert(forall|i: int| 0 <= i < os1.len() ==> (#[trigger] os2[i].id) == os1[i].id);
    assert forall|id2: Seq<char>| #[trigger] find_order(os2, id2) == find_order(os1, id2) by {
        lemma_find_order_congruent(os1, os2, id2);
    }
}

#[verifier::rlimit(60)]
proof fn lemma_update_preserves(b1: Book, b2: Book, id: Seq<char>, o2: OrderV)
    requires
        b1.wf(),
        b1.spec_has_order(id),
        o2.id == id,
        o2.side == b1.spec_order(id).side,
        o2.px == b1.spec_order(id).px,
        o2.orig_size == b1.spec_order(id).orig_size,
        o2.open_size >= 0,
        o2.booked ==> o2.open_size <= o2.orig_size,
        b2.orders_view() == b1.orders_view().update(find_order(b1.orders_view(), id), o2),
        b2.levels_of(opposite(o2.side)) == b1.levels_of(opposite(o2.side)),
        level_opened(
            b1.levels_of(o2.side),
            b2.levels_of(o2.side),
            find_level(b1.levels_of(o2.side), o2.px),
            open_contrib(o2) - open_contrib(b1.spec_order(id)),
        ),
    ensures
        b2.wf(),
        forall|id2: Seq<char>|
            #[trigger] b2.spec_has_order(id2) == b1.spec_has_order(id2),
        b2.spec_order(id) == o2,
        forall|id2: Seq<char>|
            id2 != id && b1.spec_has_order(id2) ==> #[trigger] b2.spec_order(id2)
                == b1.spec_order(id2),
        forall|s: Side, p: OrderPrice|
            #[trigger] b2.spec_has_level(s, p) == b1.spec_has_level(s, p),
        b2.spec_has_level(o2.side, o2.px),
        b2.spec_level(o2.side, o2.px) == (LevelV {
            total: b1.spec_level(o2.side, o2.px).total,
            open: b1.spec_level(o2.side, o2.px).open + open_contrib(o2) - open_contrib(
                b1.spec_order(id),
            ),
            queue: b1.spec_level(o2.side, o2.px).queue,
        }),
        forall|s: Side, p: OrderPrice|
            !(s == o2.side && p == o2.px) && b1.spec_has_level(s, p) ==> #[trigger] b2.spec_level(
                s,
                p,
            ) == b1.spec_level(s, p),
        forall|s: Side, p: OrderPrice|
            #[trigger] b2.spec_level_total(s, p) == b1.spec_level_total(s, p),
{
    let os1 = b1.orders_view();
    let os2 = b2.orders_view();
    let j = find_order(os1, id);
    let o1 = os1[j];
    let side = o2.side;
    let op = opposite(side);
    let ls1 = b1.levels_of(side);
    let ls2 = b2.levels_of(side);
    let k = find_level(ls1, o2.px);
    let delta = open_contrib(o2) - open_contrib(o1);

    lemma_find_order_props(os1, id);
    assert(linked_at(os1, b1.levels_of(Side::Bid), b1.levels_of(Side::Ask), j));
    assert(k >= 0);
    assert(ls1[k].1@.queue.contains(j));
    lemma_find_level_props(ls1, o2.px);

    assert(os2[j] == o2);
    assert(forall|i: int| 0 <= i < os1.len() && i != j ==> #[trigger] os2[i] == os1[i]);
    lemma_update_orders(os1, os2, j, o2);

    assert(forall|a: int| 0 <= a < ls2.len() ==> (#[trigger] ls2[a].0) == ls1[a].0);
    assert forall|p: OrderPrice| #[trigger] find_level(ls2, p) == find_level(ls1, p) by {
        lemma_find_level_congruent(ls1, ls2, p);
    }

    assert(levels_wf(os2, side, ls2)) by {
        assert forall|kk: int| 0 <= kk < ls2.len() implies level_wf(
            os2,
            side,
            (#[trigger] ls2[kk]).0,
            ls2[kk].1@,
        ) by {
            let lv1 = ls1[kk].1@;
            assert(level_wf(os1, side, ls1[kk].0, lv1));
            assert forall|n: int| #![trigger lv1.queue[n]] 0 <= n < lv1.queue.len() implies
                os2[lv1.queue[n]].orig_size == os1[lv1.queue[n]].orig_size by {
            }
            lemma_sum_orig_congruent(os1, os2, lv1.queue);
            if kk == k {
                lemma_sum_open_update(os1, j, o2, lv1.queue);
                assert forall|n: int| #![trigger lv1.queue[n]] 0 <= n < lv1.queue.len() implies
                    os2[lv1.queue[n]].open_size >= 0 && open_contrib(os2[lv1.queue[n]])
                    <= os2[lv1.queue[n]].orig_size by {
                }
                lemma_sum_open_nonneg(os2, lv1.queue);
                lemma_sum_open_le_orig(os2, lv1.queue);
                assert(ls2[kk].1@.queue == lv1.queue);
                assert(sum_open(os2, lv1.queue) == lv1.open + delta);
                assert(level_wf(os2, side, ls2[kk].0, ls2[kk].1@));
            } else {
                assert(ls1[kk].0 != ls1[k].0);
                assert forall|n: int| #![trigger lv1.queue[n]] 0 <= n < lv1.queue.len() implies
                    lv1.queue[n] != j && open_contrib(os2[lv1.queue[n]]) == open_contrib(
                    os1[lv1.queue[n]]) by {
                    assert(os1[lv1.queue[n]].px == ls1[kk].0);
                }
                lemma_sum_open_congruent(os1, os2, lv1.queue);
                assert(ls2[kk] == ls1[kk]);
                assert(level_wf(os2, side, ls2[kk].0, ls2[kk].1@));
            }
        }
    }

    assert(levels_wf(os2, op, b2.levels_of(op))) by {
        let lso = b1.levels_of(op);
        assert forall|kk: int| 0 <= kk < lso.len() implies level_wf(
            os2,
            op,
            (#[trigger] lso[kk]).0,
            lso[kk].1@,
        ) by {
            let lv = lso[kk].1@;
            assert(level_wf(os1, op, lso[kk].0, lv));
            assert forall|n: int| #![trigger lv.queue[n]] 0 <= n < lv.queue.len() implies
                lv.queue[n] != j && os2[lv.queue[n]] == os1[lv.queue[n]] by {
                assert(os1[lv.queue[n]].side == op);
                assert(os1[j].side == side);
            }
            lemma_sum_orig_congruent(os1, os2, lv.queue);
            lemma_sum_open_congruent(os1, os2, lv.queue);
        }
    }

    assert(linked(os2, b2.levels_of(Side::Bid), b2.levels_of(Side::Ask))) by {
        assert forall|i: int| 0 <= i < os2.len() implies #[trigger] linked_at(
            os2,
            b2.levels_of(Side::Bid),
            b2.levels_of(Side::Ask),
            i,
        ) by {
            assert(linked_at(os1, b1.levels_of(Side::Bid), b1.levels_of(Side::Ask), i));
            assert(os2[i].side == os1[i].side && os2[i].px == os1[i].px);
            if os1[i].side == side {
                let kk = find_level(ls1, os1[i].px);
                lemma_find_level_props(ls1, os1[i].px);
                assert(find_level(ls2, os1[i].px) == kk);
                assert(ls2[kk].1@.queue == ls1[kk].1@.queue);
            } else {
                assert(b2.levels_of(opposite(side)) == b1.levels_of(opposite(side)));
            }
            assert(linked_at(os2, b2.levels_of(Side::Bid), b2.levels_of(Side::Ask), i));
        }
    }

    assert(b2.wf());

    assert forall|id2: Seq<char>| id2 != id && b1.spec_has_order(id2) implies
        #[trigger] b2.spec_order(id2) == b1.spec_order(id2) by {
        lemma_find_order_props(os1, id2);
        assert(find_order(os1, id2) != j);
    }

    assert forall|s: Side, p: OrderPrice| #[trigger] b2.spec_has_level(s, p)
        == b1.spec_has_level(s, p) by {
        if s != side {
            assert(b2.levels_of(s) == b1.levels_of(s));
        }
    }

    assert(b2.spec_level(side, o2.px) == ls2[k].1@);

    assert forall|s: Side, p: OrderPrice| !(s == o2.side && p == o2.px) && b1.spec_has_level(
        s,
        p,
    ) implies #[trigger] b2.spec_level(s, p) == b1.spec_level(s, p) by {
        if s == side {
            lemma_find_level_props(ls1, p);
            assert(find_level(ls1, p) != k);
        } else {
            assert(b2.levels_of(s) == b1.levels_of(s));
        }
    }

    assert forall|s: Side, p: OrderPrice| #[trigger] b2.spec_level_total(s, p)
        == b1.spec_level_total(s, p) by {
        if s == side && p == o2.px {
            assert(b2.spec_level(s, p).total == b1.spec_level(s, p).total);
        } else if s == side {
            lemma_find_level_props(ls1, p);
            if find_level(ls1, p) >= 0 {
                assert(find_level(ls1, p) != k);
            }
        } else {
            assert(b2.levels_of(s) == b1.levels_of(s));
        }
    }
}

proof fn lemma_sum_open_remove(os: Seq<OrderV>, q: Seq<int>, m: int)
    requires
        0 <= m < q.len(),
    ensures
        sum_open(os, q) == sum_open(os, q.remove(m)) + open_contrib(os[q[m]]),
    decreases q.len(),
{
    if m == q.len() - 1 {
        assert(q.remove(m) =~= q.drop_last());
    } else {
        lemma_sum_open_remove(os, q.drop_last(), m);
        assert(q.remove(m).drop_last() =~= q.drop_last().remove(m));
        assert(q.remove(m).last() == q.last());
    }
}

proof fn lemma_queue_sum_is_filtered(os: Seq<OrderV>, side: Side, px: OrderPrice, q: Seq<int>)
    requires
        forall|n: int| #![trigger q[n]] 0 <= n < q.len() ==> 0 <= q[n] < os.len()
            && os[q[n]].side == side && os[q[n]].px == px,
        forall|a: int, b: int| #![trigger q[a], q[b]] 0 <= a < b < q.len() ==> q[a] != q[b],
        forall|i: int| #![trigger os[i]] 0 <= i < os.len() && os[i].side == side && os[i].px == px
            ==> q.contains(i),
    ensures
        sum_open(os, q) == booked_open_sum(os, side, px),
    decreases os.len(),
{
    if os.len() == 0 {
        assert(q.len() == 0);
    } else {
        let n = os.len() - 1;
        let dl = os.drop_last();
        if os[n].side == side && os[n].px == px {
            assert(q.contains(n));
            let m = choose|m: int| 0 <= m < q.len() && q[m] == n;
            lemma_sum_open_remove(os, q, m);
            let q2 = q.remove(m);
            assert forall|p: int| #![trigger q2[p]] 0 <= p < q2.len() implies 0 <= q2[p] < n
                && os[q2[p]].side == side && os[q2[p]].px == px && q2[p] != n by {
                if p < m {
                    assert(q2[p] == q[p]);
                } else {
                    assert(q2[p] == q[p + 1]);
                }
            }
            assert forall|a: int, b: int| #![trigger q2[a], q2[b]] 0 <= a < b < q2.len() implies
                q2[a] != q2[b] by {
                if b < m {
                } else if a < m {
                    assert(q2[a] == q[a] && q2[b] == q[b + 1]);
                } else {
                    assert(q2[a] == q[a + 1] && q2[b] == q[b + 1]);
                }
            }
            assert forall|i: int| #![trigger dl[i]] 0 <= i < dl.len() && dl[i].side == side
                && dl[i].px == px implies q2.contains(i) by {
                assert(os[i] == dl[i]);
                assert(q.contains(i));
                let p = choose|p: int| 0 <= p < q.len() && q[p] == i;
                if p < m {
                    assert(q2[p] == i);
                } else {
                    assert(p > m);
                    assert(q2[p - 1] == i);
                }
            }
            assert forall|p: int| #![trigger q2[p]] 0 <= p < q2.len() implies open_contrib(
                os[q2[p]]) == open_contrib(dl[q2[p]]) by {
                assert(dl[q2[p]] == os[q2[p]]);
            }
            lemma_sum_open_congruent(os, dl, q2);
            lemma_queue_sum_is_filtered(dl, side, px, q2);
        } else {
            assert forall|p: int| #![trigger q[p]] 0 <= p < q.len() implies q[p] != n
                && open_contrib(os[q[p]]) == open_contrib(dl[q[p]]) by {
                assert(dl[q[p]] == os[q[p]]);
            }
            assert forall|i: int| #![trigger dl[i]] 0 <= i < dl.len() && dl[i].side == side
                && dl[i].px == px implies q.contains(i) by {
                assert(os[i] == dl[i]);
            }
            lemma_sum_open_congruent(os, dl, q);
            lemma_queue_sum_is_filtered(dl, side, px, q);
        }
    }
}

/// Level-2 consistency: in a well-formed book, the open size recorded at any
/// (side, price) slot is exactly the sum of the open sizes of the booked
/// orders resting at that side and price, taken over every order in the
/// book; a missing level means no such order exists and the sum is zero.
pub proof fn lemma_level_open_is_booked_sum(b: Book, side: Side, px: OrderPrice)
    requires
        b.wf(),
    ensures
        b.spec_level_open(side, px) == booked_open_sum(b.orders_view(), side, px),
{
    let os = b.orders_view();
    let ls = b.levels_of(side);
    let k = find_level(ls, px);
    lemma_find_level_props(ls, px);
    if k >= 0 {
        let q = ls[k].1@.queue;
        assert(level_wf(os, side, ls[k].0, ls[k].1@));
        assert forall|i: int| #![trigger os[i]] 0 <= i < os.len() && os[i].side == side
            && os[i].px == px implies q.contains(i) by {
            assert(linked_at(os, b.levels_of(Side::Bid), b.levels_of(Side::Ask), i));
        }
        lemma_queue_sum_is_filtered(os, side, px, q);
    } else {
        assert forall|i: int| #![trigger os[i]] 0 <= i < os.len() implies !(os[i].side == side
            && os[i].px == px) by {
            assert(linked_at(os, b.levels_of(Side::Bid), b.levels_of(Side::Ask), i));
        }
        lemma_queue_sum_is_filtered(os, side, px, Seq::<int>::empty());
    }
}

} // verus!
