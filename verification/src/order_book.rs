//! Per-city order book storage: capacity limits per side and commodity,
//! order expiry, and the bounded execution-price history.
//!
//! Order terms (price and quantity) and history records are opaque payloads;
//! matching by price happens outside, on the orders taken out of the book.
use vstd::prelude::*;
use crate::types::{CityId, Commodity, Side, commodity_rank};
use std::collections::VecDeque;

verus! {

broadcast use vstd::seq_lib::group_seq_properties;

/// Agent id used for NPC (city-generated) demand orders.
pub const NPC_AGENT_ID: u32 = 4294967295;

/// Base order book capacity per side per commodity.
pub const BASE_CAPACITY: usize = 100;

/// Maximum price history entries per commodity.
pub const PRICE_HISTORY_LEN: usize = 2000;

/// A resting order.
#[derive(Debug, Clone, Copy)]
pub struct Order<P> {
    pub agent_id: u32,
    pub commodity: Commodity,
    pub side: Side,
    /// Price and quantity of the order.
    pub terms: P,
    pub tick_placed: u32,
    pub ttl: u32,
}

/// An order placed at `placed` with lifetime `ttl` is still live at `now`.
pub open spec fn order_live(now: u32, placed: u32, ttl: u32) -> bool {
    (if now >= placed {
        now - placed
    } else {
        0
    }) < ttl
}

/// Orders capacity per side per commodity.
pub open spec fn capacity_for(has_market_hall: bool) -> nat {
    if has_market_hall {
        (2 * BASE_CAPACITY) as nat
    } else {
        BASE_CAPACITY as nat
    }
}

/// Mathematical value of an order book.
pub ghost struct OrderBookModel<P, R> {
    pub city_id: CityId,
    pub has_market_hall: bool,
    /// Buy orders, indexed by commodity rank.
    pub buys: Seq<Seq<Order<P>>>,
    /// Sell orders, indexed by commodity rank.
    pub sells: Seq<Seq<Order<P>>>,
    /// Execution history, indexed by commodity rank, oldest first.
    pub history: Seq<Seq<R>>,
}

impl<P, R> OrderBookModel<P, R> {
    /// The orders on one side for one commodity.
    pub open spec fn side(self, commodity: Commodity, side: Side) -> Seq<Order<P>> {
        match side {
            Side::Buy => self.buys[commodity_rank(commodity)],
            Side::Sell => self.sells[commodity_rank(commodity)],
        }
    }
}

/// Per-city order book managing orders across all commodities.
pub struct OrderBook<P, R> {
    city_id: CityId,
    buys: Vec<Vec<Order<P>>>,
    sells: Vec<Vec<Order<P>>>,
    history: Vec<VecDeque<R>>,
    has_market_hall: bool,
}

impl<P, R> View for OrderBook<P, R> {
    type V = OrderBookModel<P, R>;

    closed spec fn view(&self) -> OrderBookModel<P, R> {
        OrderBookModel {
            city_id: self.city_id,
            has_market_hall: self.has_market_hall,
            buys: self.buys@.map_values(|v: Vec<Order<P>>| v@),
            sells: self.sells@.map_values(|v: Vec<Order<P>>| v@),
            history: self.history@.map_values(|v: VecDeque<R>| v@),
        }
    }
}

/// Position of `c` in the per-commodity tables.
pub fn commodity_index(c: Commodity) -> (i: usize)
    ensures
        i == commodity_rank(c),
        i < 22,
{
    match c {
        Commodity::Timber => 0,
        Commodity::Ore => 1,
        Commodity::Grain => 2,
        Commodity::Fish => 3,
        Commodity::Clay => 4,
        Commodity::Herbs => 5,
        Commodity::Tools => 6,
        Commodity::Medicine => 7,
        Commodity::Bricks => 8,
        Commodity::Metalwork => 9,
        Commodity::Provisions => 10,
        Commodity::Pottery => 11,
        Commodity::Weapons => 12,
        Commodity::Furniture => 13,
        Commodity::Armor => 14,
        Commodity::Alchemy => 15,
        Commodity::Machinery => 16,
        Commodity::FeastGoods => 17,
        Commodity::EliteGear => 18,
        Commodity::Automaton => 19,
        Commodity::Elixir => 20,
        Commodity::LuxurySet => 21,
    }
}

/// Orders of `s` that are still live at `now`, in order.
pub open spec fn live_orders<P>(s: Seq<Order<P>>, now: u32) -> Seq<Order<P>> {
    s.filter(|o: Order<P>| order_live(now, o.tick_placed, o.ttl))
}

fn copy_orders<P: Copy>(orders: &Vec<Order<P>>) -> (out: Vec<Order<P>>)
    ensures
        out@ == orders@,
{
    let mut out: Vec<Order<P>> = Vec::new();
    let mut i: usize = 0;
    while i < orders.len()
        invariant
            i <= orders.len(),
            out@ == orders@.subrange(0, i as int),
        decreases orders.len() - i,
    {
        out.push(orders[i]);
        i += 1;
    }
    assert(orders@.subrange(0, orders@.len() as int) == orders@);
    out
}

fn copy_history<R: Copy>(h: &VecDeque<R>) -> (out: VecDeque<R>)
    ensures
        out@ == h@,
{
    let mut out: VecDeque<R> = VecDeque::new();
    let mut i: usize = 0;
    while i < h.len()
        invariant
            i <= h.len(),
            out@ == h@.subrange(0, i as int),
        decreases h.len() - i,
    {
        out.push_back(h[i]);
        i += 1;
    }
    assert(h@.subrange(0, h@.len() as int) == h@);
    out
}

fn retain_live<P: Copy>(orders: &Vec<Order<P>>, current_tick: u32) -> (kept: Vec<Order<P>>)
    ensures
        kept@ == live_orders(orders@, current_tick),
{
    let mut kept: Vec<Order<P>> = Vec::new();
    let mut i: usize = 0;
    while i < orders.len()
        invariant
            i <= orders.len(),
            kept@ == live_orders(orders@.subrange(0, i as int), current_tick),
        decreases orders.len() - i,
    {
        proof {
            reveal_with_fuel(Seq::filter, 1);
            assert(orders@.subrange(0, i + 1).drop_last() == orders@.subrange(0, i as int));
        }
        let o = orders[i];
        if current_tick.saturating_sub(o.tick_placed) < o.ttl {
            kept.push(o);
        }
        i += 1;
    }
    assert(orders@.subrange(0, orders@.len() as int) == orders@);
    kept
}

impl<P: Copy, R: Copy> OrderBook<P, R> {
    /// The book's internal invariant: one order list per side and one
    /// history per commodity.
    pub closed spec fn wf(&self) -> bool {
        &&& self.buys@.len() == 22
        &&& self.sells@.len() == 22
        &&& self.history@.len() == 22
    }

    /// An empty book for a city.
    pub fn new(city_id: CityId, has_market_hall: bool) -> (b: Self)
        ensures
            b.wf(),
            b@.city_id == city_id,
            b@.has_market_hall == has_market_hall,
            forall|c: Commodity, s: Side| #[trigger] b@.side(c, s) == Seq::<Order<P>>::empty(),
            forall|i: int| 0 <= i < 22 ==> #[trigger] b@.history[i] == Seq::<R>::empty(),
    {
        let mut buys: Vec<Vec<Order<P>>> = Vec::new();
        let mut sells: Vec<Vec<Order<P>>> = Vec::new();
        let mut history: Vec<VecDeque<R>> = Vec::new();
        let mut i: usize = 0;
        while i < 22
            invariant
                i <= 22,
                buys@.len() == i,
                sells@.len() == i,
                history@.len() == i,
                forall|j: int| 0 <= j < i ==> (#[trigger] buys@[j])@ == Seq::<Order<P>>::empty(),
                forall|j: int| 0 <= j < i ==> (#[trigger] sells@[j])@ == Seq::<Order<P>>::empty(),
                forall|j: int| 0 <= j < i ==> (#[trigger] history@[j])@ == Seq::<R>::empty(),
            decreases 22 - i,
        {
            buys.push(Vec::new());
            sells.push(Vec::new());
            history.push(VecDeque::new());
            i += 1;
        }
        let b = OrderBook { city_id, buys, sells, history, has_market_hall };
        proof {
            assert forall|c: Commodity, s: Side| #[trigger] b@.side(c, s) == Seq::<Order<P>>::empty() by {
                assert(0 <= commodity_rank(c) < 22);
            }
        }
        b
    }

    /// Maximum orders per side per commodity: doubled by a Market Hall.
    pub fn capacity(&self) -> (n: usize)
        ensures
            n == capacity_for(self@.has_market_hall),
    {
        if self.has_market_hall {
            BASE_CAPACITY * 2
        } else {
            BASE_CAPACITY
        }
    }

    /// The city this book belongs to.
    pub fn city_id(&self) -> (id: CityId)
        ensures
            id == self@.city_id,
    {
        self.city_id
    }

    /// Update the Market Hall upgrade status.
    pub fn set_market_hall(&mut self, has_it: bool)
        ensures
            final(self)@ == (OrderBookModel { has_market_hall: has_it, ..old(self)@ }),
    {
        self.has_market_hall = has_it;
    }

    /// Number of orders on a given side for a commodity.
    pub fn order_count(&self, commodity: Commodity, side: Side) -> (n: usize)
        requires
            self.wf(),
        ensures
            n == self@.side(commodity, side).len(),
    {
        let c = commodity_index(commodity);
        match side {
            Side::Buy => self.buys[c].len(),
            Side::Sell => self.sells[c].len(),
        }
    }

    /// The orders resting on a given side for a commodity, in arrival order.
    pub fn orders(&self, commodity: Commodity, side: Side) -> (o: &[Order<P>])
        requires
            self.wf(),
        ensures
            o@ == self@.side(commodity, side),
    {
        let c = commodity_index(commodity);
        match side {
            Side::Buy => self.buys[c].as_slice(),
            Side::Sell => self.sells[c].as_slice(),
        }
    }

    /// Add an order to the book. Returns `false`, leaving the book as it
    /// was, if its side for its commodity is already at capacity.
    pub fn place_order(&mut self, order: Order<P>) -> (placed: bool)
        requires
            old(self).wf(),
        ensures
            final(self).wf(),
            placed == (old(self)@.side(order.commodity, order.side).len() < capacity_for(old(self)@.has_market_hall)),
            !placed ==> final(self)@ == old(self)@,
            placed ==> final(self)@.side(order.commodity, order.side) == old(self)@.side(
                order.commodity,
                order.side,
            ).push(order),
            forall|c: Commodity, s: Side|
                (c != order.commodity || s != order.side) ==> #[trigger] final(self)@.side(c, s) == old(
                    self,
                )@.side(c, s),
            final(self)@.history == old(self)@.history,
            final(self)@.city_id == old(self)@.city_id,
            final(self)@.has_market_hall == old(self)@.has_market_hall,
    {
        let cap = self.capacity();
        let c = commodity_index(order.commodity);
        let ghost old_view = self@;
        let current = match order.side {
            Side::Buy => self.buys[c].len(),
            Side::Sell => self.sells[c].len(),
        };
        if current >= cap {
            return false;
        }
        match order.side {
            Side::Buy => {
                let mut list = copy_orders(&self.buys[c]);
                list.push(order);
                let ghost before = self.buys@;
                self.buys.set(c, list);
                proof {
                    assert(self@.buys =~= old_view.buys.update(c as int, old_view.buys[c as int].push(order)));
                }
            },
            Side::Sell => {
                let mut list = copy_orders(&self.sells[c]);
                list.push(order);
                self.sells.set(c, list);
                proof {
                    assert(self@.sells =~= old_view.sells.update(c as int, old_view.sells[c as int].push(order)));
                }
            },
        }
        proof {
            assert forall|cc: Commodity, s: Side|
                (cc != order.commodity || s != order.side) implies #[trigger] self@.side(cc, s) == old_view.side(
                cc,
                s,
            ) by {
                if cc != order.commodity {
                    assert(commodity_rank(cc) != commodity_rank(order.commodity));
                }
            }
        }
        true
    }

    /// Remove orders whose lifetime has elapsed at `current_tick`.
    pub fn expire_orders(&mut self, current_tick: u32)
        requires
            old(self).wf(),
        ensures
            final(self).wf(),
            forall|c: Commodity, s: Side| #[trigger] final(self)@.side(c, s) == live_orders(
                old(self)@.side(c, s),
                current_tick,
            ),
            final(self)@.history == old(self)@.history,
            final(self)@.city_id == old(self)@.city_id,
            final(self)@.has_market_hall == old(self)@.has_market_hall,
    {
        let ghost old_view = self@;
        let mut i: usize = 0;
        while i < 22
            invariant
                i <= 22,
                self.wf(),
                self@.history == old_view.history,
                self@.city_id == old_view.city_id,
                self@.has_market_hall == old_view.has_market_hall,
                old_view.buys.len() == 22,
                old_view.sells.len() == 22,
                forall|j: int| 0 <= j < i ==> #[trigger] self@.buys[j] == live_orders(old_view.buys[j], current_tick),
                forall|j: int| 0 <= j < i ==> #[trigger] self@.sells[j] == live_orders(old_view.sells[j], current_tick),
                forall|j: int| i <= j < 22 ==> #[trigger] self@.buys[j] == old_view.buys[j],
                forall|j: int| i <= j < 22 ==> #[trigger] self@.sells[j] == old_view.sells[j],
            decreases 22 - i,
        {
            assert(self@.buys[i as int] == old_view.buys[i as int]);
            assert(self@.sells[i as int] == old_view.sells[i as int]);
            let kb = retain_live(&self.buys[i], current_tick);
            let ks = retain_live(&self.sells[i], current_tick);
            assert(kb@ == live_orders(old_view.buys[i as int], current_tick));
            assert(ks@ == live_orders(old_view.sells[i as int], current_tick));
            let ghost vb = self@.buys;
            let ghost vs = self@.sells;
            self.buys.set(i, kb);
            self.sells.set(i, ks);
            proof {
                assert(self@.buys =~= vb.update(i as int, live_orders(old_view.buys[i as int], current_tick)));
                assert(self@.sells =~= vs.update(i as int, live_orders(old_view.sells[i as int], current_tick)));
            }
            i += 1;
        }
    }

    /// Take all orders on one side for a commodity out of the book (for
    /// matching), leaving that side empty.
    pub fn take_orders(&mut self, commodity: Commodity, side: Side) -> (o: Vec<Order<P>>)
        requires
            old(self).wf(),
        ensures
            final(self).wf(),
            o@ == old(self)@.side(commodity, side),
            final(self)@.side(commodity, side) == Seq::<Order<P>>::empty(),
            forall|c: Commodity, s: Side|
                (c != commodity || s != side) ==> #[trigger] final(self)@.side(c, s) == old(self)@.side(c, s),
            final(self)@.history == old(self)@.history,
            final(self)@.city_id == old(self)@.city_id,
            final(self)@.has_market_hall == old(self)@.has_market_hall,
    {
        self.replace_orders(commodity, side, Vec::new())
    }

    /// Put a list of orders on one side for a commodity, replacing what is
    /// there (used to return the unfilled remainder after matching), and
    /// hand back the replaced list.
    pub fn replace_orders(&mut self, commodity: Commodity, side: Side, orders: Vec<Order<P>>) -> (prev: Vec<
        Order<P>,
    >)
        requires
            old(self).wf(),
        ensures
            final(self).wf(),
            prev@ == old(self)@.side(commodity, side),
            final(self)@.side(commodity, side) == orders@,
            forall|c: Commodity, s: Side|
                (c != commodity || s != side) ==> #[trigger] final(self)@.side(c, s) == old(self)@.side(c, s),
            final(self)@.history == old(self)@.history,
            final(self)@.city_id == old(self)@.city_id,
            final(self)@.has_market_hall == old(self)@.has_market_hall,
    {
        let c = commodity_index(commodity);
        let ghost old_view = self@;
        let ghost new_list = orders@;
        let prev = match side {
            Side::Buy => {
                let p = copy_orders(&self.buys[c]);
                self.buys.set(c, orders);
                proof {
                    assert(self@.buys =~= old_view.buys.update(c as int, new_list));
                }
                p
            },
            Side::Sell => {
                let p = copy_orders(&self.sells[c]);
                self.sells.set(c, orders);
                proof {
                    assert(self@.sells =~= old_view.sells.update(c as int, new_list));
                }
                p
            },
        };
        proof {
            assert forall|cc: Commodity, s: Side|
                (cc != commodity || s != side) implies #[trigger] self@.side(cc, s) == old_view.side(cc, s) by {
                if cc != commodity {
                    assert(commodity_rank(cc) != commodity_rank(commodity));
                }
            }
        }
        prev
    }

    /// Append an execution record to a commodity's history, dropping the
    /// oldest record once more than `PRICE_HISTORY_LEN` are kept.
    pub fn record_execution(&mut self, commodity: Commodity, record: R)
        requires
            old(self).wf(),
        ensures
            final(self).wf(),
            ({
                let h = old(self)@.history[commodity_rank(commodity)].push(record);
                final(self)@.history == old(self)@.history.update(
                    commodity_rank(commodity),
                    if h.len() > PRICE_HISTORY_LEN {
                        h.drop_first()
                    } else {
                        h
                    },
                )
            }),
            final(self)@.buys == old(self)@.buys,
            final(self)@.sells == old(self)@.sells,
            final(self)@.city_id == old(self)@.city_id,
            final(self)@.has_market_hall == old(self)@.has_market_hall,
    {
        let c = commodity_index(commodity);
        let ghost old_view = self@;
        let mut h = copy_history(&self.history[c]);
        h.push_back(record);
        if h.len() > PRICE_HISTORY_LEN {
            h.pop_front();
        }
        let ghost hv = h@;
        self.history.set(c, h);
        proof {
            assert(self@.history =~= old_view.history.update(c as int, hv));
        }
    }

    /// Price history for a commodity, or `None` if it never traded here.
    pub fn price_history(&self, commodity: Commodity) -> (h: Option<&VecDeque<R>>)
        requires
            self.wf(),
        ensures
            self@.history[commodity_rank(commodity)].len() == 0 ==> h is None,
            self@.history[commodity_rank(commodity)].len() > 0 ==> h is Some && h->0@
                == self@.history[commodity_rank(commodity)],
    {
        let c = commodity_index(commodity);
        if self.history[c].len() == 0 {
            None
        } else {
            Some(&self.history[c])
        }
    }

    /// Most recent execution record for a commodity.
    pub fn last_record(&self, commodity: Commodity) -> (r: Option<R>)
        requires
            self.wf(),
        ensures
            self@.history[commodity_rank(commodity)].len() == 0 ==> r is None,
            self@.history[commodity_rank(commodity)].len() > 0 ==> r == Some(
                self@.history[commodity_rank(commodity)].last(),
            ),
    {
        let c = commodity_index(commodity);
        let n = self.history[c].len();
        if n == 0 {
            None
        } else {
            Some(self.history[c][n - 1])
        }
    }
}

/// A successful placement never takes a side past its capacity, and a side
/// at or over capacity refuses every further order.
pub proof fn lemma_capacity_respected<P>(side_len: nat, has_market_hall: bool)
    ensures
        side_len < capacity_for(has_market_hall) ==> side_len + 1 <= capacity_for(has_market_hall),
        capacity_for(has_market_hall) <= 2 * BASE_CAPACITY,
        capacity_for(true) == 2 * capacity_for(false),
{
}

/// Expiring twice at the same tick changes nothing the second time, and an
/// expired list holds only orders still live.
pub proof fn lemma_expiry_idempotent<P>(s: Seq<Order<P>>, now: u32)
    ensures
        live_orders(live_orders(s, now), now) == live_orders(s, now),
        forall|i: int|
            0 <= i < live_orders(s, now).len() ==> order_live(
                now,
                (#[trigger] live_orders(s, now)[i]).tick_placed,
                live_orders(s, now)[i].ttl,
            ),
{
    let f = |o: Order<P>| order_live(now, o.tick_placed, o.ttl);
    let l = s.filter(f);
    broadcast use vstd::seq_lib::group_filter_ensures;

    assert(l.filter(f) =~= l) by {
        lemma_filter_all_true(l, f);
    }
}

proof fn lemma_filter_all_true<A>(s: Seq<A>, f: spec_fn(A) -> bool)
    requires
        forall|i: int| 0 <= i < s.len() ==> f(#[trigger] s[i]),
    ensures
        s.filter(f) == s,
    decreases s.len(),
{
    reveal_with_fuel(Seq::filter, 1);
    if s.len() > 0 {
        lemma_filter_all_true(s.drop_last(), f);
        assert(s.drop_last().push(s.last()) =~= s);
    } else {
        assert(s.filter(f) =~= s);
    }
}

/// A bounded history never holds more than `PRICE_HISTORY_LEN` records and
/// always ends with the latest one.
pub proof fn lemma_history_bounded<R>(h: Seq<R>, record: R)
    requires
        h.len() <= PRICE_HISTORY_LEN,
    ensures
        ({
            let p = h.push(record);
            let after = if p.len() > PRICE_HISTORY_LEN {
                p.drop_first()
            } else {
                p
            };
            &&& after.len() <= PRICE_HISTORY_LEN
            &&& after.last() == record
        }),
{
}

} // verus!
