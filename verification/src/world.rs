//! The simulation calendar, and the world tick that orders the updates of
//! one simulation step.
//!
//! A tick runs in four phases, so that the caller can do the real-valued
//! work (movement, order matching, gold) between them:
//! `begin_tick` advances the season (step 1 of the update order); the
//! merchants act and place orders; `expire_orders` drops stale orders
//! before matching (step 4); `tick_world` runs gossip, caravans and bandits
//! (steps 5 and 10); `end_tick` removes bankrupt merchants, rebalances
//! professions and records the tick's metrics (steps 11 and 12), then
//! advances the tick counter.
use vstd::prelude::*;
use crate::types::{Season, season_after, season_after_n, CityId, Profession};
use crate::caravan::{
    formed_groups, formed_caravan, swap_remove_flagged, escorts_upto, all_fees_upto, with_escorts, CaravanModel,
    CaravanSystem, CaravanLedger, CaravanCandidate, FormationEvent, DissolutionEvent, EscortFee, contains_id,
    lemma_formation_count_bounded, first_index,
};
use crate::caravan_inputs::{
    initiator_order, formation_compatibility, dissolution_flags, escort_ranges, may_initiate, initiates_before,
    should_dissolve, escorts_within_range,
};
use crate::merchant::{PriceMemory, PriceEntry, PriceKey, BankruptcyTracker, merged, keys_distinct, entries_map};
use crate::gossip::{
    GossipAgent, GossipResult, PriceShare, tick_gossip, valid_picks, pair_prices, rows, caravan_camps, pair_camps,
    merges_upto, agent_ids, agent_caravans,
};
use crate::bandit::{
    BanditLedger, BanditLedgerModel, BanditCampId, CampStatus, lemma_no_starved_camp_survives, camp_after_robberies,
    after_starvation, grounded, starved_ids,
};
use crate::attack::{tick_attacks, AttackEvent, attacks_upto, with_defeated};
use crate::order_book::{OrderBook, OrderBookModel, Order, live_orders};
use crate::economy::{
    MerchantStatus, alive_count, profession_counts, count_alive, count_alive_with, profession_rank, is_rebalance_tick,
    normal_rebalance, emergency_rebalance, after_normal_rebalance,
};
use crate::tracker::window;
use rand::rngs::StdRng;

verus! {

/// Current season plus the ticks spent in it so far.
#[derive(Debug, Clone, Copy)]
pub struct SeasonClock {
    season: Season,
    season_tick_counter: u32,
}

/// Season and counter after `n` ticks from `(s, c)` with season length `len`.
pub open spec fn clock_after(s: Season, c: int, len: int, n: nat) -> (Season, int)
    decreases n,
{
    if n == 0 {
        (s, c)
    } else {
        let prev = clock_after(s, c, len, (n - 1) as nat);
        if prev.1 + 1 >= len {
            (season_after(prev.0), 0)
        } else {
            (prev.0, prev.1 + 1)
        }
    }
}

impl SeasonClock {
    /// The clock's internal invariant: the counter can always be advanced.
    pub closed spec fn wf(&self) -> bool {
        self.season_tick_counter < u32::MAX
    }

    /// The current season.
    pub closed spec fn season_spec(&self) -> Season {
        self.season
    }

    /// Ticks spent in the current season.
    pub closed spec fn counter_spec(&self) -> u32 {
        self.season_tick_counter
    }

    /// Spring, no ticks elapsed.
    pub fn new() -> (c: Self)
        ensures
            c.wf(),
            c.season_spec() == Season::Spring,
            c.counter_spec() == 0,
    {
        SeasonClock { season: Season::Spring, season_tick_counter: 0 }
    }

    /// A clock in the given season with no ticks elapsed.
    pub fn starting_in(season: Season) -> (c: Self)
        ensures
            c.wf(),
            c.season_spec() == season,
            c.counter_spec() == 0,
    {
        SeasonClock { season, season_tick_counter: 0 }
    }

    /// The current season.
    pub fn season(&self) -> (s: Season)
        ensures
            s == self.season_spec(),
    {
        self.season
    }

    /// Ticks spent in the current season.
    pub fn ticks_in_season(&self) -> (n: u32)
        ensures
            n == self.counter_spec(),
    {
        self.season_tick_counter
    }

    /// Advance one tick: once `season_length_ticks` ticks have been spent
    /// in a season, the next season starts. Returns whether it changed.
    pub fn advance(&mut self, season_length_ticks: u32) -> (changed: bool)
        requires
            old(self).wf(),
        ensures
            final(self).wf(),
            changed == (old(self).counter_spec() + 1 >= season_length_ticks),
            (final(self).season_spec(), final(self).counter_spec() as int) == clock_after(
                old(self).season_spec(),
                old(self).counter_spec() as int,
                season_length_ticks as int,
                1,
            ),
    {
        proof {
            reveal_with_fuel(clock_after, 2);
        }
        self.season_tick_counter = self.season_tick_counter + 1;
        if self.season_tick_counter >= season_length_ticks {
            self.season = self.season.next();
            self.season_tick_counter = 0;
            true
        } else {
            false
        }
    }
}

proof fn lemma_clock_within_season(s: Season, len: int, k: nat)
    requires
        k < len,
    ensures
        clock_after(s, 0, len, k) == (s, k as int),
    decreases k,
{
    if k > 0 {
        lemma_clock_within_season(s, len, (k - 1) as nat);
    }
}

proof fn lemma_clock_split(s: Season, c: int, len: int, a: nat, b: nat)
    ensures
        clock_after(s, c, len, a + b) == clock_after(
            clock_after(s, c, len, a).0,
            clock_after(s, c, len, a).1,
            len,
            b,
        ),
    decreases b,
{
    if b > 0 {
        lemma_clock_split(s, c, len, a, (b - 1) as nat);
        assert((a + b - 1) as nat == a + (b - 1) as nat);
    }
}

/// With a fixed season length, a fresh season lasts exactly that many
/// ticks, and `4 × length` ticks bring the calendar back to the same season.
pub proof fn lemma_season_length_respected(s: Season, len: nat, m: nat)
    requires
        len >= 1,
    ensures
        forall|k: nat| k < len ==> #[trigger] clock_after(s, 0, len as int, k).0 == s,
        clock_after(s, 0, len as int, len) == (season_after(s), 0int),
        clock_after(s, 0, len as int, m * len) == (season_after_n(s, m), 0int),
        clock_after(s, 0, len as int, 4 * len).0 == s,
    decreases m,
{
    assert forall|k: nat| k < len implies #[trigger] clock_after(s, 0, len as int, k).0 == s by {
        lemma_clock_within_season(s, len as int, k);
    }
    lemma_clock_within_season(s, len as int, (len - 1) as nat);
    assert(clock_after(s, 0, len as int, len) == (season_after(s), 0int));
    if m > 0 {
        let m1 = (m - 1) as nat;
        lemma_season_length_respected(s, len, m1);
        let a: nat = m1 * len;
        assert(m * len == a + len) by (nonlinear_arith)
            requires
                a == m1 * len,
                m1 + 1 == m,
        ;
        lemma_clock_split(s, 0, len as int, a, len);
        let sm = season_after_n(s, m1);
        assert(clock_after(s, 0, len as int, a) == (sm, 0int));
        lemma_clock_within_season(sm, len as int, (len - 1) as nat);
        assert(clock_after(sm, 0, len as int, len) == (season_after(sm), 0int));
        assert(season_after_n(s, m) == season_after(sm));
    } else {
        assert(m * len == 0) by (nonlinear_arith)
            requires
                m == 0,
        ;
    }
    lemma_four_seasons(s, len);
}

proof fn lemma_four_seasons(s: Season, len: nat)
    requires
        len >= 1,
    ensures
        clock_after(s, 0, len as int, 4 * len).0 == s,
{
    lemma_clock_within_season(s, len as int, (len - 1) as nat);
    let s1 = season_after(s);
    let s2 = season_after(s1);
    let s3 = season_after(s2);
    lemma_clock_within_season(s1, len as int, (len - 1) as nat);
    lemma_clock_within_season(s2, len as int, (len - 1) as nat);
    lemma_clock_within_season(s3, len as int, (len - 1) as nat);
    lemma_clock_split(s, 0, len as int, len, len);
    lemma_clock_split(s, 0, len as int, 2 * len, len);
    lemma_clock_split(s, 0, len as int, 3 * len, len);
    assert(clock_after(s, 0, len as int, len) == (s1, 0int));
    assert(clock_after(s1, 0, len as int, len) == (s2, 0int));
    assert(clock_after(s2, 0, len as int, len) == (s3, 0int));
    assert(clock_after(s3, 0, len as int, len) == (season_after(s3), 0int));
    assert(season_after(s3) == s);
}

// ── The world tick ──────────────────────────────────────────────────────────

/// Number of per-tick metrics records the world keeps.
pub const METRICS_WINDOW: usize = 5000;

/// What the world records about one tick.
#[derive(Debug, Clone, Copy)]
pub struct WorldMetrics {
    pub tick: u32,
    pub season: Season,
    pub alive_merchants: u32,
    pub total_trades: u32,
    /// Living merchants per profession, in `Profession::ALL` order.
    pub profession_counts: [u32; 7],
}

/// Where the world stands within a tick.
#[derive(Debug, Clone, Copy, PartialEq, Eq, Structural)]
pub enum TickPhase {
    /// Between ticks.
    Idle,
    /// Season advanced; merchants act and place their orders.
    Acting,
    /// Stale orders gone; demand and matching are under way.
    Trading,
    /// Gossip, caravans and bandits done; settling gold and metrics.
    Settling,
}

/// Mathematical value of the world.
pub ghost struct WorldModel<P, R> {
    pub tick: u32,
    pub phase: TickPhase,
    pub season: Season,
    pub counter: u32,
    pub season_len: u32,
    pub ids: Seq<u32>,
    pub statuses: Seq<MerchantStatus>,
    pub caravan_of: Seq<Option<u32>>,
    pub memories: Seq<Map<PriceKey, PriceEntry<P>>>,
    /// Freshness window of each merchant's memory.
    pub memory_ttls: Seq<u32>,
    pub negative_ticks: Seq<u32>,
    pub books: Seq<OrderBookModel<P, R>>,
    pub caravans: CaravanLedger,
    pub bandits: BanditLedgerModel,
    pub metrics: Seq<WorldMetrics>,
    pub grace_ticks: u32,
    pub starvation_ticks: u32,
    pub num_camps: u32,
    pub price_ttl: u32,
    pub rebalance_interval: u32,
}

/// The simulation state that the world tick updates. Merchants are kept
/// by position; each has a unique id.
pub struct WorldState<P, R> {
    clock: SeasonClock,
    season_len: u32,
    current_tick: u32,
    phase: TickPhase,
    ids: Vec<u32>,
    statuses: Vec<MerchantStatus>,
    caravan_of: Vec<Option<u32>>,
    memories: Vec<PriceMemory<P>>,
    trackers: Vec<BankruptcyTracker>,
    books: Vec<OrderBook<P, R>>,
    caravans: CaravanSystem,
    bandits: BanditLedger,
    metrics: Vec<WorldMetrics>,
    grace_ticks: u32,
    starvation_ticks: u32,
    num_camps: u32,
    price_ttl: u32,
    rebalance_interval: u32,
}

impl<P, R> View for WorldState<P, R> {
    type V = WorldModel<P, R>;

    closed spec fn view(&self) -> WorldModel<P, R> {
        WorldModel {
            tick: self.current_tick,
            phase: self.phase,
            season: self.clock.season_spec(),
            counter: self.clock.counter_spec(),
            season_len: self.season_len,
            ids: self.ids@,
            statuses: self.statuses@,
            caravan_of: self.caravan_of@,
            memories: self.memories@.map_values(|m: PriceMemory<P>| m@.entries),
            memory_ttls: self.memories@.map_values(|m: PriceMemory<P>| m@.ttl),
            negative_ticks: self.trackers@.map_values(|t: BankruptcyTracker| t.negative_gold_ticks()),
            books: self.books@.map_values(|b: OrderBook<P, R>| b@),
            caravans: self.caravans@,
            bandits: self.bandits@,
            metrics: self.metrics@,
            grace_ticks: self.grace_ticks,
            starvation_ticks: self.starvation_ticks,
            num_camps: self.num_camps,
            price_ttl: self.price_ttl,
            rebalance_interval: self.rebalance_interval,
        }
    }
}

/// Positions, among the first `n`, of the living merchants, in order.
pub open spec fn alive_positions(st: Seq<MerchantStatus>, n: nat) -> Seq<int>
    decreases n,
{
    if n == 0 {
        Seq::empty()
    } else {
        let prev = alive_positions(st, (n - 1) as nat);
        if st[n - 1].alive {
            prev.push(n - 1)
        } else {
            prev
        }
    }
}

/// Number of living merchants, the size of every per-merchant tick input.
pub open spec fn living<P, R>(m: WorldModel<P, R>) -> nat {
    alive_positions(m.statuses, m.statuses.len()).len()
}

/// The living merchants as caravan candidates, in merchant order.
pub open spec fn candidates_of<P, R>(m: WorldModel<P, R>) -> Seq<CaravanCandidate> {
    let pos = alive_positions(m.statuses, m.statuses.len());
    Seq::new(pos.len(), |k: int| CaravanCandidate { id: m.ids[pos[k]], caravan_id: m.caravan_of[pos[k]] })
}

/// Caravan of every merchant after `members` are given caravan `v`.
pub open spec fn assign_caravan(ids: Seq<u32>, cav: Seq<Option<u32>>, members: Seq<u32>, v: Option<u32>) -> Seq<
    Option<u32>,
> {
    Seq::new(cav.len(), |i: int| if members.contains(ids[i]) { v } else { cav[i] })
}

/// Caravan of every merchant after the formations `evs` (id, members).
pub open spec fn after_formations(ids: Seq<u32>, cav: Seq<Option<u32>>, evs: Seq<(u32, Seq<u32>)>) -> Seq<
    Option<u32>,
>
    decreases evs.len(),
{
    if evs.len() == 0 {
        cav
    } else {
        assign_caravan(ids, after_formations(ids, cav, evs.drop_last()), evs.last().1, Some(evs.last().0))
    }
}

/// Caravan of every merchant after the dissolutions of caravans with the
/// member lists `evs`.
pub open spec fn after_dissolutions(ids: Seq<u32>, cav: Seq<Option<u32>>, evs: Seq<Seq<u32>>) -> Seq<Option<u32>>
    decreases evs.len(),
{
    if evs.len() == 0 {
        cav
    } else {
        assign_caravan(ids, after_dissolutions(ids, cav, evs.drop_last()), evs.last(), None)
    }
}

/// Caravan of every merchant after a tick's formations, then its dissolutions:
/// members of a new caravan join it, members of a dissolved one leave.
pub open spec fn after_caravan_events(
    ids: Seq<u32>,
    cav: Seq<Option<u32>>,
    formations: Seq<FormationEvent>,
    dissolutions: Seq<DissolutionEvent>,
) -> Seq<Option<u32>> {
    after_dissolutions(
        ids,
        after_formations(ids, cav, formations.map_values(|e: FormationEvent| (e.caravan_id, e.member_ids@))),
        dissolutions.map_values(|e: DissolutionEvent| e.member_ids@),
    )
}

/// Price memories after one share: the living merchant with the receiver's
/// id records the shared entry.
pub open spec fn record_share<P>(
    ids: Seq<u32>,
    st: Seq<MerchantStatus>,
    mems: Seq<Map<PriceKey, PriceEntry<P>>>,
    s: PriceShare<P>,
) -> Seq<Map<PriceKey, PriceEntry<P>>> {
    Seq::new(
        mems.len(),
        |i: int|
            if ids[i] == s.receiver_id && st[i].alive {
                mems[i].insert((s.city_id, s.commodity), s.entry)
            } else {
                mems[i]
            },
    )
}

/// Price memories after the shares `shares`, recorded in order.
pub open spec fn after_shares<P>(
    ids: Seq<u32>,
    st: Seq<MerchantStatus>,
    mems: Seq<Map<PriceKey, PriceEntry<P>>>,
    shares: Seq<PriceShare<P>>,
) -> Seq<Map<PriceKey, PriceEntry<P>>>
    decreases shares.len(),
{
    if shares.len() == 0 {
        mems
    } else {
        record_share(ids, st, after_shares(ids, st, mems, shares.drop_last()), shares.last())
    }
}

/// `m` merged with each of `snaps` in turn.
pub open spec fn merge_all<P>(m: Map<PriceKey, PriceEntry<P>>, snaps: Seq<Map<PriceKey, PriceEntry<P>>>) -> Map<
    PriceKey,
    PriceEntry<P>,
>
    decreases snaps.len(),
{
    if snaps.len() == 0 {
        m
    } else {
        merged(merge_all(m, snaps.drop_last()), snaps.last())
    }
}

/// Memories of the living merchants among the first `n` whose id is in `group`.
pub open spec fn group_snapshots<P>(
    ids: Seq<u32>,
    st: Seq<MerchantStatus>,
    mems: Seq<Map<PriceKey, PriceEntry<P>>>,
    group: Seq<u32>,
    n: nat,
) -> Seq<Map<PriceKey, PriceEntry<P>>>
    decreases n,
{
    if n == 0 {
        Seq::empty()
    } else {
        let prev = group_snapshots(ids, st, mems, group, (n - 1) as nat);
        if group.contains(ids[n - 1]) && st[n - 1].alive {
            prev.push(mems[n - 1])
        } else {
            prev
        }
    }
}

/// Price memories after a caravan merge: every living member merges in the
/// memories that all living members had before the merge, in merchant order.
pub open spec fn merge_group<P>(
    ids: Seq<u32>,
    st: Seq<MerchantStatus>,
    mems: Seq<Map<PriceKey, PriceEntry<P>>>,
    group: Seq<u32>,
) -> Seq<Map<PriceKey, PriceEntry<P>>> {
    let snaps = group_snapshots(ids, st, mems, group, mems.len());
    Seq::new(
        mems.len(),
        |i: int| if group.contains(ids[i]) && st[i].alive { merge_all(mems[i], snaps) } else { mems[i] },
    )
}

/// Price memories after the caravan merges `groups`, in order.
pub open spec fn after_merges<P>(
    ids: Seq<u32>,
    st: Seq<MerchantStatus>,
    mems: Seq<Map<PriceKey, PriceEntry<P>>>,
    groups: Seq<Seq<u32>>,
) -> Seq<Map<PriceKey, PriceEntry<P>>>
    decreases groups.len(),
{
    if groups.len() == 0 {
        mems
    } else {
        merge_group(ids, st, after_merges(ids, st, mems, groups.drop_last()), groups.last())
    }
}

/// Price memories after a gossip round: the price shares are recorded,
/// then the caravans merge.
pub open spec fn after_gossip<P>(
    ids: Seq<u32>,
    st: Seq<MerchantStatus>,
    mems: Seq<Map<PriceKey, PriceEntry<P>>>,
    r: GossipResult<P, ()>,
) -> Seq<Map<PriceKey, PriceEntry<P>>> {
    after_merges(
        ids,
        st,
        after_shares(ids, st, mems, r.price_shares@),
        r.caravan_merges@.map_values(|g: Vec<u32>| g@),
    )
}

/// Negative-gold counter and life status of every merchant after the
/// bankruptcy step: a living merchant's counter grows when its gold is
/// negative and resets otherwise, and it dies when the counter reaches the
/// grace period; dead merchants are left alone.
pub open spec fn after_bankruptcy(
    st: Seq<MerchantStatus>,
    neg: Seq<u32>,
    gold_negative: Seq<bool>,
    grace: u32,
) -> (Seq<MerchantStatus>, Seq<u32>) {
    let counts = Seq::new(
        neg.len(),
        |i: int|
            if !st[i].alive {
                neg[i]
            } else if gold_negative[i] {
                (neg[i] + 1) as u32
            } else {
                0u32
            },
    );
    (
        Seq::new(
            st.len(),
            |i: int|
                if st[i].alive && counts[i] >= grace {
                    MerchantStatus { alive: false, profession: st[i].profession }
                } else {
                    st[i]
                },
        ),
        counts,
    )
}

/// `inits` is the order in which the candidates try to lead: each one that
/// may initiate, once, most sociable first, ties in candidate order.
pub open spec fn is_initiator_order(
    cands: Seq<CaravanCandidate>,
    sociable: Seq<bool>,
    rank: Seq<u32>,
    inits: Seq<usize>,
) -> bool {
    &&& forall|k: int| 0 <= k < inits.len() ==> (#[trigger] inits[k]) < cands.len() && may_initiate(cands, sociable, inits[k] as int)
    &&& forall|i: int| 0 <= i < cands.len() && may_initiate(cands, sociable, i) ==> inits.contains(i as usize)
    &&& forall|a: int, b: int| 0 <= a < b < inits.len() ==> initiates_before(rank, inits[a] as int, inits[b] as int)
}

/// Candidates `i` and `j` may travel together: near and aligned.
pub open spec fn compatibility_of(near: Seq<Vec<bool>>, aligned: Seq<Vec<bool>>) -> Seq<Seq<bool>> {
    Seq::new(near.len(), |i: int| Seq::new(near[i]@.len(), |j: int| near[i]@[j] && aligned[i]@[j]))
}

/// The formation events report the groups `groups`, numbered from `first_id`.
pub open spec fn formations_report(evs: Seq<FormationEvent>, groups: Seq<Seq<u32>>, first_id: u32) -> bool {
    &&& evs.len() == groups.len()
    &&& forall|k: int|
        0 <= k < groups.len() ==> {
            &&& (#[trigger] evs[k]).caravan_id == first_id + k
            &&& evs[k].member_ids@ == groups[k]
            &&& evs[k].leader_id == groups[k][0]
        }
}

/// How professions are rebalanced if this tick is a rebalance tick, as the
/// caller judged it from incomes, gold and food: `Normal` moves merchants
/// from the `worst` to the `best` earning profession and idle merchants
/// whose 30% roll in `accept` succeeded to `most_needed`; `Emergency` (a
/// food crisis) turns some idle or poor traders (`low_gold`) into farmers.
pub enum RebalancePlan {
    Normal { worst: Profession, best: Profession, most_needed: Profession, accept: Vec<bool> },
    Emergency { low_gold: Vec<bool> },
}

/// The rebalance plan has one entry per merchant.
pub open spec fn plan_fits(plan: RebalancePlan, n: nat) -> bool {
    match plan {
        RebalancePlan::Normal { accept, .. } => accept@.len() == n,
        RebalancePlan::Emergency { low_gold } => low_gold@.len() == n,
    }
}

/// Statuses after a rebalance by `plan`; `made` lists the merchants an
/// emergency rebalance turned into farmers. Life status never changes.
pub open spec fn after_rebalance(st: Seq<MerchantStatus>, plan: RebalancePlan, made: Seq<usize>) -> Seq<MerchantStatus> {
    match plan {
        RebalancePlan::Normal { worst, best, most_needed, accept } => Seq::new(
            st.len(),
            |j: int|
                MerchantStatus {
                    alive: st[j].alive,
                    profession: after_normal_rebalance(st, worst, best, most_needed, accept@, j),
                },
        ),
        RebalancePlan::Emergency { low_gold } => Seq::new(
            st.len(),
            |j: int|
                if made.contains(j as usize) {
                    MerchantStatus { alive: st[j].alive, profession: Profession::Farmer }
                } else {
                    st[j]
                },
        ),
    }
}

/// For an emergency plan, `made` lists distinct emergency candidates, as
/// many as the emergency quota allows.
pub open spec fn emergency_choice(st: Seq<MerchantStatus>, plan: RebalancePlan, made: Seq<usize>) -> bool {
    match plan {
        RebalancePlan::Normal { .. } => made.len() == 0,
        RebalancePlan::Emergency { low_gold } => {
            let c = crate::economy::count_candidates(st, low_gold@, st.len());
            &&& made.len() == if crate::economy::emergency_quota(c) < c {
                crate::economy::emergency_quota(c)
            } else {
                c
            }
            &&& made.no_duplicates()
            &&& forall|k: int|
                0 <= k < made.len() ==> #[trigger] made[k] < st.len() && crate::economy::is_emergency_candidate(
                    st[made[k] as int],
                    low_gold@[made[k] as int],
                )
        },
    }
}

/// What the last phase of a tick produced.
pub struct TickEnd {
    /// The metrics recorded for the tick.
    pub metrics: WorldMetrics,
    /// Whether professions were rebalanced this tick.
    pub rebalanced: bool,
    /// Merchants turned into farmers by an emergency rebalance.
    pub made_farmers: Vec<usize>,
}

/// One gossip round of a tick: `agents` are the living merchants, in order,
/// each with its memory's entries (each key once) and no known camp; `pick`
/// is the generator's choice of shared entries. The result is what
/// `tick_gossip` gives for them.
pub open spec fn gossip_round<P, R>(
    m0: WorldModel<P, R>,
    talks: Seq<Vec<bool>>,
    r: GossipResult<P, ()>,
    agents: Seq<GossipAgent<P, ()>>,
    pick: spec_fn(int, int, bool) -> int,
) -> bool {
    let pos = alive_positions(m0.statuses, m0.statuses.len());
    let n = agents.len();
    &&& n == pos.len()
    &&& forall|k: int|
        0 <= k < n ==> {
            &&& (#[trigger] agents[k]).id == m0.ids[pos[k]]
            &&& agents[k].caravan_id == m0.caravan_of[pos[k]]
            &&& keys_distinct(agents[k].prices@)
            &&& entries_map(agents[k].prices@) == m0.memories[pos[k]]
            &&& agents[k].known_camps@.len() == 0
        }
    &&& valid_picks(agents, talks, m0.tick, m0.price_ttl, pick)
    &&& r.price_shares@ == rows(pair_prices(agents, talks, m0.tick, m0.price_ttl, pick), n as int, n as int)
    &&& r.camp_shares@ == caravan_camps(agents, merges_upto(agent_ids(agents), agent_caravans(agents), n))
        + rows(pair_camps(agents, talks), n as int, n as int)
    &&& r.caravan_merges@.map_values(|g: Vec<u32>| g@) == merges_upto(agent_ids(agents), agent_caravans(agents), n)
}

/// The caravan ledger after the caravans `groups` are formed.
pub open spec fn formed_ledger(l: CaravanLedger, groups: Seq<Seq<u32>>) -> CaravanLedger {
    CaravanLedger {
        caravans: l.caravans + Seq::new(groups.len(), |k: int| formed_caravan(l.next_id, k, groups[k])),
        next_id: (l.next_id + groups.len()) as u32,
    }
}

/// One flag per caravan of `cs`: whether it should dissolve.
pub open spec fn dissolve_flags_of(
    cands: Seq<CaravanCandidate>,
    far: Seq<Seq<bool>>,
    at_city: Seq<bool>,
    cs: Seq<CaravanModel>,
) -> Seq<bool> {
    Seq::new(cs.len(), |c: int| should_dissolve(cands, far, at_city, cs[c].members))
}

/// Positions, among the first `k` of `pos`, of the soldiers.
pub open spec fn soldier_slots(st: Seq<MerchantStatus>, pos: Seq<int>, k: nat) -> Seq<int>
    decreases k,
{
    if k == 0 {
        Seq::empty()
    } else {
        let prev = soldier_slots(st, pos, (k - 1) as nat);
        if st[pos[k - 1]].profession == Profession::Soldier {
            prev.push(k - 1)
        } else {
            prev
        }
    }
}

/// For each caravan of `cs` and each soldier slot, whether that soldier is
/// within escort range of one of the caravan's present members.
pub open spec fn escort_matrix(
    cands: Seq<CaravanCandidate>,
    near: Seq<Seq<bool>>,
    cs: Seq<CaravanModel>,
    slots: Seq<int>,
) -> Seq<Seq<bool>> {
    Seq::new(cs.len(), |c: int| Seq::new(slots.len(), |k: int| escorts_within_range(cands, near, cs[c].members, slots[k])))
}

/// The caravan work of a tick, with `inits` the initiator order: the
/// caravans formed, then every caravan that should dissolve dissolved (the
/// events in caravan order), then each remaining caravan escorted by the
/// soldiers in range, with one fee per present member and escort.
pub open spec fn caravan_round<P, R>(
    m0: WorldModel<P, R>,
    inp: TickInputs,
    formations: Seq<FormationEvent>,
    dissolutions: Seq<DissolutionEvent>,
    fees: Seq<EscortFee>,
    fin: CaravanLedger,
    inits: Seq<usize>,
) -> bool {
    let cands = candidates_of(m0);
    let groups = formed_groups(cands, inits, compatibility_of(inp.near@, inp.aligned@));
    let l1 = formed_ledger(m0.caravans, groups);
    let flags = dissolve_flags_of(cands, inp.far@.map_values(|r: Vec<bool>| r@), inp.at_city@, l1.caravans);
    let flagged = Seq::new(l1.caravans.len(), |i: int| i).filter(|i: int| flags[i]);
    let c2 = swap_remove_flagged(l1.caravans, flags, 0);
    let slots = soldier_slots(m0.statuses, alive_positions(m0.statuses, m0.statuses.len()), cands.len());
    let sids = slots.map_values(|k: int| cands[k].id);
    let ranges = escort_matrix(cands, inp.near@.map_values(|r: Vec<bool>| r@), c2, slots);
    &&& is_initiator_order(cands, inp.sociable@, inp.sociability_rank@, inits)
    &&& formations_report(formations, groups, m0.caravans.next_id)
    &&& dissolutions.len() == flagged.len()
    &&& forall|q: int|
        0 <= q < flagged.len() ==> {
            &&& (#[trigger] dissolutions[q]).caravan_id == l1.caravans[flagged[q]].id
            &&& dissolutions[q].member_ids@ == l1.caravans[flagged[q]].members
        }
    &&& fin.next_id == l1.next_id
    &&& fin.caravans.len() == c2.len()
    &&& forall|c: int|
        0 <= c < c2.len() ==> (#[trigger] fin.caravans[c]) == with_escorts(
            c2[c],
            escorts_upto(sids, ranges[c], sids.len()),
        )
    &&& fees.map_values(|f: EscortFee| (f.merchant_id, f.soldier_id)) == all_fees_upto(
        c2,
        cands.map_values(|c: CaravanCandidate| c.id),
        sids,
        ranges,
        c2.len(),
    )
}

/// The bandit work of a tick, with `repel` and `win` the generator's rolls:
/// every living merchant's group is its caravan's members and escorts (one
/// alone); the attacks are those of `attacks_upto`, the defeated bandits are
/// grounded and the camps' robbery counters updated; then starved camps are
/// destroyed and their bandits grounded.
pub open spec fn bandit_round<P, R>(
    m0: WorldModel<P, R>,
    inp: TickInputs,
    attacks: Seq<AttackEvent>,
    destroyed: Seq<BanditCampId>,
    cav_of: Seq<Option<u32>>,
    cs: Seq<CaravanModel>,
    fin: BanditLedgerModel,
    repel: spec_fn(int, int) -> bool,
    win: spec_fn(int, int) -> bool,
) -> bool {
    let pos = alive_positions(m0.statuses, m0.statuses.len());
    let sizes = Seq::new(pos.len(), |k: int| group_size_spec(cs, cav_of[pos[k]]));
    let st = attacks_upto(
        m0.bandits.bandits,
        inp.attempts@,
        inp.bandit_in_range@,
        sizes,
        inp.soldier_near@,
        repel,
        win,
        m0.bandits.bandits.len(),
    );
    let camps1 = m0.bandits.camps.map_values(|c: CampStatus| camp_after_robberies(c, st.robbed_camps));
    &&& attacks == st.events
    &&& fin.camps == after_starvation(camps1, m0.starvation_ticks)
    &&& fin.bandits == grounded(with_defeated(m0.bandits.bandits, st.defeated), fin.camps)
    &&& destroyed == starved_ids(camps1, m0.starvation_ticks)
}

/// The judgements the caller makes for one tick, from positions, headings,
/// sociability and the seasonal roll. Per-merchant entries follow the
/// living merchants in merchant order; bandit entries follow the ledger.
pub struct TickInputs {
    /// `talks[i][j]`: the two are within gossip range and their roll succeeded.
    pub talks: Vec<Vec<bool>>,
    /// Sociability above the caravan initiator threshold.
    pub sociable: Vec<bool>,
    /// Sociability rank: higher for more sociable, equal for equal sociability.
    pub sociability_rank: Vec<u32>,
    /// `near[i][j]`: within formation (and escort) range.
    pub near: Vec<Vec<bool>>,
    /// `aligned[i][j]`: headings differ by at most the tolerance.
    pub aligned: Vec<Vec<bool>>,
    /// `far[i][j]`: further apart than the dissolution spread.
    pub far: Vec<Vec<bool>>,
    /// Inside some city.
    pub at_city: Vec<bool>,
    /// `attempts[b]`: bandit `b` tries to attack this tick.
    pub attempts: Vec<bool>,
    /// `bandit_in_range[b][m]`: merchant `m` is within bandit `b`'s range.
    pub bandit_in_range: Vec<Vec<bool>>,
    /// `soldier_near[m]`: the first soldier close enough to defend `m`.
    pub soldier_near: Vec<Option<usize>>,
}

/// A square matrix of side `n`.
pub open spec fn square(m: Seq<Vec<bool>>, n: nat) -> bool {
    m.len() == n && forall|i: int| 0 <= i < m.len() ==> (#[trigger] m[i])@.len() == n
}

impl TickInputs {
    /// The inputs have the shapes the world `m` needs, and the caravan ids
    /// this tick can hand out fit in `u32`.
    pub open spec fn fits<P, R>(&self, m: WorldModel<P, R>) -> bool {
        let n = living(m);
        &&& square(self.talks@, n)
        &&& self.sociable@.len() == n
        &&& self.sociability_rank@.len() == n
        &&& square(self.near@, n)
        &&& square(self.aligned@, n)
        &&& square(self.far@, n)
        &&& self.at_city@.len() == n
        &&& self.attempts@.len() == m.bandits.bandits.len()
        &&& self.bandit_in_range@.len() == m.bandits.bandits.len()
        &&& forall|b: int| 0 <= b < self.bandit_in_range@.len() ==> (#[trigger] self.bandit_in_range@[b])@.len() == n
        &&& self.soldier_near@.len() == n
        &&& m.caravans.next_id + n <= u32::MAX
    }
}

/// What the caravan step of a tick produced.
struct CaravanStep {
    formations: Vec<FormationEvent>,
    dissolutions: Vec<DissolutionEvent>,
    fees: Vec<EscortFee>,
    /// The initiator order used.
    inits: Ghost<Seq<usize>>,
}

/// What the bandit step of a tick produced.
struct BanditStep {
    attacks: Vec<AttackEvent>,
    destroyed: Vec<BanditCampId>,
    to_spawn: u32,
    /// The repel and combat rolls the generator made.
    rolls: Ghost<(spec_fn(int, int) -> bool, spec_fn(int, int) -> bool)>,
}

/// What the middle phase of a tick produced, for the caller to apply to
/// gold, inventories and knowledge.
pub struct TickOutcome<P> {
    pub gossip: GossipResult<P, ()>,
    pub formations: Vec<FormationEvent>,
    pub dissolutions: Vec<DissolutionEvent>,
    pub fees: Vec<EscortFee>,
    pub attacks: Vec<AttackEvent>,
    pub camps_destroyed: Vec<BanditCampId>,
    pub camps_to_spawn: u32,
}

impl<P: Copy, R: Copy> WorldState<P, R> {
    /// The world's invariant: merchant columns of equal length, unique
    /// merchant ids, well-formed memories, books, caravans and bandits,
    /// counters that can still advance, and at most the metrics window.
    pub closed spec fn wf(&self) -> bool {
        &&& self.clock.wf()
        &&& self.ids@.len() == self.statuses@.len()
        &&& self.ids@.len() == self.caravan_of@.len()
        &&& self.ids@.len() == self.memories@.len()
        &&& self.ids@.len() == self.trackers@.len()
        &&& self.ids@.len() <= u32::MAX
        &&& forall|a: int, b: int| 0 <= a < b < self.ids@.len() ==> self.ids@[a] != self.ids@[b]
        &&& forall|i: int| 0 <= i < self.memories@.len() ==> (#[trigger] self.memories@[i]).wf()
        &&& forall|i: int| 0 <= i < self.memories@.len() ==> (#[trigger] self.memories@[i])@.ttl == self.price_ttl
        &&& forall|i: int|
            0 <= i < self.statuses@.len() && (#[trigger] self.statuses@[i]).alive
                ==> self.trackers@[i].negative_gold_ticks() < u32::MAX
        &&& forall|b: int| 0 <= b < self.books@.len() ==> (#[trigger] self.books@[b]).wf()
        &&& self.caravans.wf()
        &&& self.bandits.wf()
        &&& forall|c: int|
            0 <= c < self.bandits@.camps.len() && (#[trigger] self.bandits@.camps[c]).alive
                ==> self.bandits@.camps[c].ticks_since_last_robbery < u32::MAX
        &&& self.metrics@.len() <= METRICS_WINDOW
        &&& self.rebalance_interval > 0
    }
}

impl<P: Copy, R: Copy> WorldState<P, R> {
    /// An empty world in Spring at tick 0 with the given rule parameters.
    pub fn new(
        season_len: u32,
        grace_ticks: u32,
        starvation_ticks: u32,
        num_camps: u32,
        price_ttl: u32,
        rebalance_interval: u32,
    ) -> (w: Self)
        requires
            rebalance_interval > 0,
        ensures
            w.wf(),
            w@.tick == 0,
            w@.phase == TickPhase::Idle,
            w@.season == Season::Spring,
            w@.counter == 0,
            w@.season_len == season_len,
            w@.ids.len() == 0,
            w@.books.len() == 0,
            w@.caravans.caravans.len() == 0,
            w@.caravans.next_id == 0,
            w@.bandits.camps.len() == 0,
            w@.bandits.bandits.len() == 0,
            w@.metrics.len() == 0,
            w@.grace_ticks == grace_ticks,
            w@.starvation_ticks == starvation_ticks,
            w@.num_camps == num_camps,
            w@.price_ttl == price_ttl,
            w@.rebalance_interval == rebalance_interval,
    {
        let w = WorldState {
            clock: SeasonClock::new(),
            season_len,
            current_tick: 0,
            phase: TickPhase::Idle,
            ids: Vec::new(),
            statuses: Vec::new(),
            caravan_of: Vec::new(),
            memories: Vec::new(),
            trackers: Vec::new(),
            books: Vec::new(),
            caravans: CaravanSystem::new(),
            bandits: BanditLedger::new(),
            metrics: Vec::new(),
            grace_ticks,
            starvation_ticks,
            num_camps,
            price_ttl,
            rebalance_interval,
        };
        assert(w@.memories.len() == 0);
        w
    }

    /// Add a living merchant with an empty memory, in no caravan. Refused
    /// (returns `false`, world unchanged) when the id is taken or the
    /// merchant count is at its limit.
    pub fn add_merchant(&mut self, id: u32, profession: Profession) -> (added: bool)
        requires
            old(self).wf(),
        ensures
            final(self).wf(),
            added == (!old(self)@.ids.contains(id) && old(self)@.ids.len() < u32::MAX),
            !added ==> final(self)@ == old(self)@,
            added ==> final(self)@ == (WorldModel {
                ids: old(self)@.ids.push(id),
                statuses: old(self)@.statuses.push(MerchantStatus { alive: true, profession }),
                caravan_of: old(self)@.caravan_of.push(None),
                memories: old(self)@.memories.push(Map::empty()),
                memory_ttls: old(self)@.memory_ttls.push(old(self)@.price_ttl),
                negative_ticks: old(self)@.negative_ticks.push(0),
                ..old(self)@
            }),
    {
        if self.ids.len() == u32::MAX as usize || contains_id(self.ids.as_slice(), id) {
            return false;
        }
        let ghost old_mems = self.memories@;
        let ghost old_tr = self.trackers@;
        self.ids.push(id);
        self.statuses.push(MerchantStatus { alive: true, profession });
        self.caravan_of.push(None);
        self.memories.push(PriceMemory::new(self.price_ttl));
        self.trackers.push(BankruptcyTracker::new());
        proof {
            assert(self.memories@.map_values(|m: PriceMemory<P>| m@.entries) =~= old(self)@.memories.push(Map::empty()));
            assert(self.memories@.map_values(|m: PriceMemory<P>| m@.ttl) =~= old(self)@.memory_ttls.push(old(self)@.price_ttl));
            assert(self.trackers@.map_values(|t: BankruptcyTracker| t.negative_gold_ticks()) =~= old(self)@.negative_ticks.push(0));
            assert forall|a: int, b: int| 0 <= a < b < self.ids@.len() implies self.ids@[a] != self.ids@[b] by {
                if b == self.ids@.len() - 1 {
                    assert(old(self).ids@[a] == self.ids@[a]);
                }
            }
            assert forall|i: int| 0 <= i < self.memories@.len() implies (#[trigger] self.memories@[i]).wf()
                && self.memories@[i]@.ttl == self.price_ttl by {
                if i < old_mems.len() {
                    assert(self.memories@[i] == old_mems[i]);
                }
            }
            assert forall|i: int| 0 <= i < self.statuses@.len() && (#[trigger] self.statuses@[i]).alive
                implies self.trackers@[i].negative_gold_ticks() < u32::MAX by {
                if i < old_tr.len() {
                    assert(self.trackers@[i] == old_tr[i]);
                    assert(self.statuses@[i] == old(self).statuses@[i]);
                }
            }
        }
        true
    }

    /// Add an empty order book for a city.
    pub fn add_book(&mut self, city_id: CityId, has_market_hall: bool)
        requires
            old(self).wf(),
        ensures
            final(self).wf(),
            final(self)@ == (WorldModel { books: final(self)@.books, ..old(self)@ }),
            final(self)@.books.len() == old(self)@.books.len() + 1,
            forall|b: int| 0 <= b < old(self)@.books.len() ==> #[trigger] final(self)@.books[b] == old(self)@.books[b],
            final(self)@.books.last().city_id == city_id,
            final(self)@.books.last().has_market_hall == has_market_hall,
            forall|c: crate::types::Commodity, s: crate::types::Side| #[trigger] final(self)@.books.last().side(c, s)
                == Seq::<Order<P>>::empty(),
            forall|i: int| 0 <= i < 22 ==> #[trigger] final(self)@.books.last().history[i] == Seq::<R>::empty(),
    {
        let ghost old_books = self.books@;
        self.books.push(OrderBook::new(city_id, has_market_hall));
        proof {
            assert forall|b: int| 0 <= b < self.books@.len() implies (#[trigger] self.books@[b]).wf() by {
                if b < old_books.len() {
                    assert(self.books@[b] == old_books[b]);
                }
            }
        }
    }

    /// Place an order in book `b` (a merchant's action at a city). Returns
    /// whether it was placed: `false` when its side is full.
    pub fn place_order(&mut self, b: usize, order: Order<P>) -> (placed: bool)
        requires
            old(self).wf(),
            b < old(self)@.books.len(),
        ensures
            final(self).wf(),
            final(self)@ == (WorldModel { books: final(self)@.books, ..old(self)@ }),
            final(self)@.books.len() == old(self)@.books.len(),
            forall|j: int| 0 <= j < old(self)@.books.len() && j != b ==> #[trigger] final(self)@.books[j] == old(self)@.books[j],
            placed == (old(self)@.books[b as int].side(order.commodity, order.side).len() < crate::order_book::capacity_for(
                old(self)@.books[b as int].has_market_hall,
            )),
            !placed ==> final(self)@.books[b as int] == old(self)@.books[b as int],
            placed ==> final(self)@.books[b as int].side(order.commodity, order.side) == old(self)@.books[b as int].side(
                order.commodity,
                order.side,
            ).push(order),
            forall|c: crate::types::Commodity, s: crate::types::Side|
                (c != order.commodity || s != order.side) ==> #[trigger] final(self)@.books[b as int].side(c, s)
                    == old(self)@.books[b as int].side(c, s),
    {
        let ghost old_books = self.books@;
        assert(self.books@[b as int].wf());
        let placed = self.books[b].place_order(order);
        proof {
            assert forall|j: int| 0 <= j < self.books@.len() implies (#[trigger] self.books@[j]).wf() by {
                if j != b {
                    assert(self.books@[j] == old_books[j]);
                }
            }
            assert(self.books@.len() == old_books.len());
        }
        placed
    }

    /// Record a price a merchant observed (a trade it took part in).
    /// Nothing happens when no living merchant has the id.
    pub fn record_price(&mut self, merchant_id: u32, city_id: CityId, commodity: crate::types::Commodity, price: P)
        requires
            old(self).wf(),
        ensures
            final(self).wf(),
            final(self)@ == (WorldModel {
                memories: record_share(
                    old(self)@.ids,
                    old(self)@.statuses,
                    old(self)@.memories,
                    PriceShare {
                        receiver_id: merchant_id,
                        city_id,
                        commodity,
                        entry: PriceEntry { price, observed_tick: old(self)@.tick },
                    },
                ),
                ..old(self)@
            }),
    {
        let share = PriceShare {
            receiver_id: merchant_id,
            city_id,
            commodity,
            entry: PriceEntry { price, observed_tick: self.current_tick },
        };
        let ghost old_m = self.memories@;
        apply_share(&self.ids, &self.statuses, &mut self.memories, &share);
        proof {
            assert(self.memories@.map_values(|m: PriceMemory<P>| m@.ttl) =~= old_m.map_values(|m: PriceMemory<P>| m@.ttl));
        }
    }

    /// Register a bandit camp with `agent_count` bandits.
    pub fn register_camp(&mut self, agent_count: u32) -> (id: BanditCampId)
        requires
            old(self).wf(),
            old(self)@.bandits.camps.len() < u32::MAX,
            old(self)@.bandits.bandits.len() + agent_count <= u32::MAX,
        ensures
            final(self).wf(),
            id == old(self)@.bandits.camps.len(),
            final(self)@ == (WorldModel { bandits: final(self)@.bandits, ..old(self)@ }),
            final(self)@.bandits.camps == old(self)@.bandits.camps.push(
                CampStatus { id, agent_count, ticks_since_last_robbery: 0, alive: true },
            ),
            final(self)@.bandits.bandits == old(self)@.bandits.bandits + Seq::new(
                agent_count as nat,
                |k: int| crate::bandit::BanditStatus { camp_id: id, active: true },
            ),
    {
        let ghost old_camps = self.bandits@.camps;
        let id = self.bandits.register_camp(agent_count);
        proof {
            assert forall|c: int| 0 <= c < self.bandits@.camps.len() && (#[trigger] self.bandits@.camps[c]).alive
                implies self.bandits@.camps[c].ticks_since_last_robbery < u32::MAX by {
                if c < old_camps.len() {
                    assert(self.bandits@.camps[c] == old_camps[c]);
                }
            }
        }
        id
    }

    // ── Accessors ────────────────────────────────────────────────────────

    /// Ticks completed so far.
    pub fn tick_count(&self) -> (t: u32)
        ensures
            t == self@.tick,
    {
        self.current_tick
    }

    /// The current season.
    pub fn season(&self) -> (s: Season)
        ensures
            s == self@.season,
    {
        self.clock.season()
    }

    /// Ticks spent in the current season.
    pub fn season_tick_counter(&self) -> (c: u32)
        ensures
            c == self@.counter,
    {
        self.clock.ticks_in_season()
    }

    /// Where the world stands within a tick.
    pub fn phase(&self) -> (p: TickPhase)
        ensures
            p == self@.phase,
    {
        self.phase
    }

    /// Merchant ids, in merchant order.
    pub fn merchant_ids(&self) -> (ids: &[u32])
        ensures
            ids@ == self@.ids,
    {
        self.ids.as_slice()
    }

    /// Life status and profession of every merchant.
    pub fn statuses(&self) -> (st: &[MerchantStatus])
        ensures
            st@ == self@.statuses,
    {
        self.statuses.as_slice()
    }

    /// Caravan of every merchant.
    pub fn caravan_ids(&self) -> (c: &[Option<u32>])
        ensures
            c@ == self@.caravan_of,
    {
        self.caravan_of.as_slice()
    }

    /// Price memory of merchant `i`.
    pub fn memory(&self, i: usize) -> (m: &PriceMemory<P>)
        requires
            self.wf(),
            i < self@.memories.len(),
        ensures
            m@.entries == self@.memories[i as int],
            m@.ttl == self@.price_ttl,
            m@.ttl == self@.memory_ttls[i as int],
    {
        &self.memories[i]
    }

    /// The order books.
    pub fn books(&self) -> (b: &[OrderBook<P, R>])
        ensures
            b@.map_values(|x: OrderBook<P, R>| x@) == self@.books,
    {
        self.books.as_slice()
    }

    /// The caravan system.
    pub fn caravans(&self) -> (c: &CaravanSystem)
        ensures
            c@ == self@.caravans,
    {
        &self.caravans
    }

    /// The bandit ledger.
    pub fn bandits(&self) -> (b: &BanditLedger)
        ensures
            b@ == self@.bandits,
    {
        &self.bandits
    }

    /// The recorded metrics, oldest first.
    pub fn metrics(&self) -> (m: &[WorldMetrics])
        ensures
            m@ == self@.metrics,
    {
        self.metrics.as_slice()
    }

    /// The metrics of the last completed tick, if any.
    pub fn latest_metrics(&self) -> (m: Option<WorldMetrics>)
        ensures
            m == (if self@.metrics.len() == 0 { None } else { Some(self@.metrics.last()) }),
    {
        if self.metrics.len() == 0 {
            None
        } else {
            Some(self.metrics[self.metrics.len() - 1])
        }
    }
}

impl<P: Copy, R: Copy> WorldState<P, R> {
    /// First phase of a tick (update step 1): the season clock advances.
    /// The merchants then act, placing their orders with `place_order`.
    pub fn begin_tick(&mut self)
        requires
            old(self).wf(),
            old(self)@.phase == TickPhase::Idle,
        ensures
            final(self).wf(),
            final(self)@.phase == TickPhase::Acting,
            (final(self)@.season, final(self)@.counter as int) == clock_after(
                old(self)@.season,
                old(self)@.counter as int,
                old(self)@.season_len as int,
                1,
            ),
            final(self)@ == (WorldModel {
                phase: final(self)@.phase,
                season: final(self)@.season,
                counter: final(self)@.counter,
                ..old(self)@
            }),
    {
        self.clock.advance(self.season_len);
        self.phase = TickPhase::Acting;
    }

    /// Second phase of a tick (end of update step 4): once the merchants'
    /// orders are placed, every order book drops the orders that have
    /// expired at the current tick. The caller then generates demand and
    /// matches orders, recording observed prices with `record_price`.
    pub fn expire_orders(&mut self)
        requires
            old(self).wf(),
            old(self)@.phase == TickPhase::Acting,
        ensures
            final(self).wf(),
            final(self)@.phase == TickPhase::Trading,
            final(self)@ == (WorldModel { phase: final(self)@.phase, books: final(self)@.books, ..old(self)@ }),
            final(self)@.books.len() == old(self)@.books.len(),
            forall|b: int, c: crate::types::Commodity, s: crate::types::Side|
                0 <= b < old(self)@.books.len() ==> #[trigger] final(self)@.books[b].side(c, s) == live_orders(
                    old(self)@.books[b].side(c, s),
                    old(self)@.tick,
                ),
            forall|b: int|
                0 <= b < old(self)@.books.len() ==> {
                    &&& (#[trigger] final(self)@.books[b]).history == old(self)@.books[b].history
                    &&& final(self)@.books[b].city_id == old(self)@.books[b].city_id
                    &&& final(self)@.books[b].has_market_hall == old(self)@.books[b].has_market_hall
                },
    {
        self.phase = TickPhase::Trading;
        let tick = self.current_tick;
        expire_books(&mut self.books, tick);
    }

    /// Last phase of a tick (update steps 11 and 12), after the caller has
    /// settled gold: each living merchant's bankruptcy counter is ticked with
    /// `gold_negative[i]` and the merchant dies when it reaches the grace
    /// period; on a rebalance tick the professions are rebalanced by `plan`;
    /// the tick's metrics are recorded, keeping the last `METRICS_WINDOW`;
    /// the tick counter advances.
    pub fn end_tick(&mut self, gold_negative: &[bool], total_trades: u32, plan: &RebalancePlan, rng: &mut StdRng) -> (out: TickEnd)
        requires
            old(self).wf(),
            old(self)@.phase == TickPhase::Settling,
            gold_negative@.len() == old(self)@.ids.len(),
            plan_fits(*plan, old(self)@.ids.len()),
            old(self)@.tick < u32::MAX,
        ensures
            final(self).wf(),
            final(self)@.phase == TickPhase::Idle,
            final(self)@.tick == old(self)@.tick + 1,
            ({
                let (st1, neg1) = after_bankruptcy(
                    old(self)@.statuses,
                    old(self)@.negative_ticks,
                    gold_negative@,
                    old(self)@.grace_ticks,
                );
                &&& final(self)@.negative_ticks == neg1
                &&& out.rebalanced == (old(self)@.tick > 0 && old(self)@.tick % old(self)@.rebalance_interval == 0)
                &&& !out.rebalanced ==> final(self)@.statuses == st1 && out.made_farmers@.len() == 0
                &&& out.rebalanced ==> final(self)@.statuses == after_rebalance(st1, *plan, out.made_farmers@)
                &&& out.rebalanced ==> emergency_choice(st1, *plan, out.made_farmers@)
            }),
            out.metrics.tick == old(self)@.tick,
            out.metrics.season == old(self)@.season,
            out.metrics.total_trades == total_trades,
            out.metrics.alive_merchants == count_alive(final(self)@.statuses, final(self)@.statuses.len()),
            forall|p: Profession| #[trigger] out.metrics.profession_counts@[profession_rank(p)] == count_alive_with(
                final(self)@.statuses,
                p,
                final(self)@.statuses.len(),
            ),
            final(self)@.metrics == window(old(self)@.metrics.push(out.metrics), METRICS_WINDOW),
            final(self)@ == (WorldModel {
                tick: final(self)@.tick,
                phase: final(self)@.phase,
                statuses: final(self)@.statuses,
                negative_ticks: final(self)@.negative_ticks,
                metrics: final(self)@.metrics,
                ..old(self)@
            }),
    {
        bankruptcy_step(&mut self.statuses, &mut self.trackers, gold_negative, self.grace_ticks);
        let ghost st1 = self.statuses@;
        let rebalanced = is_rebalance_tick(self.current_tick, self.rebalance_interval);
        let mut made_farmers: Vec<usize> = Vec::new();
        if rebalanced {
            match plan {
                RebalancePlan::Normal { worst, best, most_needed, accept } => {
                    normal_rebalance(&mut self.statuses, *worst, *best, *most_needed, accept.as_slice());
                    assert(self.statuses@ =~= after_rebalance(st1, *plan, made_farmers@));
                },
                RebalancePlan::Emergency { low_gold } => {
                    made_farmers = emergency_rebalance(&mut self.statuses, low_gold.as_slice(), rng);
                    assert(self.statuses@ =~= after_rebalance(st1, *plan, made_farmers@));
                },
            }
        }
        proof {
            assert forall|k: int| 0 <= k < self.statuses@.len() && (#[trigger] self.statuses@[k]).alive
                implies self.trackers@[k].negative_gold_ticks() < u32::MAX by {
                assert(self.statuses@[k].alive == st1[k].alive);
            }
        }
        let alive = alive_count(self.statuses.as_slice());
        let counts = profession_counts(self.statuses.as_slice());
        let snap = WorldMetrics {
            tick: self.current_tick,
            season: self.clock.season(),
            alive_merchants: alive,
            total_trades,
            profession_counts: [counts[0], counts[1], counts[2], counts[3], counts[4], counts[5], counts[6]],
        };
        proof {
            assert forall|p: Profession| #[trigger] snap.profession_counts@[profession_rank(p)] == count_alive_with(
                self.statuses@,
                p,
                self.statuses@.len() as nat,
            ) by {
                assert(counts@[profession_rank(p)] == count_alive_with(self.statuses@, p, self.statuses@.len() as nat));
            }
        }
        let ghost pushed = self.metrics@.push(snap);
        self.metrics.push(snap);
        if self.metrics.len() > METRICS_WINDOW {
            self.metrics.remove(0);
            assert(self.metrics@ =~= pushed.subrange(pushed.len() - METRICS_WINDOW, pushed.len() as int));
        }
        self.current_tick = self.current_tick + 1;
        self.phase = TickPhase::Idle;
        proof {
            assert(self.statuses@.len() == self.ids@.len());
            assert(self.trackers@.len() == self.ids@.len());
            assert(self.metrics@.len() <= METRICS_WINDOW);
        }
        TickEnd { metrics: snap, rebalanced, made_farmers }
    }
}

/// Drop the expired orders of every book.
fn expire_books<P: Copy, R: Copy>(books: &mut Vec<OrderBook<P, R>>, tick: u32)
    requires
        forall|j: int| 0 <= j < old(books)@.len() ==> (#[trigger] old(books)@[j]).wf(),
    ensures
        final(books)@.len() == old(books)@.len(),
        forall|j: int| 0 <= j < final(books)@.len() ==> (#[trigger] final(books)@[j]).wf(),
        forall|j: int, c: crate::types::Commodity, s: crate::types::Side|
            0 <= j < final(books)@.len() ==> #[trigger] final(books)@[j]@.side(c, s) == live_orders(old(books)@[j]@.side(c, s), tick),
        forall|j: int|
            0 <= j < final(books)@.len() ==> {
                &&& (#[trigger] final(books)@[j])@.history == old(books)@[j]@.history
                &&& final(books)@[j]@.city_id == old(books)@[j]@.city_id
                &&& final(books)@[j]@.has_market_hall == old(books)@[j]@.has_market_hall
            },
{
    let ghost old_books = books@;
    let mut b: usize = 0;
    while b < books.len()
        invariant
            b <= books@.len(),
            books@.len() == old_books.len(),
            forall|j: int| 0 <= j < books@.len() ==> (#[trigger] books@[j]).wf(),
            forall|j: int| b <= j < books@.len() ==> #[trigger] books@[j] == old_books[j],
            forall|j: int, c: crate::types::Commodity, s: crate::types::Side|
                0 <= j < b ==> #[trigger] books@[j]@.side(c, s) == live_orders(old_books[j]@.side(c, s), tick),
            forall|j: int|
                0 <= j < b ==> {
                    &&& (#[trigger] books@[j])@.history == old_books[j]@.history
                    &&& books@[j]@.city_id == old_books[j]@.city_id
                    &&& books@[j]@.has_market_hall == old_books[j]@.has_market_hall
                },
        decreases books@.len() - b,
    {
        let ghost before = books@;
        assert(books@[b as int].wf());
        books[b].expire_orders(tick);
        proof {
            assert forall|j: int| 0 <= j < books@.len() && j != b implies #[trigger] books@[j] == before[j] by {}
        }
        b += 1;
    }
}

/// Tick the bankruptcy counter of every living merchant and mark the
/// bankrupt ones dead.
fn bankruptcy_step(
    statuses: &mut Vec<MerchantStatus>,
    trackers: &mut Vec<BankruptcyTracker>,
    gold_negative: &[bool],
    grace: u32,
)
    requires
        old(statuses)@.len() == old(trackers)@.len(),
        gold_negative@.len() == old(statuses)@.len(),
        forall|k: int|
            0 <= k < old(statuses)@.len() && (#[trigger] old(statuses)@[k]).alive
                ==> old(trackers)@[k].negative_gold_ticks() < u32::MAX,
    ensures
        final(statuses)@.len() == old(statuses)@.len(),
        final(trackers)@.len() == old(trackers)@.len(),
        (final(statuses)@, final(trackers)@.map_values(|t: BankruptcyTracker| t.negative_gold_ticks()))
            == after_bankruptcy(
            old(statuses)@,
            old(trackers)@.map_values(|t: BankruptcyTracker| t.negative_gold_ticks()),
            gold_negative@,
            grace,
        ),
        forall|k: int|
            0 <= k < final(statuses)@.len() && (#[trigger] final(statuses)@[k]).alive
                ==> final(trackers)@[k].negative_gold_ticks() < u32::MAX,
{
    let ghost old_st = statuses@;
    let ghost old_tr = trackers@;
    let ghost target = after_bankruptcy(
        old_st,
        old_tr.map_values(|t: BankruptcyTracker| t.negative_gold_ticks()),
        gold_negative@,
        grace,
    );
    let n = statuses.len();
    let mut i: usize = 0;
    while i < n
        invariant
            i <= n,
            statuses@.len() == n,
            trackers@.len() == n,
            old_st.len() == n,
            old_tr.len() == n,
            gold_negative@.len() == n,
            target == after_bankruptcy(
                old_st,
                old_tr.map_values(|t: BankruptcyTracker| t.negative_gold_ticks()),
                gold_negative@,
                grace,
            ),
            forall|k: int| 0 <= k < n && (#[trigger] old_st[k]).alive ==> old_tr[k].negative_gold_ticks() < u32::MAX,
            forall|k: int| 0 <= k < i ==> #[trigger] statuses@[k] == target.0[k],
            forall|k: int| 0 <= k < i ==> (#[trigger] trackers@[k]).negative_gold_ticks() == target.1[k],
            forall|k: int| i <= k < n ==> #[trigger] statuses@[k] == old_st[k],
            forall|k: int| i <= k < n ==> #[trigger] trackers@[k] == old_tr[k],
        decreases n - i,
    {
        if statuses[i].alive {
            let mut t = trackers[i];
            let bankrupt = t.tick_bankruptcy(gold_negative[i], grace);
            trackers.set(i, t);
            if bankrupt {
                let prof = statuses[i].profession;
                statuses.set(i, MerchantStatus { alive: false, profession: prof });
            }
        }
        i += 1;
    }
    proof {
        assert(statuses@ =~= target.0);
        assert(trackers@.map_values(|t: BankruptcyTracker| t.negative_gold_ticks()) =~= target.1);
        assert forall|k: int| 0 <= k < statuses@.len() && (#[trigger] statuses@[k]).alive
            implies trackers@[k].negative_gold_ticks() < u32::MAX by {
            assert(statuses@[k] == target.0[k]);
        }
    }
}

/// The candidates at positions `pos` of the merchant columns.
pub open spec fn candidates_at(ids: Seq<u32>, cav: Seq<Option<u32>>, pos: Seq<int>) -> Seq<CaravanCandidate> {
    Seq::new(pos.len(), |k: int| CaravanCandidate { id: ids[pos[k]], caravan_id: cav[pos[k]] })
}

proof fn lemma_alive_positions(st: Seq<MerchantStatus>, n: nat)
    requires
        n <= st.len(),
    ensures
        alive_positions(st, n).len() <= n,
        forall|k: int|
            0 <= k < alive_positions(st, n).len() ==> 0 <= #[trigger] alive_positions(st, n)[k] < n && st[alive_positions(
                st,
                n,
            )[k]].alive,
        forall|a: int, b: int|
            0 <= a < b < alive_positions(st, n).len() ==> #[trigger] alive_positions(st, n)[a] < #[trigger] alive_positions(
                st,
                n,
            )[b],
    decreases n,
{
    if n > 0 {
        lemma_alive_positions(st, (n - 1) as nat);
    }
}

/// Positions of the living merchants, in order.
fn living_positions(statuses: &Vec<MerchantStatus>) -> (pos: Vec<usize>)
    ensures
        pos@.len() == alive_positions(statuses@, statuses@.len()).len(),
        forall|k: int| 0 <= k < pos@.len() ==> #[trigger] pos@[k] as int == alive_positions(statuses@, statuses@.len())[k],
{
    let mut pos: Vec<usize> = Vec::new();
    let mut i: usize = 0;
    while i < statuses.len()
        invariant
            i <= statuses@.len(),
            pos@.len() == alive_positions(statuses@, i as nat).len(),
            forall|k: int| 0 <= k < pos@.len() ==> #[trigger] pos@[k] as int == alive_positions(statuses@, i as nat)[k],
        decreases statuses@.len() - i,
    {
        if statuses[i].alive {
            pos.push(i);
        }
        i += 1;
    }
    pos
}

/// Caravan of every merchant after `members` are given caravan `v`.
fn assign_caravans(ids: &Vec<u32>, cav: &mut Vec<Option<u32>>, members: &[u32], v: Option<u32>)
    requires
        old(cav)@.len() == ids@.len(),
    ensures
        final(cav)@ == assign_caravan(ids@, old(cav)@, members@, v),
{
    let ghost old_cav = cav@;
    let mut i: usize = 0;
    while i < cav.len()
        invariant
            i <= cav@.len(),
            cav@.len() == ids@.len(),
            old_cav.len() == ids@.len(),
            forall|k: int| 0 <= k < i ==> #[trigger] cav@[k] == assign_caravan(ids@, old_cav, members@, v)[k],
            forall|k: int| i <= k < cav@.len() ==> #[trigger] cav@[k] == old_cav[k],
        decreases cav@.len() - i,
    {
        if contains_id(members, ids[i]) {
            cav.set(i, v);
        }
        i += 1;
    }
    assert(cav@ =~= assign_caravan(ids@, old_cav, members@, v));
}

/// Merge the memories of one caravan's living members.
fn apply_merge<P: Copy>(
    ids: &Vec<u32>,
    statuses: &Vec<MerchantStatus>,
    memories: &mut Vec<PriceMemory<P>>,
    group: &[u32],
)
    requires
        ids@.len() == statuses@.len(),
        ids@.len() == old(memories)@.len(),
        forall|i: int| 0 <= i < old(memories)@.len() ==> (#[trigger] old(memories)@[i]).wf(),
    ensures
        final(memories)@.len() == old(memories)@.len(),
        forall|i: int| 0 <= i < final(memories)@.len() ==> (#[trigger] final(memories)@[i]).wf(),
        forall|i: int| 0 <= i < final(memories)@.len() ==> (#[trigger] final(memories)@[i])@.ttl == old(memories)@[i]@.ttl,
        final(memories)@.map_values(|m: PriceMemory<P>| m@.entries) == merge_group(
            ids@,
            statuses@,
            old(memories)@.map_values(|m: PriceMemory<P>| m@.entries),
            group@,
        ),
{
    let ghost old_m = memories@;
    let ghost mems = old_m.map_values(|m: PriceMemory<P>| m@.entries);
    let n = memories.len();
    let mut snaps: Vec<PriceMemory<P>> = Vec::new();
    let mut i: usize = 0;
    while i < n
        invariant
            i <= n,
            n == memories@.len(),
            memories@ == old_m,
            ids@.len() == n,
            statuses@.len() == n,
            mems == old_m.map_values(|m: PriceMemory<P>| m@.entries),
            forall|k: int| 0 <= k < n ==> (#[trigger] old_m[k]).wf(),
            forall|k: int| 0 <= k < snaps@.len() ==> (#[trigger] snaps@[k]).wf(),
            snaps@.map_values(|m: PriceMemory<P>| m@.entries) == group_snapshots(ids@, statuses@, mems, group@, i as nat),
        decreases n - i,
    {
        if contains_id(group, ids[i]) && statuses[i].alive {
            let ghost before = snaps@;
            let d = memories[i].duplicate();
            snaps.push(d);
            assert(snaps@.map_values(|m: PriceMemory<P>| m@.entries) =~= before.map_values(
                |m: PriceMemory<P>| m@.entries,
            ).push(mems[i as int]));
        }
        i += 1;
    }
    let ghost sm = snaps@.map_values(|m: PriceMemory<P>| m@.entries);
    let ghost target = merge_group(ids@, statuses@, mems, group@);
    let mut i: usize = 0;
    while i < n
        invariant
            i <= n,
            n == memories@.len(),
            old_m.len() == n,
            ids@.len() == n,
            statuses@.len() == n,
            mems == old_m.map_values(|m: PriceMemory<P>| m@.entries),
            sm == snaps@.map_values(|m: PriceMemory<P>| m@.entries),
            sm == group_snapshots(ids@, statuses@, mems, group@, n as nat),
            target == merge_group(ids@, statuses@, mems, group@),
            forall|k: int| 0 <= k < snaps@.len() ==> (#[trigger] snaps@[k]).wf(),
            forall|k: int| 0 <= k < n ==> (#[trigger] memories@[k]).wf(),
            forall|k: int| 0 <= k < n ==> (#[trigger] memories@[k])@.ttl == old_m[k]@.ttl,
            forall|k: int| 0 <= k < i ==> (#[trigger] memories@[k])@.entries == target[k],
            forall|k: int| i <= k < n ==> #[trigger] memories@[k] == old_m[k],
        decreases n - i,
    {
        if contains_id(group, ids[i]) && statuses[i].alive {
            let mut q: usize = 0;
            while q < snaps.len()
                invariant
                    i < n,
                    q <= snaps@.len(),
                    n == memories@.len(),
                    old_m.len() == n,
                    mems == old_m.map_values(|m: PriceMemory<P>| m@.entries),
                    sm == snaps@.map_values(|m: PriceMemory<P>| m@.entries),
                    forall|k: int| 0 <= k < snaps@.len() ==> (#[trigger] snaps@[k]).wf(),
                    forall|k: int| 0 <= k < n ==> (#[trigger] memories@[k]).wf(),
                    forall|k: int| 0 <= k < n ==> (#[trigger] memories@[k])@.ttl == old_m[k]@.ttl,
                    memories@[i as int]@.entries == merge_all(mems[i as int], sm.take(q as int)),
                    forall|k: int| 0 <= k < i ==> (#[trigger] memories@[k])@.entries == target[k],
                    forall|k: int| i < k < n ==> #[trigger] memories@[k] == old_m[k],
                decreases snaps@.len() - q,
            {
                let ghost before = memories@;
                assert(snaps@[q as int].wf());
                assert(memories@[i as int].wf());
                memories[i].merge(&snaps[q]);
                proof {
                    assert forall|k: int| 0 <= k < n && k != i implies #[trigger] memories@[k] == before[k] by {}
                    assert(sm.take(q + 1).drop_last() =~= sm.take(q as int));
                    assert(sm.take(q + 1).last() == sm[q as int]);
                }
                q += 1;
            }
            assert(sm.take(snaps@.len() as int) =~= sm);
        }
        i += 1;
    }
    assert(memories@.map_values(|m: PriceMemory<P>| m@.entries) =~= target);
}

/// Members plus escorts of the merchant's caravan, or 1 outside a caravan.
pub open spec fn group_size_spec(caravans: Seq<crate::caravan::CaravanModel>, cav: Option<u32>) -> u32 {
    match cav {
        None => 1,
        Some(id) => match first_index(caravans, |c: crate::caravan::CaravanModel| c.id == id) {
            Some(i) => if caravans[i].members.len() + caravans[i].escorts.len() > u32::MAX {
                u32::MAX
            } else {
                (caravans[i].members.len() + caravans[i].escorts.len()) as u32
            },
            None => 1,
        },
    }
}

fn group_size_of(caravans: &CaravanSystem, cav: Option<u32>) -> (g: u32)
    ensures
        g == group_size_spec(caravans@.caravans, cav),
{
    match cav {
        None => 1,
        Some(id) => match caravans.get_caravan(id) {
            Some(c) => {
                let m = c.member_ids.len();
                let e = c.escort_ids.len();
                if m > u32::MAX as usize || e > u32::MAX as usize - m {
                    u32::MAX
                } else {
                    (m + e) as u32
                }
            },
            None => 1,
        },
    }
}

/// Copy of a memory's entries, for a gossip agent.
fn copy_entries<P: Copy>(s: &[(CityId, crate::types::Commodity, PriceEntry<P>)]) -> (v: Vec<(CityId, crate::types::Commodity, PriceEntry<P>)>)
    ensures
        v@ == s@,
{
    let mut v = Vec::new();
    let mut i: usize = 0;
    while i < s.len()
        invariant
            i <= s@.len(),
            v@ == s@.take(i as int),
        decreases s@.len() - i,
    {
        v.push(s[i]);
        i += 1;
        assert(v@ =~= s@.take(i as int));
    }
    assert(v@ =~= s@);
    v
}

impl<P: Copy, R: Copy> WorldState<P, R> {
    /// Middle phase of a tick (update steps 5 and 10), on the caller's
    /// judgements `inp`:
    /// - gossip among the living merchants; shared prices are recorded and
    ///   caravans merge their memories;
    /// - caravans: the living merchants are the candidates; they try to lead
    ///   in order of sociability, a new caravan's members join it, dissolved
    ///   caravans' members leave them, and soldiers near a caravan escort it;
    /// - bandits attack (each caravan member counting its caravan's members
    ///   and escorts as its group), then starved camps are destroyed.
    pub fn tick_world(&mut self, inp: &TickInputs, rng: &mut StdRng) -> (out: TickOutcome<P>)
        requires
            old(self).wf(),
            old(self)@.phase == TickPhase::Trading,
            inp.fits(old(self)@),
        ensures
            final(self).wf(),
            final(self)@.phase == TickPhase::Settling,
            final(self)@.memories == after_gossip(
                old(self)@.ids,
                old(self)@.statuses,
                old(self)@.memories,
                out.gossip,
            ),
            final(self)@.caravan_of == after_caravan_events(
                old(self)@.ids,
                old(self)@.caravan_of,
                out.formations@,
                out.dissolutions@,
            ),
            final(self)@.caravans.caravans.len() == old(self)@.caravans.caravans.len() + out.formations@.len()
                - out.dissolutions@.len(),
            exists|agents: Seq<GossipAgent<P, ()>>, pick: spec_fn(int, int, bool) -> int|
                #[trigger] gossip_round(old(self)@, inp.talks@, out.gossip, agents, pick),
            exists|inits: Seq<usize>|
                #[trigger] caravan_round(
                    old(self)@,
                    *inp,
                    out.formations@,
                    out.dissolutions@,
                    out.fees@,
                    final(self)@.caravans,
                    inits,
                ),
            exists|repel: spec_fn(int, int) -> bool, win: spec_fn(int, int) -> bool|
                #[trigger] bandit_round(
                    old(self)@,
                    *inp,
                    out.attacks@,
                    out.camps_destroyed@,
                    final(self)@.caravan_of,
                    final(self)@.caravans.caravans,
                    final(self)@.bandits,
                    repel,
                    win,
                ),
            out.camps_to_spawn == crate::bandit::respawn_quota(
                crate::bandit::alive_count(final(self)@.bandits.camps),
                old(self)@.num_camps,
            ),
            final(self)@ == (WorldModel {
                phase: final(self)@.phase,
                memories: final(self)@.memories,
                caravan_of: final(self)@.caravan_of,
                caravans: final(self)@.caravans,
                bandits: final(self)@.bandits,
                ..old(self)@
            }),
    {
        let ghost m0 = self@;
        let pos = living_positions(&self.statuses);
        let gossip = self.run_gossip(&pos, inp, rng);
        let ghost m1 = self@;
        let cs = self.run_caravans(&pos, inp);
        let ghost m2 = self@;
        let bs = self.run_bandits(&pos, inp, rng);
        self.phase = TickPhase::Settling;
        let out = TickOutcome {
            gossip,
            formations: cs.formations,
            dissolutions: cs.dissolutions,
            fees: cs.fees,
            attacks: bs.attacks,
            camps_destroyed: bs.destroyed,
            camps_to_spawn: bs.to_spawn,
        };
        proof {
            let (agents, pick) = choose|agents: Seq<GossipAgent<P, ()>>, pick: spec_fn(int, int, bool) -> int|
                gossip_round(m0, inp.talks@, out.gossip, agents, pick);
            assert(gossip_round(m0, inp.talks@, out.gossip, agents, pick));
            let inits = cs.inits@;
            assert(candidates_of(m1) == candidates_of(m0));
            assert(caravan_round(m0, *inp, out.formations@, out.dissolutions@, out.fees@, self@.caravans, inits));
            let (repel, win) = bs.rolls@;
            assert(bandit_round(
                m0,
                *inp,
                out.attacks@,
                out.camps_destroyed@,
                self@.caravan_of,
                self@.caravans.caravans,
                self@.bandits,
                repel,
                win,
            ));
        }
        out
    }

    /// Gossip step of the middle phase.
    #[verifier::loop_isolation(false)]
    fn run_gossip(&mut self, pos: &Vec<usize>, inp: &TickInputs, rng: &mut StdRng) -> (r: GossipResult<P, ()>)
        requires
            old(self).wf(),
            pos@.len() == alive_positions(old(self)@.statuses, old(self)@.statuses.len()).len(),
            forall|t: int| 0 <= t < pos@.len() ==> #[trigger] pos@[t] as int == alive_positions(
                old(self)@.statuses,
                old(self)@.statuses.len(),
            )[t],
            square(inp.talks@, pos@.len() as nat),
        ensures
            final(self).wf(),
            exists|agents: Seq<GossipAgent<P, ()>>, pick: spec_fn(int, int, bool) -> int|
                #[trigger] gossip_round(old(self)@, inp.talks@, r, agents, pick),
            final(self)@ == (WorldModel {
                memories: after_gossip(old(self)@.ids, old(self)@.statuses, old(self)@.memories, r),
                ..old(self)@
            }),
    {
        let ghost m0 = self@;
        let n_all = self.ids.len();
        let n = pos.len();
        proof {
            lemma_alive_positions(self.statuses@, self.statuses@.len() as nat);
            assert forall|t: int| 0 <= t < n implies (#[trigger] pos@[t]) < n_all by {}
        }
        // ── Gossip ──────────────────────────────────────────────────────
        let mut agents: Vec<GossipAgent<P, ()>> = Vec::new();
        let mut k: usize = 0;
        while k < n
            invariant
                k <= n,
                n == pos@.len(),
                n_all == self.ids@.len(),
                self.wf(),
                self@ == m0,
                forall|t: int| 0 <= t < n ==> (#[trigger] pos@[t]) < n_all,
                agents@.len() == k,
                forall|t: int|
                    0 <= t < k ==> {
                        &&& (#[trigger] agents@[t]).id == m0.ids[pos@[t] as int]
                        &&& agents@[t].caravan_id == m0.caravan_of[pos@[t] as int]
                        &&& keys_distinct(agents@[t].prices@)
                        &&& entries_map(agents@[t].prices@) == m0.memories[pos@[t] as int]
                        &&& agents@[t].known_camps@.len() == 0
                    },
            decreases n - k,
        {
            let i = pos[k];
            assert(self.memories@[i as int].wf());
            let prices = copy_entries(self.memories[i].all_entries());
            agents.push(GossipAgent { id: self.ids[i], caravan_id: self.caravan_of[i], prices, known_camps: Vec::new() });
            k += 1;
        }
        proof {
            let cs0 = candidates_of(m0);
            assert(crate::gossip::agent_ids(agents@) =~= cs0.map_values(|c: CaravanCandidate| c.id));
            assert(crate::gossip::agent_caravans(agents@) =~= cs0.map_values(|c: CaravanCandidate| c.caravan_id));
        }
        let gossip = tick_gossip(agents.as_slice(), inp.talks.as_slice(), self.current_tick, self.price_ttl, rng);
        let ghost ag = agents@;
        let ghost gpick = choose|pick: spec_fn(int, int, bool) -> int|
            valid_picks(ag, inp.talks@, m0.tick, m0.price_ttl, pick) && gossip.price_shares@ == rows(
                #[trigger] pair_prices(ag, inp.talks@, m0.tick, m0.price_ttl, pick),
                ag.len() as int,
                ag.len() as int,
            );
        proof {
            let posi = alive_positions(m0.statuses, m0.statuses.len());
            assert forall|t: int| 0 <= t < n implies #[trigger] pos@[t] as int == posi[t] by {}
            assert(gossip_round(m0, inp.talks@, gossip, ag, gpick));
        }
        let mut s: usize = 0;
        while s < gossip.price_shares.len()
            invariant
                s <= gossip.price_shares@.len(),
                self.caravan_of == old(self).caravan_of,
                self.caravans == old(self).caravans,
                self.bandits == old(self).bandits,
                self.books == old(self).books,
                self.trackers == old(self).trackers,
                self.metrics == old(self).metrics,
                self.clock == old(self).clock,
                self.season_len == old(self).season_len,
                self.current_tick == old(self).current_tick,
                self.grace_ticks == old(self).grace_ticks,
                self.starvation_ticks == old(self).starvation_ticks,
                self.num_camps == old(self).num_camps,
                self.price_ttl == old(self).price_ttl,
                self.rebalance_interval == old(self).rebalance_interval,
                self.phase == old(self).phase,
                self.ids@ == m0.ids,
                self.statuses@ == m0.statuses,
                self.memories@.len() == m0.ids.len(),
                forall|t: int| 0 <= t < self.memories@.len() ==> (#[trigger] self.memories@[t]).wf(),
                forall|t: int| 0 <= t < self.memories@.len() ==> (#[trigger] self.memories@[t])@.ttl == self.price_ttl,
                self@.memories == after_shares(m0.ids, m0.statuses, m0.memories, gossip.price_shares@.take(s as int)),
            decreases gossip.price_shares@.len() - s,
        {
            apply_share(&self.ids, &self.statuses, &mut self.memories, &gossip.price_shares[s]);
            proof {
                let t = gossip.price_shares@.take(s + 1);
                assert(t.drop_last() =~= gossip.price_shares@.take(s as int));
            }
            s += 1;
        }
        assert(gossip.price_shares@.take(gossip.price_shares@.len() as int) =~= gossip.price_shares@);
        let ghost shared = self@.memories;
        let ghost groups = gossip.caravan_merges@.map_values(|g: Vec<u32>| g@);
        let mut g: usize = 0;
        while g < gossip.caravan_merges.len()
            invariant
                g <= gossip.caravan_merges@.len(),
                self.caravan_of == old(self).caravan_of,
                self.caravans == old(self).caravans,
                self.bandits == old(self).bandits,
                self.books == old(self).books,
                self.trackers == old(self).trackers,
                self.metrics == old(self).metrics,
                self.clock == old(self).clock,
                self.season_len == old(self).season_len,
                self.current_tick == old(self).current_tick,
                self.grace_ticks == old(self).grace_ticks,
                self.starvation_ticks == old(self).starvation_ticks,
                self.num_camps == old(self).num_camps,
                self.price_ttl == old(self).price_ttl,
                self.rebalance_interval == old(self).rebalance_interval,
                self.phase == old(self).phase,
                groups == gossip.caravan_merges@.map_values(|g: Vec<u32>| g@),
                self.ids@ == m0.ids,
                self.statuses@ == m0.statuses,
                self.memories@.len() == m0.ids.len(),
                forall|t: int| 0 <= t < self.memories@.len() ==> (#[trigger] self.memories@[t]).wf(),
                forall|t: int| 0 <= t < self.memories@.len() ==> (#[trigger] self.memories@[t])@.ttl == self.price_ttl,
                self@.memories == after_merges(m0.ids, m0.statuses, shared, groups.take(g as int)),
            decreases gossip.caravan_merges@.len() - g,
        {
            apply_merge(&self.ids, &self.statuses, &mut self.memories, gossip.caravan_merges[g].as_slice());
            proof {
                let t = groups.take(g + 1);
                assert(t.drop_last() =~= groups.take(g as int));
                assert(t.last() == gossip.caravan_merges@[g as int]@);
            }
            g += 1;
        }
        assert(groups.take(groups.len() as int) =~= groups);
        assert(self@.memories == after_gossip(m0.ids, m0.statuses, m0.memories, gossip));
        assert(self@.memory_ttls =~= m0.memory_ttls);

        gossip
    }

    /// Caravan step of the middle phase.
    #[verifier::loop_isolation(false)]
    fn run_caravans(&mut self, pos: &Vec<usize>, inp: &TickInputs) -> (r: CaravanStep)
        requires
            old(self).wf(),
            pos@.len() == alive_positions(old(self)@.statuses, old(self)@.statuses.len()).len(),
            forall|t: int| 0 <= t < pos@.len() ==> #[trigger] pos@[t] as int == alive_positions(
                old(self)@.statuses,
                old(self)@.statuses.len(),
            )[t],
            inp.fits(old(self)@),
        ensures
            final(self).wf(),
            caravan_round(
                old(self)@,
                *inp,
                r.formations@,
                r.dissolutions@,
                r.fees@,
                final(self)@.caravans,
                r.inits@,
            ),
            final(self)@.caravan_of == after_caravan_events(
                old(self)@.ids,
                old(self)@.caravan_of,
                r.formations@,
                r.dissolutions@,
            ),
            final(self)@.caravans.caravans.len() == old(self)@.caravans.caravans.len() + r.formations@.len()
                - r.dissolutions@.len(),
            final(self)@ == (WorldModel {
                caravan_of: final(self)@.caravan_of,
                caravans: final(self)@.caravans,
                ..old(self)@
            }),
    {
        let ghost m0 = self@;
        let n_all = self.ids.len();
        let n = pos.len();
        proof {
            lemma_alive_positions(self.statuses@, self.statuses@.len() as nat);
            assert forall|t: int| 0 <= t < n implies (#[trigger] pos@[t]) < n_all by {}
        }
        // ── Caravans ────────────────────────────────────────────────────
        let mut cands: Vec<CaravanCandidate> = Vec::new();
        let mut k: usize = 0;
        while k < n
            invariant
                k <= n,
                n == pos@.len(),
                n_all == self.ids@.len(),
                self.ids@ == m0.ids,
                self.caravan_of@ == m0.caravan_of,
                m0.caravan_of.len() == n_all,
                forall|t: int| 0 <= t < n ==> (#[trigger] pos@[t]) < n_all,
                cands@ == candidates_at(m0.ids, m0.caravan_of, pos@.map_values(|p: usize| p as int)).take(k as int),
            decreases n - k,
        {
            let i = pos[k];
            cands.push(CaravanCandidate { id: self.ids[i], caravan_id: self.caravan_of[i] });
            k += 1;
            assert(cands@ =~= candidates_at(m0.ids, m0.caravan_of, pos@.map_values(|p: usize| p as int)).take(k as int));
        }
        let ghost cs = candidates_at(m0.ids, m0.caravan_of, pos@.map_values(|p: usize| p as int));
        assert(cands@ =~= cs);
        proof {
            assert forall|a: int, b: int| 0 <= a < b < cands@.len() implies cands@[a].id != cands@[b].id by {
                assert(pos@[a] < pos@[b]);
            }
        }
        let inits = initiator_order(cands.as_slice(), inp.sociable.as_slice(), inp.sociability_rank.as_slice());
        let compat = formation_compatibility(inp.near.as_slice(), inp.aligned.as_slice());
        proof {
            lemma_formation_count_bounded(cands@, inits@, compat@.map_values(|r: Vec<bool>| r@), inits@.len());
        }
        let formations = self.caravans.try_form_caravan(cands.as_slice(), inits.as_slice(), compat.as_slice());
        proof {
            assert(cs =~= candidates_of(m0));
            let cm = compat@.map_values(|r: Vec<bool>| r@);
            assert forall|i: int| 0 <= i < compat@.len() implies #[trigger] cm[i]
                =~= compatibility_of(inp.near@, inp.aligned@)[i] by {}
            assert(compat@.map_values(|r: Vec<bool>| r@) =~= compatibility_of(inp.near@, inp.aligned@));
            assert(is_initiator_order(cs, inp.sociable@, inp.sociability_rank@, inits@));
            assert(formations_report(formations@, formed_groups(cs, inits@, compatibility_of(inp.near@, inp.aligned@)), m0.caravans.next_id));
            assert(self@.caravans == formed_ledger(m0.caravans, formed_groups(cs, inits@, compatibility_of(inp.near@, inp.aligned@))));
        }
        let ghost l1 = self@.caravans;
        let ghost s1 = *self;
        let mut e: usize = 0;
        while e < formations.len()
            invariant
                self.statuses == s1.statuses,
                self.memories == s1.memories,
                self.caravans == s1.caravans,
                self.bandits == s1.bandits,
                self.books == s1.books,
                self.trackers == s1.trackers,
                self.metrics == s1.metrics,
                self.clock == s1.clock,
                self.ids == s1.ids,
                self.season_len == s1.season_len,
                self.current_tick == s1.current_tick,
                self.grace_ticks == s1.grace_ticks,
                self.starvation_ticks == s1.starvation_ticks,
                self.num_camps == s1.num_camps,
                self.price_ttl == s1.price_ttl,
                self.rebalance_interval == s1.rebalance_interval,
                self.phase == s1.phase,
                e <= formations@.len(),
                self.ids@ == m0.ids,
                self.caravan_of@.len() == m0.ids.len(),
                self.caravan_of@ == after_formations(
                    m0.ids,
                    m0.caravan_of,
                    formations@.map_values(|ev: FormationEvent| (ev.caravan_id, ev.member_ids@)).take(e as int),
                ),
            decreases formations@.len() - e,
        {
            assign_caravans(&self.ids, &mut self.caravan_of, formations[e].member_ids.as_slice(), Some(formations[e].caravan_id));
            proof {
                let evs = formations@.map_values(|ev: FormationEvent| (ev.caravan_id, ev.member_ids@));
                assert(evs.take(e + 1).drop_last() =~= evs.take(e as int));
            }
            e += 1;
        }
        let ghost fevs = formations@.map_values(|ev: FormationEvent| (ev.caravan_id, ev.member_ids@));
        assert(fevs.take(fevs.len() as int) =~= fevs);
        let ghost formed_cav = self@.caravan_of;

        let ghost pre = self.caravans@.caravans;
        let flags = dissolution_flags(self.caravans.caravans(), cands.as_slice(), inp.far.as_slice(), inp.at_city.as_slice());
        let dissolutions = self.caravans.check_dissolution(flags.as_slice());
        let ghost farm = inp.far@.map_values(|r: Vec<bool>| r@);
        let ghost dflags = dissolve_flags_of(cs, farm, inp.at_city@, l1.caravans);
        proof {
            assert(pre == l1.caravans);
            assert(flags@ =~= dflags);
            assert((|i: int| flags@[i]) =~= (|i: int| dflags[i]));
        }
        let ghost c2 = self@.caravans.caravans;
        let ghost s2 = *self;
        let mut e: usize = 0;
        while e < dissolutions.len()
            invariant
                self.statuses == s2.statuses,
                self.memories == s2.memories,
                self.caravans == s2.caravans,
                self.bandits == s2.bandits,
                self.books == s2.books,
                self.trackers == s2.trackers,
                self.metrics == s2.metrics,
                self.clock == s2.clock,
                self.ids == s2.ids,
                self.season_len == s2.season_len,
                self.current_tick == s2.current_tick,
                self.grace_ticks == s2.grace_ticks,
                self.starvation_ticks == s2.starvation_ticks,
                self.num_camps == s2.num_camps,
                self.price_ttl == s2.price_ttl,
                self.rebalance_interval == s2.rebalance_interval,
                self.phase == s2.phase,
                e <= dissolutions@.len(),
                self.ids@ == m0.ids,
                self.caravan_of@.len() == m0.ids.len(),
                self.caravan_of@ == after_dissolutions(
                    m0.ids,
                    formed_cav,
                    dissolutions@.map_values(|ev: DissolutionEvent| ev.member_ids@).take(e as int),
                ),
            decreases dissolutions@.len() - e,
        {
            assign_caravans(&self.ids, &mut self.caravan_of, dissolutions[e].member_ids.as_slice(), None);
            proof {
                let evs = dissolutions@.map_values(|ev: DissolutionEvent| ev.member_ids@);
                assert(evs.take(e + 1).drop_last() =~= evs.take(e as int));
            }
            e += 1;
        }
        let ghost devs = dissolutions@.map_values(|ev: DissolutionEvent| ev.member_ids@);
        assert(devs.take(devs.len() as int) =~= devs);

        let mut soldier_idx: Vec<usize> = Vec::new();
        let mut soldier_ids: Vec<u32> = Vec::new();
        let mut present_ids: Vec<u32> = Vec::new();
        let mut k: usize = 0;
        while k < n
            invariant
                k <= n,
                n == pos@.len(),
                n == cands@.len(),
                n_all == self.statuses@.len(),
                forall|t: int| 0 <= t < n ==> (#[trigger] pos@[t]) < n_all,
                soldier_idx@.len() == soldier_ids@.len(),
                forall|t: int| 0 <= t < soldier_idx@.len() ==> (#[trigger] soldier_idx@[t]) < n,
                present_ids@ == cs.map_values(|c: CaravanCandidate| c.id).take(k as int),
                cands@ == cs,
                self.statuses@ == m0.statuses,
                soldier_idx@.len() == soldier_slots(m0.statuses, alive_positions(m0.statuses, m0.statuses.len()), k as nat).len(),
                forall|t: int|
                    0 <= t < soldier_idx@.len() ==> (#[trigger] soldier_idx@[t]) as int == soldier_slots(
                        m0.statuses,
                        alive_positions(m0.statuses, m0.statuses.len()),
                        k as nat,
                    )[t] && soldier_ids@[t] == cs[soldier_idx@[t] as int].id,
            decreases n - k,
        {
            proof {
                let posi = alive_positions(m0.statuses, m0.statuses.len());
                assert(pos@[k as int] as int == posi[k as int]);
            }
            if self.statuses[pos[k]].profession == Profession::Soldier {
                soldier_idx.push(k);
                soldier_ids.push(cands[k].id);
            }
            present_ids.push(cands[k].id);
            k += 1;
            assert(present_ids@ =~= cs.map_values(|c: CaravanCandidate| c.id).take(k as int));
        }
        let ghost slots = soldier_slots(m0.statuses, alive_positions(m0.statuses, m0.statuses.len()), n as nat);
        let ghost sids = slots.map_values(|t: int| cs[t].id);
        let ghost nearm = inp.near@.map_values(|r: Vec<bool>| r@);
        proof {
            assert(present_ids@ =~= cs.map_values(|c: CaravanCandidate| c.id));
            assert(soldier_idx@.len() == slots.len());
            assert forall|t: int| 0 <= t < soldier_ids@.len() implies soldier_ids@[t] == sids[t] by {
                assert(soldier_idx@[t] as int == slots[t]);
            }
            assert(soldier_ids@ =~= sids);
        }
        let ranges = escort_ranges(self.caravans.caravans(), cands.as_slice(), inp.near.as_slice(), soldier_idx.as_slice());
        proof {
            let rm = ranges@.map_values(|r: Vec<bool>| r@);
            let em = escort_matrix(cs, nearm, c2, slots);
            assert forall|c: int| 0 <= c < rm.len() implies #[trigger] rm[c] =~= em[c] by {}
            assert(rm =~= em);
        }
        let fees = self.caravans.add_soldier_escort(soldier_ids.as_slice(), present_ids.as_slice(), ranges.as_slice());
        proof {
            let rm = ranges@.map_values(|r: Vec<bool>| r@);
            assert forall|c: int| 0 <= c < c2.len() implies (#[trigger] self@.caravans.caravans[c]) == with_escorts(
                c2[c],
                escorts_upto(sids, escort_matrix(cs, nearm, c2, slots)[c], sids.len()),
            ) by {
                assert(ranges@[c]@ == rm[c]);
            }
        }

        proof {
            let groups = formed_groups(cs, inits@, compatibility_of(inp.near@, inp.aligned@));
            assert(l1 == formed_ledger(m0.caravans, groups));
            assert(is_initiator_order(cs, inp.sociable@, inp.sociability_rank@, inits@));
            assert(formations_report(formations@, groups, m0.caravans.next_id));
            let flagged = Seq::new(l1.caravans.len(), |i: int| i).filter(|i: int| dflags[i]);
            assert(dissolutions@.len() == flagged.len());
            assert(c2 == swap_remove_flagged(l1.caravans, dflags, 0));
            assert(self@.caravans.next_id == l1.next_id);
            assert(fees@.map_values(|f: EscortFee| (f.merchant_id, f.soldier_id)) == all_fees_upto(
                c2,
                cs.map_values(|c: CaravanCandidate| c.id),
                sids,
                escort_matrix(cs, nearm, c2, slots),
                c2.len(),
            ));
            assert(caravan_round(m0, *inp, formations@, dissolutions@, fees@, self@.caravans, inits@));
        }
        CaravanStep { formations, dissolutions, fees, inits: Ghost(inits@) }
    }

    /// Bandit step of the middle phase.
    #[verifier::loop_isolation(false)]
    fn run_bandits(&mut self, pos: &Vec<usize>, inp: &TickInputs, rng: &mut StdRng) -> (r: BanditStep)
        requires
            old(self).wf(),
            pos@.len() == alive_positions(old(self)@.statuses, old(self)@.statuses.len()).len(),
            forall|t: int| 0 <= t < pos@.len() ==> #[trigger] pos@[t] as int == alive_positions(
                old(self)@.statuses,
                old(self)@.statuses.len(),
            )[t],
            inp.attempts@.len() == old(self)@.bandits.bandits.len(),
            inp.bandit_in_range@.len() == old(self)@.bandits.bandits.len(),
            forall|b: int| 0 <= b < inp.bandit_in_range@.len() ==> (#[trigger] inp.bandit_in_range@[b])@.len() == pos@.len(),
            inp.soldier_near@.len() == pos@.len(),
        ensures
            final(self).wf(),
            bandit_round(
                old(self)@,
                *inp,
                r.attacks@,
                r.destroyed@,
                old(self)@.caravan_of,
                old(self)@.caravans.caravans,
                final(self)@.bandits,
                r.rolls@.0,
                r.rolls@.1,
            ),
            r.to_spawn == crate::bandit::respawn_quota(crate::bandit::alive_count(final(self)@.bandits.camps), old(self)@.num_camps),
            final(self)@ == (WorldModel { bandits: final(self)@.bandits, ..old(self)@ }),
    {
        let ghost m0 = self@;
        let n_all = self.ids.len();
        let n = pos.len();
        proof {
            lemma_alive_positions(self.statuses@, self.statuses@.len() as nat);
            assert forall|t: int| 0 <= t < n implies (#[trigger] pos@[t]) < n_all by {}
        }
        // ── Bandits ─────────────────────────────────────────────────────
        let mut sizes: Vec<u32> = Vec::new();
        let mut k: usize = 0;
        while k < n
            invariant
                k <= n,
                n == pos@.len(),
                self.caravan_of@.len() == n_all,
                forall|t: int| 0 <= t < n ==> (#[trigger] pos@[t]) < n_all,
                sizes@.len() == k,
                self@ == m0,
                forall|t: int|
                    0 <= t < k ==> #[trigger] sizes@[t] == group_size_spec(m0.caravans.caravans, m0.caravan_of[pos@[t] as int]),
            decreases n - k,
        {
            sizes.push(group_size_of(&self.caravans, self.caravan_of[pos[k]]));
            k += 1;
        }
        let ghost sz = Seq::new(
            alive_positions(m0.statuses, m0.statuses.len()).len(),
            |k: int| group_size_spec(m0.caravans.caravans, m0.caravan_of[alive_positions(m0.statuses, m0.statuses.len())[k]]),
        );
        assert(sizes@ =~= sz);
        let attacks = tick_attacks(
            &mut self.bandits,
            inp.attempts.as_slice(),
            inp.bandit_in_range.as_slice(),
            sizes.as_slice(),
            inp.soldier_near.as_slice(),
            rng,
        );
        let ghost b1 = self@.bandits;
        let (camps_destroyed, camps_to_spawn) = self.bandits.tick_lifecycle(self.starvation_ticks, self.num_camps);
        proof {
            lemma_no_starved_camp_survives(self.bandits@.camps, self.starvation_ticks);
        }
        let ghost rolls = choose|rw: (spec_fn(int, int) -> bool, spec_fn(int, int) -> bool)| {
            let st = #[trigger] attacks_upto(
                m0.bandits.bandits,
                inp.attempts@,
                inp.bandit_in_range@,
                sz,
                inp.soldier_near@,
                rw.0,
                rw.1,
                m0.bandits.bandits.len(),
            );
            &&& attacks@ == st.events
            &&& b1.bandits == with_defeated(m0.bandits.bandits, st.defeated)
            &&& b1.camps == m0.bandits.camps.map_values(|c: CampStatus| camp_after_robberies(c, st.robbed_camps))
        };
        proof {
            let (repel, win) = choose|repel: spec_fn(int, int) -> bool, win: spec_fn(int, int) -> bool| {
                let st = #[trigger] attacks_upto(
                    m0.bandits.bandits,
                    inp.attempts@,
                    inp.bandit_in_range@,
                    sz,
                    inp.soldier_near@,
                    repel,
                    win,
                    m0.bandits.bandits.len(),
                );
                &&& attacks@ == st.events
                &&& b1.bandits == with_defeated(m0.bandits.bandits, st.defeated)
                &&& b1.camps == m0.bandits.camps.map_values(|c: CampStatus| camp_after_robberies(c, st.robbed_camps))
            };
            let w = (repel, win);
            assert(attacks_upto(m0.bandits.bandits, inp.attempts@, inp.bandit_in_range@, sz, inp.soldier_near@, w.0, w.1, m0.bandits.bandits.len()) == attacks_upto(m0.bandits.bandits, inp.attempts@, inp.bandit_in_range@, sz, inp.soldier_near@, repel, win, m0.bandits.bandits.len()));
        }
        let r = BanditStep { attacks, destroyed: camps_destroyed, to_spawn: camps_to_spawn, rolls: Ghost(rolls) };
        proof {
            assert(bandit_round(m0, *inp, r.attacks@, r.destroyed@, m0.caravan_of, m0.caravans.caravans, self@.bandits, rolls.0, rolls.1));
        }
        r
    }
}

/// Record one share in the memory of the living merchant with its receiver's id.
fn apply_share<P: Copy>(
    ids: &Vec<u32>,
    statuses: &Vec<MerchantStatus>,
    memories: &mut Vec<PriceMemory<P>>,
    share: &PriceShare<P>,
)
    requires
        ids@.len() == statuses@.len(),
        ids@.len() == old(memories)@.len(),
        forall|i: int| 0 <= i < old(memories)@.len() ==> (#[trigger] old(memories)@[i]).wf(),
    ensures
        final(memories)@.len() == old(memories)@.len(),
        forall|i: int| 0 <= i < final(memories)@.len() ==> (#[trigger] final(memories)@[i]).wf(),
        forall|i: int| 0 <= i < final(memories)@.len() ==> (#[trigger] final(memories)@[i])@.ttl == old(memories)@[i]@.ttl,
        final(memories)@.map_values(|m: PriceMemory<P>| m@.entries) == record_share(
            ids@,
            statuses@,
            old(memories)@.map_values(|m: PriceMemory<P>| m@.entries),
            *share,
        ),
{
    let ghost old_m = memories@;
    let ghost target = record_share(ids@, statuses@, old_m.map_values(|m: PriceMemory<P>| m@.entries), *share);
    let mut i: usize = 0;
    while i < memories.len()
        invariant
            i <= memories@.len(),
            memories@.len() == old_m.len(),
            ids@.len() == statuses@.len(),
            ids@.len() == old_m.len(),
            target == record_share(ids@, statuses@, old_m.map_values(|m: PriceMemory<P>| m@.entries), *share),
            forall|k: int| 0 <= k < memories@.len() ==> (#[trigger] memories@[k]).wf(),
            forall|k: int| 0 <= k < memories@.len() ==> (#[trigger] memories@[k])@.ttl == old_m[k]@.ttl,
            forall|k: int| 0 <= k < i ==> (#[trigger] memories@[k])@.entries == target[k],
            forall|k: int| i <= k < memories@.len() ==> #[trigger] memories@[k] == old_m[k],
        decreases memories@.len() - i,
    {
        if ids[i] == share.receiver_id && statuses[i].alive {
            let ghost before = memories@;
            assert(memories@[i as int].wf());
            memories[i].record(share.city_id, share.commodity, share.entry.price, share.entry.observed_tick);
            proof {
                assert forall|k: int| 0 <= k < memories@.len() && k != i implies #[trigger] memories@[k] == before[k] by {}
            }
        }
        i += 1;
    }
    assert(memories@.map_values(|m: PriceMemory<P>| m@.entries) =~= target);
}

} // verus!
