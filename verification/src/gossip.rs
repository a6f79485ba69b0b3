//! Gossip between merchants: sharing one remembered price, and passing on
//! known bandit camp locations.
use vstd::prelude::*;
use crate::types::{CityId, Commodity};
use crate::merchant::{PriceEntry, is_fresh};
use crate::random::random_index;
use crate::caravan::contains_id;
use rand::rngs::StdRng;

verus! {

broadcast use vstd::seq_lib::group_seq_properties;

/// A price entry to be recorded in a merchant's memory via gossip.
#[derive(Debug, Clone, Copy)]
pub struct PriceShare<P> {
    pub receiver_id: u32,
    pub city_id: CityId,
    pub commodity: Commodity,
    pub entry: PriceEntry<P>,
}

/// A bandit camp location learned through gossip.
#[derive(Debug, Clone, Copy)]
pub struct CampShare<L> {
    pub receiver_id: u32,
    pub camp_id: u32,
    pub position: L,
}

/// The sender's entries that are still fresh at `now`, in order.
pub open spec fn fresh_entries<P>(prices: Seq<(CityId, Commodity, PriceEntry<P>)>, now: u32, ttl: u32) -> Seq<
    (CityId, Commodity, PriceEntry<P>),
> {
    prices.filter(|e: (CityId, Commodity, PriceEntry<P>)| is_fresh(now, e.2.observed_tick, ttl))
}

/// `shares` hands the receiver one of the sender's entries that are fresh at `now`.
pub open spec fn passes_fresh_price<P>(
    shares: Seq<PriceShare<P>>,
    sender_prices: Seq<(CityId, Commodity, PriceEntry<P>)>,
    now: u32,
    ttl: u32,
    receiver_id: u32,
) -> bool {
    exists|e: (CityId, Commodity, PriceEntry<P>)|
        #[trigger] fresh_entries(sender_prices, now, ttl).contains(e) && shares.contains(share_of(receiver_id, e))
}

/// The share made from entry `e` for `receiver_id`.
pub open spec fn share_of<P>(receiver_id: u32, e: (CityId, Commodity, PriceEntry<P>)) -> PriceShare<P> {
    PriceShare { receiver_id, city_id: e.0, commodity: e.1, entry: e.2 }
}

fn collect_fresh<P: Copy>(prices: &[(CityId, Commodity, PriceEntry<P>)], current_tick: u32, ttl: u32) -> (v: Vec<
    (CityId, Commodity, PriceEntry<P>),
>)
    ensures
        v@ == fresh_entries(prices@, current_tick, ttl),
{
    let mut v: Vec<(CityId, Commodity, PriceEntry<P>)> = Vec::new();
    let mut i: usize = 0;
    while i < prices.len()
        invariant
            i <= prices.len(),
            v@ == fresh_entries(prices@.subrange(0, i as int), current_tick, ttl),
        decreases prices.len() - i,
    {
        proof {
            reveal_with_fuel(Seq::filter, 1);
            assert(prices@.subrange(0, i + 1).drop_last() == prices@.subrange(0, i as int));
        }
        let e = prices[i];
        if current_tick.saturating_sub(e.2.observed_tick) <= ttl {
            v.push(e);
        }
        i += 1;
    }
    assert(prices@.subrange(0, prices@.len() as int) == prices@);
    v
}

/// Share the `pick`-th fresh entry of the sender with `receiver_id`.
/// Nothing is shared when the sender has no fresh entry.
pub fn share_price_at<P: Copy>(
    prices: &[(CityId, Commodity, PriceEntry<P>)],
    receiver_id: u32,
    current_tick: u32,
    ttl: u32,
    pick: usize,
    shares: &mut Vec<PriceShare<P>>,
)
    requires
        fresh_entries(prices@, current_tick, ttl).len() == 0 || pick < fresh_entries(
            prices@,
            current_tick,
            ttl,
        ).len(),
    ensures
        fresh_entries(prices@, current_tick, ttl).len() == 0 ==> final(shares)@ == old(shares)@,
        fresh_entries(prices@, current_tick, ttl).len() > 0 ==> final(shares)@ == old(shares)@.push(
            share_of(receiver_id, fresh_entries(prices@, current_tick, ttl)[pick as int]),
        ),
{
    let valid = collect_fresh(prices, current_tick, ttl);
    if valid.len() == 0 {
        return;
    }
    let (city_id, commodity, entry) = valid[pick];
    shares.push(PriceShare { receiver_id, city_id, commodity, entry });
}

/// Pick one fresh price entry of the sender uniformly at random and share
/// it with `receiver_id`. Nothing is shared when the sender has no fresh
/// entry; otherwise exactly one of its fresh entries is shared, and its
/// position among the fresh entries is returned.
pub fn share_random_price<P: Copy>(
    prices: &[(CityId, Commodity, PriceEntry<P>)],
    receiver_id: u32,
    current_tick: u32,
    ttl: u32,
    rng: &mut StdRng,
    shares: &mut Vec<PriceShare<P>>,
) -> (picked: Option<usize>)
    ensures
        picked is None <==> fresh_entries(prices@, current_tick, ttl).len() == 0,
        picked is None ==> final(shares)@ == old(shares)@,
        picked matches Some(k) ==> k < fresh_entries(prices@, current_tick, ttl).len() && final(shares)@
            == old(shares)@.push(share_of(receiver_id, fresh_entries(prices@, current_tick, ttl)[k as int])),
{
    let valid = collect_fresh(prices, current_tick, ttl);
    if valid.len() == 0 {
        return None;
    }
    let idx = random_index(rng, valid.len());
    share_price_at(prices, receiver_id, current_tick, ttl, idx, shares);
    Some(idx)
}

/// Camps of the sender that the receiver does not know yet.
pub open spec fn unknown_camps<L>(sender: Seq<(u32, L)>, receiver: Seq<(u32, L)>) -> Seq<(u32, L)> {
    sender.filter(|c: (u32, L)| !(exists|k: int| 0 <= k < receiver.len() && receiver[k].0 == c.0))
}

/// Share all of the sender's known camp locations with the receiver,
/// skipping camps the receiver already knows about.
pub fn share_all_camps<L: Copy>(
    sender_camps: &[(u32, L)],
    receiver_id: u32,
    receiver_camps: &[(u32, L)],
    shares: &mut Vec<CampShare<L>>,
)
    ensures
        final(shares)@ == old(shares)@ + unknown_camps(sender_camps@, receiver_camps@).map_values(
            |c: (u32, L)| CampShare { receiver_id, camp_id: c.0, position: c.1 },
        ),
{
    let ghost start = shares@;
    let mut i: usize = 0;
    while i < sender_camps.len()
        invariant
            i <= sender_camps.len(),
            shares@ == start + unknown_camps(sender_camps@.subrange(0, i as int), receiver_camps@).map_values(
                |c: (u32, L)| CampShare { receiver_id, camp_id: c.0, position: c.1 },
            ),
        decreases sender_camps.len() - i,
    {
        let (camp_id, position) = sender_camps[i];
        let mut known = false;
        let mut k: usize = 0;
        while k < receiver_camps.len()
            invariant
                k <= receiver_camps.len(),
                known == exists|q: int| 0 <= q < k && receiver_camps@[q].0 == camp_id,
            decreases receiver_camps.len() - k,
        {
            if receiver_camps[k].0 == camp_id {
                known = true;
            }
            k += 1;
        }
        let ghost before = shares@;
        if !known {
            shares.push(CampShare { receiver_id, camp_id, position });
        }
        proof {
            reveal_with_fuel(Seq::filter, 1);
            let pre = sender_camps@.subrange(0, i + 1);
            assert(pre.drop_last() == sender_camps@.subrange(0, i as int));
            let f = |c: (u32, L)| CampShare { receiver_id, camp_id: c.0, position: c.1 };
            let u0 = unknown_camps(sender_camps@.subrange(0, i as int), receiver_camps@);
            if !known {
                assert(unknown_camps(pre, receiver_camps@) == u0.push(sender_camps@[i as int]));
                assert(u0.push(sender_camps@[i as int]).map_values(f) =~= u0.map_values(f).push(
                    f(sender_camps@[i as int]),
                ));
                assert(shares@ =~= start + unknown_camps(pre, receiver_camps@).map_values(f));
            } else {
                assert(unknown_camps(pre, receiver_camps@) == u0);
            }
        }
        i += 1;
    }
    assert(sender_camps@.subrange(0, sender_camps@.len() as int) == sender_camps@);
}

// ── Caravan groups ──────────────────────────────────────────────────────────

/// Ids, in agent order, of the first `n` agents travelling in caravan `c`.
pub open spec fn members_upto(ids: Seq<u32>, caravans: Seq<Option<u32>>, c: u32, n: nat) -> Seq<u32>
    decreases n,
{
    if n == 0 {
        Seq::empty()
    } else {
        let prev = members_upto(ids, caravans, c, (n - 1) as nat);
        if caravans[n - 1] == Some(c) {
            prev.push(ids[n - 1])
        } else {
            prev
        }
    }
}

/// Agent `j` is the first one listed in its caravan.
pub open spec fn first_of_caravan(caravans: Seq<Option<u32>>, j: int) -> bool {
    caravans[j] is Some && forall|k: int| 0 <= k < j ==> caravans[k] != caravans[j]
}

/// Member lists of the caravans (with at least two members present) first
/// seen among the first `n` agents, in order of first appearance.
pub open spec fn merges_upto(ids: Seq<u32>, caravans: Seq<Option<u32>>, n: nat) -> Seq<Seq<u32>>
    decreases n,
{
    if n == 0 {
        Seq::empty()
    } else {
        let prev = merges_upto(ids, caravans, (n - 1) as nat);
        let j = n - 1;
        if first_of_caravan(caravans, j) && members_upto(ids, caravans, caravans[j]->0, ids.len()).len() >= 2 {
            prev.push(members_upto(ids, caravans, caravans[j]->0, ids.len()))
        } else {
            prev
        }
    }
}

fn members_of(ids: &[u32], caravans: &[Option<u32>], c: u32) -> (m: Vec<u32>)
    requires
        ids@.len() == caravans@.len(),
    ensures
        m@ == members_upto(ids@, caravans@, c, ids@.len() as nat),
{
    let mut m: Vec<u32> = Vec::new();
    let mut k: usize = 0;
    while k < ids.len()
        invariant
            k <= ids.len(),
            ids@.len() == caravans@.len(),
            m@ == members_upto(ids@, caravans@, c, k as nat),
        decreases ids.len() - k,
    {
        match caravans[k] {
            Some(ck) => {
                if ck == c {
                    m.push(ids[k]);
                }
            },
            None => {},
        }
        k += 1;
    }
    m
}

/// Group the agents that travel in the same caravan: for every caravan
/// with at least two members present, the member ids in agent order. Groups
/// come in the order in which their caravans first appear.
pub fn caravan_merges(ids: &[u32], caravans: &[Option<u32>]) -> (groups: Vec<Vec<u32>>)
    requires
        ids@.len() == caravans@.len(),
    ensures
        groups@.map_values(|g: Vec<u32>| g@) == merges_upto(ids@, caravans@, ids@.len() as nat),
{
    let mut groups: Vec<Vec<u32>> = Vec::new();
    let mut j: usize = 0;
    while j < ids.len()
        invariant
            j <= ids.len(),
            ids@.len() == caravans@.len(),
            groups@.map_values(|g: Vec<u32>| g@) == merges_upto(ids@, caravans@, j as nat),
        decreases ids.len() - j,
    {
        if let Some(c) = caravans[j] {
            let mut first = true;
            let mut k: usize = 0;
            while k < j
                invariant
                    k <= j,
                    j < caravans@.len(),
                    caravans@[j as int] == Some(c),
                    first == forall|q: int| 0 <= q < k ==> caravans@[q] != caravans@[j as int],
                decreases j - k,
            {
                match caravans[k] {
                    Some(ck) => {
                        if ck == c {
                            first = false;
                        }
                    },
                    None => {},
                }
                k += 1;
            }
            if first {
                let m = members_of(ids, caravans, c);
                if m.len() >= 2 {
                    let ghost before = groups@;
                    groups.push(m);
                    proof {
                        assert(groups@.map_values(|g: Vec<u32>| g@) =~= before.map_values(|g: Vec<u32>| g@).push(
                            members_upto(ids@, caravans@, c, ids@.len() as nat),
                        ));
                    }
                }
            }
        }
        j += 1;
    }
    groups
}

// ── A gossip round ──────────────────────────────────────────────────────────

/// A merchant as a gossip round sees it.
pub struct GossipAgent<P, L> {
    pub id: u32,
    pub caravan_id: Option<u32>,
    /// All remembered prices, stale ones included.
    pub prices: Vec<(CityId, Commodity, PriceEntry<P>)>,
    /// Known bandit camps: id and location.
    pub known_camps: Vec<(u32, L)>,
}

/// What one gossip round produces.
pub struct GossipResult<P, L> {
    /// Price entries to record in merchants' memories.
    pub price_shares: Vec<PriceShare<P>>,
    /// Camp locations to add to merchants' knowledge.
    pub camp_shares: Vec<CampShare<L>>,
    /// Caravans whose members fully merge their price memories.
    pub caravan_merges: Vec<Vec<u32>>,
}

/// Concatenation of `f(i, k)` for `i < k < j`, in increasing `k`.
pub open spec fn row<T>(f: spec_fn(int, int) -> Seq<T>, i: int, j: int) -> Seq<T>
    decreases j - i,
{
    if j <= i + 1 {
        Seq::empty()
    } else {
        row(f, i, j - 1) + f(i, j - 1)
    }
}

/// Concatenation of `f(a, b)` over the pairs `a < b < n` with `a < i`, in
/// lexicographic order.
pub open spec fn rows<T>(f: spec_fn(int, int) -> Seq<T>, n: int, i: int) -> Seq<T>
    decreases i,
{
    if i <= 0 {
        Seq::empty()
    } else {
        rows(f, n, i - 1) + row(f, i - 1, n)
    }
}

/// Camp shares from `s` to `r`: the camps `s` knows and `r` does not.
pub open spec fn camps_between<P, L>(s: GossipAgent<P, L>, r: GossipAgent<P, L>) -> Seq<CampShare<L>> {
    unknown_camps(s.known_camps@, r.known_camps@).map_values(
        |c: (u32, L)| CampShare { receiver_id: r.id, camp_id: c.0, position: c.1 },
    )
}

/// Camp shares exchanged between `a` and `b`: `a` to `b`, then `b` to `a`.
pub open spec fn camps_both_ways<P, L>(a: GossipAgent<P, L>, b: GossipAgent<P, L>) -> Seq<CampShare<L>> {
    camps_between(a, b) + camps_between(b, a)
}

/// Two agents of the same caravan.
pub open spec fn caravan_mates<P, L>(a: GossipAgent<P, L>, b: GossipAgent<P, L>) -> bool {
    a.caravan_id is Some && a.caravan_id == b.caravan_id
}

/// Agents `i` and `j` gossip: they are not caravan mates and `talks[i][j]`
/// (they are within range and their sociability roll succeeded).
pub open spec fn talking<P, L>(agents: Seq<GossipAgent<P, L>>, talks: Seq<Vec<bool>>, i: int, j: int) -> bool {
    !caravan_mates(agents[i], agents[j]) && talks[i]@[j]
}

/// Camp shares of the pair `(i, j)` in the pairwise phase.
pub open spec fn pair_camps<P, L>(agents: Seq<GossipAgent<P, L>>, talks: Seq<Vec<bool>>) -> spec_fn(int, int) -> Seq<
    CampShare<L>,
> {
    |i: int, j: int|
        if talking(agents, talks, i, j) {
            camps_both_ways(agents[i], agents[j])
        } else {
            Seq::empty()
        }
}

/// Indices, in agent order, of the first `n` agents whose id is in `group`.
pub open spec fn member_indices<P, L>(agents: Seq<GossipAgent<P, L>>, group: Seq<u32>, n: nat) -> Seq<int>
    decreases n,
{
    if n == 0 {
        Seq::empty()
    } else {
        let rest = member_indices(agents, group, (n - 1) as nat);
        if group.contains(agents[n - 1].id) {
            rest.push(n - 1)
        } else {
            rest
        }
    }
}

/// Camp shares between the members listed in `idx`, pair by pair.
pub open spec fn member_camps<P, L>(agents: Seq<GossipAgent<P, L>>, idx: Seq<int>) -> spec_fn(int, int) -> Seq<
    CampShare<L>,
> {
    |p: int, q: int| camps_both_ways(agents[idx[p]], agents[idx[q]])
}

/// Camp shares inside one caravan group.
pub open spec fn group_camps<P, L>(agents: Seq<GossipAgent<P, L>>, group: Seq<u32>) -> Seq<CampShare<L>> {
    let idx = member_indices(agents, group, agents.len());
    rows(member_camps(agents, idx), idx.len() as int, idx.len() as int)
}

/// Camp shares inside the caravan groups, group by group.
pub open spec fn caravan_camps<P, L>(agents: Seq<GossipAgent<P, L>>, groups: Seq<Seq<u32>>) -> Seq<CampShare<L>>
    decreases groups.len(),
{
    if groups.len() == 0 {
        Seq::empty()
    } else {
        caravan_camps(agents, groups.drop_last()) + group_camps(agents, groups.last())
    }
}

/// The price share from agent `s` to agent `r` when `s` picks its `k`-th
/// fresh entry: nothing when `s` has no fresh entry.
pub open spec fn directed_share<P, L>(agents: Seq<GossipAgent<P, L>>, now: u32, ttl: u32, s: int, r: int, k: int) -> Seq<
    PriceShare<P>,
> {
    let fresh = fresh_entries(agents[s].prices@, now, ttl);
    if fresh.len() == 0 {
        Seq::empty()
    } else {
        seq![share_of(agents[r].id, fresh[k])]
    }
}

/// Price shares of the pair `(i, j)`: `i` to `j` then `j` to `i`, with the
/// entries chosen by `pick(i, j, true)` and `pick(i, j, false)`.
pub open spec fn pair_prices<P, L>(
    agents: Seq<GossipAgent<P, L>>,
    talks: Seq<Vec<bool>>,
    now: u32,
    ttl: u32,
    pick: spec_fn(int, int, bool) -> int,
) -> spec_fn(int, int) -> Seq<PriceShare<P>> {
    |i: int, j: int|
        if talking(agents, talks, i, j) {
            directed_share(agents, now, ttl, i, j, pick(i, j, true)) + directed_share(
                agents,
                now,
                ttl,
                j,
                i,
                pick(i, j, false),
            )
        } else {
            Seq::empty()
        }
}

/// `pick` chooses, for every gossiping pair and direction whose sender has
/// fresh entries, one of those entries.
pub open spec fn valid_picks<P, L>(
    agents: Seq<GossipAgent<P, L>>,
    talks: Seq<Vec<bool>>,
    now: u32,
    ttl: u32,
    pick: spec_fn(int, int, bool) -> int,
) -> bool {
    forall|i: int, j: int, d: bool|
        0 <= i < j < agents.len() && talking(agents, talks, i, j) ==> {
            let fresh = fresh_entries(agents[if d { i } else { j }].prices@, now, ttl);
            fresh.len() > 0 ==> 0 <= #[trigger] pick(i, j, d) < fresh.len()
        }
}

/// Ids of the agents, in order.
pub open spec fn agent_ids<P, L>(agents: Seq<GossipAgent<P, L>>) -> Seq<u32> {
    agents.map_values(|a: GossipAgent<P, L>| a.id)
}

/// Caravans of the agents, in order.
pub open spec fn agent_caravans<P, L>(agents: Seq<GossipAgent<P, L>>) -> Seq<Option<u32>> {
    agents.map_values(|a: GossipAgent<P, L>| a.caravan_id)
}

/// `row` depends only on the values of `f` on its own pairs.
proof fn lemma_row_congruent<T>(f: spec_fn(int, int) -> Seq<T>, g: spec_fn(int, int) -> Seq<T>, i: int, j: int)
    requires
        forall|k: int| i < k < j ==> #[trigger] f(i, k) == g(i, k),
    ensures
        row(f, i, j) == row(g, i, j),
    decreases j - i,
{
    if j > i + 1 {
        lemma_row_congruent(f, g, i, j - 1);
    }
}

/// `rows` depends only on the values of `f` on its own pairs.
proof fn lemma_rows_congruent<T>(f: spec_fn(int, int) -> Seq<T>, g: spec_fn(int, int) -> Seq<T>, n: int, i: int)
    requires
        forall|a: int, b: int| 0 <= a < i && a < b < n ==> #[trigger] f(a, b) == g(a, b),
    ensures
        rows(f, n, i) == rows(g, n, i),
    decreases i,
{
    if i > 0 {
        lemma_rows_congruent(f, g, n, i - 1);
        lemma_row_congruent(f, g, i - 1, n);
    }
}

fn exchange_camps<P, L: Copy>(a: &GossipAgent<P, L>, b: &GossipAgent<P, L>, shares: &mut Vec<CampShare<L>>)
    ensures
        final(shares)@ == old(shares)@ + camps_both_ways(*a, *b),
{
    let ghost start = shares@;
    share_all_camps(a.known_camps.as_slice(), b.id, b.known_camps.as_slice(), shares);
    assert(shares@ =~= start + camps_between(*a, *b));
    let ghost mid = shares@;
    share_all_camps(b.known_camps.as_slice(), a.id, a.known_camps.as_slice(), shares);
    assert(shares@ =~= mid + camps_between(*b, *a));
    assert(shares@ =~= start + camps_both_ways(*a, *b));
}

fn member_index_list<P, L>(agents: &[GossipAgent<P, L>], group: &Vec<u32>) -> (r: Vec<usize>)
    ensures
        r@.len() == member_indices(agents@, group@, agents@.len() as nat).len(),
        forall|p: int| 0 <= p < r@.len() ==> #[trigger] r@[p] as int == member_indices(
            agents@,
            group@,
            agents@.len() as nat,
        )[p] && r@[p] < agents@.len(),
{
    let mut r: Vec<usize> = Vec::new();
    let mut k: usize = 0;
    while k < agents.len()
        invariant
            k <= agents@.len(),
            r@.len() == member_indices(agents@, group@, k as nat).len(),
            forall|p: int| 0 <= p < r@.len() ==> #[trigger] r@[p] as int == member_indices(
                agents@,
                group@,
                k as nat,
            )[p] && r@[p] < k,
        decreases agents@.len() - k,
    {
        if contains_id(group.as_slice(), agents[k].id) {
            r.push(k);
        }
        k += 1;
    }
    r
}

fn caravan_phase<P, L: Copy>(agents: &[GossipAgent<P, L>], groups: &Vec<Vec<u32>>, shares: &mut Vec<CampShare<L>>)
    ensures
        final(shares)@ == old(shares)@ + caravan_camps(agents@, groups@.map_values(|g: Vec<u32>| g@)),
{
    let ghost start = shares@;
    let ghost gs = groups@.map_values(|g: Vec<u32>| g@);
    let mut g: usize = 0;
    while g < groups.len()
        invariant
            g <= groups@.len(),
            gs == groups@.map_values(|g: Vec<u32>| g@),
            shares@ == start + caravan_camps(agents@, gs.take(g as int)),
        decreases groups@.len() - g,
    {
        let idx = member_index_list(agents, &groups[g]);
        let ghost midx = member_indices(agents@, groups@[g as int]@, agents@.len() as nat);
        let ghost f = member_camps(agents@, midx);
        let ghost base = shares@;
        let m = idx.len();
        let mut p: usize = 0;
        while p < m
            invariant
                p <= m,
                m == idx@.len(),
                m == midx.len(),
                f == member_camps(agents@, midx),
                forall|t: int| 0 <= t < idx@.len() ==> #[trigger] idx@[t] as int == midx[t] && idx@[t] < agents@.len(),
                shares@ == base + rows(f, m as int, p as int),
            decreases m - p,
        {
            let mut q: usize = p + 1;
            while q < m
                invariant
                    p < m,
                    p + 1 <= q <= m,
                    m == idx@.len(),
                    m == midx.len(),
                    f == member_camps(agents@, midx),
                    forall|t: int| 0 <= t < idx@.len() ==> #[trigger] idx@[t] as int == midx[t] && idx@[t] < agents@.len(),
                    shares@ == base + rows(f, m as int, p as int) + row(f, p as int, q as int),
                decreases m - q,
            {
                let ghost before = shares@;
                exchange_camps(&agents[idx[p]], &agents[idx[q]], shares);
                proof {
                    assert(f(p as int, q as int) == camps_both_ways(agents@[midx[p as int]], agents@[midx[q as int]]));
                    assert(row(f, p as int, q + 1) == row(f, p as int, q as int) + f(p as int, q as int));
                    assert(shares@ =~= base + rows(f, m as int, p as int) + row(f, p as int, q + 1));
                }
                q += 1;
            }
            proof {
                assert(rows(f, m as int, p + 1) == rows(f, m as int, p as int) + row(f, p as int, m as int));
                assert(shares@ =~= base + rows(f, m as int, p + 1));
            }
            p += 1;
        }
        proof {
            let t = gs.take(g + 1);
            assert(t.drop_last() =~= gs.take(g as int));
            assert(t.last() == groups@[g as int]@);
            assert(caravan_camps(agents@, t) == caravan_camps(agents@, gs.take(g as int)) + group_camps(
                agents@,
                groups@[g as int]@,
            ));
            assert(shares@ =~= start + caravan_camps(agents@, t));
        }
        g += 1;
    }
    assert(gs.take(groups@.len() as int) =~= gs);
}

/// Run one round of gossip. Caravans with at least two members present merge
/// their price memories and pass every camp location around inside the
/// caravan. Every other pair `i < j` whose entry `talks[i][j]` is set (the
/// two are within gossip range and their sociability roll succeeded)
/// exchanges one random fresh price entry each way and all camp locations
/// the other does not know. Which fresh entry each side shares depends on
/// the generator; everything else is fixed by the inputs.
pub fn tick_gossip<P: Copy, L: Copy>(
    agents: &[GossipAgent<P, L>],
    talks: &[Vec<bool>],
    current_tick: u32,
    ttl: u32,
    rng: &mut StdRng,
) -> (r: GossipResult<P, L>)
    requires
        talks@.len() == agents@.len(),
        forall|i: int| 0 <= i < talks@.len() ==> (#[trigger] talks@[i])@.len() == agents@.len(),
    ensures
        r.caravan_merges@.map_values(|g: Vec<u32>| g@) == merges_upto(
            agent_ids(agents@),
            agent_caravans(agents@),
            agents@.len() as nat,
        ),
        r.camp_shares@ == caravan_camps(
            agents@,
            merges_upto(agent_ids(agents@), agent_caravans(agents@), agents@.len() as nat),
        ) + rows(pair_camps(agents@, talks@), agents@.len() as int, agents@.len() as int),
        exists|pick: spec_fn(int, int, bool) -> int|
            valid_picks(agents@, talks@, current_tick, ttl, pick) && r.price_shares@ == rows(
                #[trigger] pair_prices(agents@, talks@, current_tick, ttl, pick),
                agents@.len() as int,
                agents@.len() as int,
            ),
        forall|a: int, b: int, c: int|
            #![trigger agents@[a].known_camps@[c], agents@[b].id]
            0 <= a < agents@.len() && 0 <= b < agents@.len() && a != b && agents@[a].caravan_id is Some
                && agents@[a].caravan_id == agents@[b].caravan_id && 0 <= c < agents@[a].known_camps@.len() && !(exists|
                k: int,
            |
                0 <= k < agents@[b].known_camps@.len() && agents@[b].known_camps@[k].0 == agents@[a].known_camps@[c].0)
                ==> r.camp_shares@.contains(
                CampShare {
                    receiver_id: agents@[b].id,
                    camp_id: agents@[a].known_camps@[c].0,
                    position: agents@[a].known_camps@[c].1,
                },
            ),
        forall|a: int, b: int, c: int|
            #![trigger agents@[a].known_camps@[c], agents@[b].id]
            0 <= a < agents@.len() && 0 <= b < agents@.len() && a != b && !caravan_mates(agents@[a], agents@[b])
                && talks@[if a < b { a } else { b }]@[if a < b { b } else { a }] && 0 <= c < agents@[a].known_camps@.len()
                && !(exists|k: int|
                0 <= k < agents@[b].known_camps@.len() && agents@[b].known_camps@[k].0 == agents@[a].known_camps@[c].0)
                ==> r.camp_shares@.contains(
                CampShare {
                    receiver_id: agents@[b].id,
                    camp_id: agents@[a].known_camps@[c].0,
                    position: agents@[a].known_camps@[c].1,
                },
            ),
        forall|a: int, b: int|
            #![trigger fresh_entries(agents@[a].prices@, current_tick, ttl), agents@[b].id]
            0 <= a < agents@.len() && 0 <= b < agents@.len() && a != b && !caravan_mates(agents@[a], agents@[b])
                && talks@[if a < b { a } else { b }]@[if a < b { b } else { a }] && fresh_entries(
                agents@[a].prices@,
                current_tick,
                ttl,
            ).len() > 0 ==> passes_fresh_price(
                r.price_shares@,
                agents@[a].prices@,
                current_tick,
                ttl,
                agents@[b].id,
            ),
{
    let n = agents.len();
    let mut ids: Vec<u32> = Vec::new();
    let mut caravans: Vec<Option<u32>> = Vec::new();
    let mut k: usize = 0;
    while k < n
        invariant
            k <= n,
            n == agents@.len(),
            ids@ == agent_ids(agents@).take(k as int),
            caravans@ == agent_caravans(agents@).take(k as int),
        decreases n - k,
    {
        ids.push(agents[k].id);
        caravans.push(agents[k].caravan_id);
        k += 1;
        assert(ids@ =~= agent_ids(agents@).take(k as int));
        assert(caravans@ =~= agent_caravans(agents@).take(k as int));
    }
    assert(ids@ =~= agent_ids(agents@));
    assert(caravans@ =~= agent_caravans(agents@));
    let merges = caravan_merges(ids.as_slice(), caravans.as_slice());

    let mut camp_shares: Vec<CampShare<L>> = Vec::new();
    caravan_phase(agents, &merges, &mut camp_shares);
    let ghost camp_base = camp_shares@;

    let mut price_shares: Vec<PriceShare<P>> = Vec::new();
    let ghost mut pick: spec_fn(int, int, bool) -> int = |a: int, b: int, d: bool| 0int;
    let mut i: usize = 0;
    while i < n
        invariant
            i <= n,
            n == agents@.len(),
            talks@.len() == n,
            forall|t: int| 0 <= t < talks@.len() ==> (#[trigger] talks@[t])@.len() == n,
            camp_shares@ == camp_base + rows(pair_camps(agents@, talks@), n as int, i as int),
            price_shares@ == rows(pair_prices(agents@, talks@, current_tick, ttl, pick), n as int, i as int),
            forall|a: int, b: int, d: bool|
                0 <= a < i && a < b < n && talking(agents@, talks@, a, b) ==> {
                    let fresh = fresh_entries(agents@[if d { a } else { b }].prices@, current_tick, ttl);
                    fresh.len() > 0 ==> 0 <= #[trigger] pick(a, b, d) < fresh.len()
                },
        decreases n - i,
    {
        let ghost fc = pair_camps(agents@, talks@);
        let mut j: usize = i + 1;
        while j < n
            invariant
                i < n,
                i + 1 <= j <= n,
                n == agents@.len(),
                talks@.len() == n,
                forall|t: int| 0 <= t < talks@.len() ==> (#[trigger] talks@[t])@.len() == n,
                fc == pair_camps(agents@, talks@),
                camp_shares@ == camp_base + rows(fc, n as int, i as int) + row(fc, i as int, j as int),
                price_shares@ == rows(pair_prices(agents@, talks@, current_tick, ttl, pick), n as int, i as int)
                    + row(pair_prices(agents@, talks@, current_tick, ttl, pick), i as int, j as int),
                forall|a: int, b: int, d: bool|
                    ((0 <= a < i && a < b < n) || (a == i && i < b < j)) && talking(agents@, talks@, a, b) ==> {
                        let fresh = fresh_entries(agents@[if d { a } else { b }].prices@, current_tick, ttl);
                        fresh.len() > 0 ==> 0 <= #[trigger] pick(a, b, d) < fresh.len()
                    },
            decreases n - j,
        {
            let a = &agents[i];
            let b = &agents[j];
            let mates = match (a.caravan_id, b.caravan_id) {
                (Some(ca), Some(cb)) => ca == cb,
                _ => false,
            };
            let ghost old_pick = pick;
            let ghost old_prices = price_shares@;
            let ghost old_camps = camp_shares@;
            if !mates && talks[i][j] {
                let k1 = share_random_price(a.prices.as_slice(), b.id, current_tick, ttl, rng, &mut price_shares);
                let ghost mid = price_shares@;
                let k2 = share_random_price(b.prices.as_slice(), a.id, current_tick, ttl, rng, &mut price_shares);
                exchange_camps(a, b, &mut camp_shares);
                proof {
                    let v1: int = match k1 {
                        Some(v) => v as int,
                        None => 0,
                    };
                    let v2: int = match k2 {
                        Some(v) => v as int,
                        None => 0,
                    };
                    let ii = i as int;
                    let jj = j as int;
                    pick = |x: int, y: int, d: bool| if x == ii && y == jj {
                        if d {
                            v1
                        } else {
                            v2
                        }
                    } else {
                        old_pick(x, y, d)
                    };
                    let fp = pair_prices(agents@, talks@, current_tick, ttl, pick);
                    let fo = pair_prices(agents@, talks@, current_tick, ttl, old_pick);
                    assert forall|x: int, y: int| 0 <= x < ii && x < y < n implies #[trigger] fo(x, y) == fp(x, y) by {
                        assert(pick(x, y, true) == old_pick(x, y, true));
                        assert(pick(x, y, false) == old_pick(x, y, false));
                    }
                    lemma_rows_congruent(fo, fp, n as int, ii);
                    assert forall|y: int| ii < y < jj implies #[trigger] fo(ii, y) == fp(ii, y) by {
                        assert(pick(ii, y, true) == old_pick(ii, y, true));
                        assert(pick(ii, y, false) == old_pick(ii, y, false));
                    }
                    lemma_row_congruent(fo, fp, ii, jj);
                    assert(talking(agents@, talks@, ii, jj));
                    assert(mid =~= old_prices + directed_share(agents@, current_tick, ttl, ii, jj, v1));
                    assert(price_shares@ =~= mid + directed_share(agents@, current_tick, ttl, jj, ii, v2));
                    assert(fp(ii, jj) == directed_share(agents@, current_tick, ttl, ii, jj, v1) + directed_share(
                        agents@,
                        current_tick,
                        ttl,
                        jj,
                        ii,
                        v2,
                    ));
                    assert(row(fp, ii, jj + 1) == row(fp, ii, jj) + fp(ii, jj));
                    assert(price_shares@ =~= rows(fp, n as int, ii) + row(fp, ii, jj + 1));
                    assert(fc(ii, jj) == camps_both_ways(agents@[ii], agents@[jj]));
                    assert(row(fc, ii, jj + 1) == row(fc, ii, jj) + fc(ii, jj));
                    assert(camp_shares@ =~= camp_base + rows(fc, n as int, ii) + row(fc, ii, jj + 1));
                }
            } else {
                proof {
                    let ii = i as int;
                    let jj = j as int;
                    let fp = pair_prices(agents@, talks@, current_tick, ttl, pick);
                    assert(!talking(agents@, talks@, ii, jj));
                    assert(row(fp, ii, jj + 1) == row(fp, ii, jj) + fp(ii, jj));
                    assert(price_shares@ =~= rows(fp, n as int, ii) + row(fp, ii, jj + 1));
                    assert(row(fc, ii, jj + 1) == row(fc, ii, jj) + fc(ii, jj));
                    assert(camp_shares@ =~= camp_base + rows(fc, n as int, ii) + row(fc, ii, jj + 1));
                }
            }
            j += 1;
        }
        proof {
            let fp = pair_prices(agents@, talks@, current_tick, ttl, pick);
            assert(rows(fp, n as int, i + 1) == rows(fp, n as int, i as int) + row(fp, i as int, n as int));
            assert(rows(fc, n as int, i + 1) == rows(fc, n as int, i as int) + row(fc, i as int, n as int));
            assert(camp_shares@ =~= camp_base + rows(fc, n as int, i + 1));
        }
        i += 1;
    }
    proof {
        assert(valid_picks(agents@, talks@, current_tick, ttl, pick));
        assert(price_shares@ == rows(pair_prices(agents@, talks@, current_tick, ttl, pick), n as int, n as int));
        let cc = caravan_camps(agents@, merges_upto(agent_ids(agents@), agent_caravans(agents@), agents@.len() as nat));
        let pc = rows(pair_camps(agents@, talks@), agents@.len() as int, agents@.len() as int);
        assert forall|a: int, b: int, c: int|
            #![trigger agents@[a].known_camps@[c], agents@[b].id]
            0 <= a < agents@.len() && 0 <= b < agents@.len() && a != b && agents@[a].caravan_id is Some
                && agents@[a].caravan_id == agents@[b].caravan_id && 0 <= c < agents@[a].known_camps@.len() && !(exists|
                k: int,
            |
                0 <= k < agents@[b].known_camps@.len() && agents@[b].known_camps@[k].0 == agents@[a].known_camps@[c].0)
            implies camp_shares@.contains(
            CampShare {
                receiver_id: agents@[b].id,
                camp_id: agents@[a].known_camps@[c].0,
                position: agents@[a].known_camps@[c].1,
            },
        ) by {
            lemma_caravan_mates_learn_all_camps(agents@, a, b, c);
            lemma_concat_has(
                cc,
                pc,
                CampShare {
                    receiver_id: agents@[b].id,
                    camp_id: agents@[a].known_camps@[c].0,
                    position: agents@[a].known_camps@[c].1,
                },
            );
        }
        assert forall|a: int, b: int, c: int|
            #![trigger agents@[a].known_camps@[c], agents@[b].id]
            0 <= a < agents@.len() && 0 <= b < agents@.len() && a != b && !caravan_mates(agents@[a], agents@[b])
                && talks@[if a < b { a } else { b }]@[if a < b { b } else { a }] && 0 <= c < agents@[a].known_camps@.len()
                && !(exists|k: int|
                0 <= k < agents@[b].known_camps@.len() && agents@[b].known_camps@[k].0 == agents@[a].known_camps@[c].0)
            implies camp_shares@.contains(
            CampShare {
                receiver_id: agents@[b].id,
                camp_id: agents@[a].known_camps@[c].0,
                position: agents@[a].known_camps@[c].1,
            },
        ) by {
            lemma_talking_pairs_learn_all_camps(agents@, talks@, a, b, c);
            lemma_concat_has(
                cc,
                pc,
                CampShare {
                    receiver_id: agents@[b].id,
                    camp_id: agents@[a].known_camps@[c].0,
                    position: agents@[a].known_camps@[c].1,
                },
            );
        }
    }
    proof {
        lemma_talking_pairs_share_fresh_prices(agents@, talks@, current_tick, ttl, pick);
    }
    GossipResult { price_shares, camp_shares, caravan_merges: merges }
}

proof fn lemma_row_elements<T>(f: spec_fn(int, int) -> Seq<T>, i: int, j: int, p: spec_fn(T) -> bool)
    requires
        forall|k: int, t: int| i < k < j && 0 <= t < f(i, k).len() ==> p(#[trigger] f(i, k)[t]),
    ensures
        forall|t: int| 0 <= t < row(f, i, j).len() ==> p(#[trigger] row(f, i, j)[t]),
    decreases j - i,
{
    if j > i + 1 {
        lemma_row_elements(f, i, j - 1, p);
        let a = row(f, i, j - 1);
        let b = f(i, j - 1);
        assert forall|t: int| 0 <= t < row(f, i, j).len() implies p(#[trigger] row(f, i, j)[t]) by {
            if t < a.len() {
                assert(row(f, i, j)[t] == a[t]);
            } else {
                assert(row(f, i, j)[t] == b[t - a.len()]);
            }
        }
    }
}

proof fn lemma_rows_elements<T>(f: spec_fn(int, int) -> Seq<T>, n: int, i: int, p: spec_fn(T) -> bool)
    requires
        forall|a: int, b: int, t: int|
            0 <= a < i && a < b < n && 0 <= t < f(a, b).len() ==> p(#[trigger] f(a, b)[t]),
    ensures
        forall|t: int| 0 <= t < rows(f, n, i).len() ==> p(#[trigger] rows(f, n, i)[t]),
    decreases i,
{
    if i > 0 {
        lemma_rows_elements(f, n, i - 1, p);
        lemma_row_elements(f, i - 1, n, p);
        let a = rows(f, n, i - 1);
        let b = row(f, i - 1, n);
        assert forall|t: int| 0 <= t < rows(f, n, i).len() implies p(#[trigger] rows(f, n, i)[t]) by {
            if t < a.len() {
                assert(rows(f, n, i)[t] == a[t]);
            } else {
                assert(rows(f, n, i)[t] == b[t - a.len()]);
            }
        }
    }
}

/// Every price share of a round carries an entry that is still fresh at
/// the round's tick: stale prices are never gossiped, whatever entries the
/// generator picks.
pub proof fn lemma_round_shares_fresh_prices<P, L>(
    agents: Seq<GossipAgent<P, L>>,
    talks: Seq<Vec<bool>>,
    now: u32,
    ttl: u32,
    pick: spec_fn(int, int, bool) -> int,
)
    requires
        valid_picks(agents, talks, now, ttl, pick),
    ensures
        forall|t: int|
            0 <= t < rows(pair_prices(agents, talks, now, ttl, pick), agents.len() as int, agents.len() as int).len()
                ==> is_fresh(
                now,
                (#[trigger] rows(pair_prices(agents, talks, now, ttl, pick), agents.len() as int, agents.len() as int)[t]).entry.observed_tick,
                ttl,
            ),
{
    let f = pair_prices(agents, talks, now, ttl, pick);
    let p = |x: PriceShare<P>| is_fresh(now, x.entry.observed_tick, ttl);
    let n = agents.len() as int;
    assert forall|a: int, b: int, t: int| 0 <= a < n && a < b < n && 0 <= t < f(a, b).len() implies p(
        #[trigger] f(a, b)[t],
    ) by {
        if talking(agents, talks, a, b) {
            let d1 = directed_share(agents, now, ttl, a, b, pick(a, b, true));
            let d2 = directed_share(agents, now, ttl, b, a, pick(a, b, false));
            let pred = |e: (CityId, Commodity, PriceEntry<P>)| is_fresh(now, e.2.observed_tick, ttl);
            if t < d1.len() {
                let fresh = fresh_entries(agents[a].prices@, now, ttl);
                assert(0 <= pick(a, b, true) < fresh.len());
                agents[a].prices@.lemma_filter_pred(pred, pick(a, b, true));
                assert(f(a, b)[t] == d1[t]);
            } else {
                let fresh = fresh_entries(agents[b].prices@, now, ttl);
                assert(0 <= pick(a, b, false) < fresh.len());
                agents[b].prices@.lemma_filter_pred(pred, pick(a, b, false));
                assert(f(a, b)[t] == d2[t - d1.len()]);
            }
        }
    }
    lemma_rows_elements(f, n, n, p);
}

/// The receiver of a camp share did not know that camp.
pub open spec fn camp_is_news<P, L>(agents: Seq<GossipAgent<P, L>>, x: CampShare<L>) -> bool {
    exists|r: int|
        0 <= r < agents.len() && agents[r].id == x.receiver_id && !(exists|k: int|
            0 <= k < agents[r].known_camps@.len() && agents[r].known_camps@[k].0 == x.camp_id)
}

proof fn lemma_camps_between_are_news<P, L>(agents: Seq<GossipAgent<P, L>>, s: int, r: int)
    requires
        0 <= s < agents.len(),
        0 <= r < agents.len(),
    ensures
        forall|t: int| 0 <= t < camps_between(agents[s], agents[r]).len() ==> camp_is_news(
            agents,
            #[trigger] camps_between(agents[s], agents[r])[t],
        ),
{
    let known = agents[r].known_camps@;
    let pred = |c: (u32, L)| !(exists|k: int| 0 <= k < known.len() && known[k].0 == c.0);
    assert forall|t: int| 0 <= t < camps_between(agents[s], agents[r]).len() implies camp_is_news(
        agents,
        #[trigger] camps_between(agents[s], agents[r])[t],
    ) by {
        agents[s].known_camps@.lemma_filter_pred(pred, t);
    }
}

proof fn lemma_both_ways_are_news<P, L>(agents: Seq<GossipAgent<P, L>>, a: int, b: int)
    requires
        0 <= a < agents.len(),
        0 <= b < agents.len(),
    ensures
        forall|t: int| 0 <= t < camps_both_ways(agents[a], agents[b]).len() ==> camp_is_news(
            agents,
            #[trigger] camps_both_ways(agents[a], agents[b])[t],
        ),
{
    lemma_camps_between_are_news(agents, a, b);
    lemma_camps_between_are_news(agents, b, a);
    let x = camps_between(agents[a], agents[b]);
    let y = camps_between(agents[b], agents[a]);
    assert forall|t: int| 0 <= t < camps_both_ways(agents[a], agents[b]).len() implies camp_is_news(
        agents,
        #[trigger] camps_both_ways(agents[a], agents[b])[t],
    ) by {
        if t < x.len() {
            assert(camps_both_ways(agents[a], agents[b])[t] == x[t]);
        } else {
            assert(camps_both_ways(agents[a], agents[b])[t] == y[t - x.len()]);
        }
    }
}

proof fn lemma_member_indices_in_range<P, L>(agents: Seq<GossipAgent<P, L>>, group: Seq<u32>, n: nat)
    requires
        n <= agents.len(),
    ensures
        forall|p: int| 0 <= p < member_indices(agents, group, n).len() ==> 0 <= #[trigger] member_indices(
            agents,
            group,
            n,
        )[p] < n,
    decreases n,
{
    if n > 0 {
        lemma_member_indices_in_range(agents, group, (n - 1) as nat);
        let rest = member_indices(agents, group, (n - 1) as nat);
        let cur = member_indices(agents, group, n);
        assert forall|p: int| 0 <= p < cur.len() implies 0 <= #[trigger] cur[p] < n by {
            if p < rest.len() {
                assert(cur[p] == rest[p]);
            }
        }
    }
}

proof fn lemma_caravan_camps_are_news<P, L>(agents: Seq<GossipAgent<P, L>>, groups: Seq<Seq<u32>>)
    ensures
        forall|t: int| 0 <= t < caravan_camps(agents, groups).len() ==> camp_is_news(
            agents,
            #[trigger] caravan_camps(agents, groups)[t],
        ),
    decreases groups.len(),
{
    if groups.len() > 0 {
        lemma_caravan_camps_are_news(agents, groups.drop_last());
        let g = groups.last();
        let idx = member_indices(agents, g, agents.len());
        lemma_member_indices_in_range(agents, g, agents.len());
        let f = member_camps(agents, idx);
        let m = idx.len() as int;
        let p = |x: CampShare<L>| camp_is_news(agents, x);
        assert forall|a: int, b: int, t: int| 0 <= a < m && a < b < m && 0 <= t < f(a, b).len() implies p(
            #[trigger] f(a, b)[t],
        ) by {
            lemma_both_ways_are_news(agents, idx[a], idx[b]);
        }
        lemma_rows_elements(f, m, m, p);
        let x = caravan_camps(agents, groups.drop_last());
        let y = group_camps(agents, g);
        assert forall|t: int| 0 <= t < caravan_camps(agents, groups).len() implies camp_is_news(
            agents,
            #[trigger] caravan_camps(agents, groups)[t],
        ) by {
            if t < x.len() {
                assert(caravan_camps(agents, groups)[t] == x[t]);
            } else {
                assert(caravan_camps(agents, groups)[t] == y[t - x.len()]);
            }
        }
    }
}

/// A round never tells a merchant about a camp it already knows: every camp
/// share, inside caravans or between gossiping pairs, goes to an agent that
/// did not know that camp.
pub proof fn lemma_round_camps_are_news<P, L>(
    agents: Seq<GossipAgent<P, L>>,
    talks: Seq<Vec<bool>>,
    groups: Seq<Seq<u32>>,
)
    ensures
        forall|t: int|
            0 <= t < (caravan_camps(agents, groups) + rows(pair_camps(agents, talks), agents.len() as int, agents.len() as int)).len()
                ==> camp_is_news(
                agents,
                #[trigger] (caravan_camps(agents, groups) + rows(pair_camps(agents, talks), agents.len() as int, agents.len() as int))[t],
            ),
{
    lemma_caravan_camps_are_news(agents, groups);
    let f = pair_camps(agents, talks);
    let n = agents.len() as int;
    let p = |x: CampShare<L>| camp_is_news(agents, x);
    assert forall|a: int, b: int, t: int| 0 <= a < n && a < b < n && 0 <= t < f(a, b).len() implies p(
        #[trigger] f(a, b)[t],
    ) by {
        lemma_both_ways_are_news(agents, a, b);
    }
    lemma_rows_elements(f, n, n, p);
    let x = caravan_camps(agents, groups);
    let y = rows(f, n, n);
    assert forall|t: int| 0 <= t < (x + y).len() implies camp_is_news(agents, #[trigger] (x + y)[t]) by {
        if t < x.len() {
            assert((x + y)[t] == x[t]);
        } else {
            assert((x + y)[t] == y[t - x.len()]);
        }
    }
}

/// Every merge group is the complete member list of one caravan, taken at
/// the first agent listed in that caravan, and has at least two members.
pub proof fn lemma_merges_are_distinct_caravans(ids: Seq<u32>, caravans: Seq<Option<u32>>, n: nat)
    requires
        ids.len() == caravans.len(),
        n <= ids.len(),
    ensures
        forall|q: int|
            0 <= q < merges_upto(ids, caravans, n).len() ==> exists|j: int|
                0 <= j < n && first_of_caravan(caravans, j) && #[trigger] merges_upto(ids, caravans, n)[q]
                    == members_upto(ids, caravans, caravans[j]->0, ids.len()) && merges_upto(
                    ids,
                    caravans,
                    n,
                )[q].len() >= 2,
    decreases n,
{
    if n > 0 {
        lemma_merges_are_distinct_caravans(ids, caravans, (n - 1) as nat);
        let prev = merges_upto(ids, caravans, (n - 1) as nat);
        let cur = merges_upto(ids, caravans, n);
        assert forall|q: int| 0 <= q < cur.len() implies exists|j: int|
            0 <= j < n && first_of_caravan(caravans, j) && #[trigger] cur[q] == members_upto(
                ids,
                caravans,
                caravans[j]->0,
                ids.len(),
            ) && cur[q].len() >= 2 by {
            if q < prev.len() {
                assert(cur[q] == prev[q]);
                let j = choose|j: int|
                    0 <= j < n - 1 && first_of_caravan(caravans, j) && prev[q] == members_upto(
                        ids,
                        caravans,
                        caravans[j]->0,
                        ids.len(),
                    ) && prev[q].len() >= 2;
                assert(0 <= j < n);
            } else {
                assert(0 <= n - 1 < n);
            }
        }
    }
}

// ── Caravan camp sharing reaches every member ────────────────────────────────

proof fn lemma_concat_has<T>(s1: Seq<T>, s2: Seq<T>, x: T)
    requires
        s1.contains(x) || s2.contains(x),
    ensures
        (s1 + s2).contains(x),
{
    if s1.contains(x) {
        let k = choose|k: int| 0 <= k < s1.len() && s1[k] == x;
        assert((s1 + s2)[k] == x);
    } else {
        let k = choose|k: int| 0 <= k < s2.len() && s2[k] == x;
        assert((s1 + s2)[s1.len() + k] == x);
    }
}

proof fn lemma_row_has<T>(f: spec_fn(int, int) -> Seq<T>, i: int, j: int, k: int, x: T)
    requires
        i < k < j,
        f(i, k).contains(x),
    ensures
        row(f, i, j).contains(x),
    decreases j - i,
{
    if k == j - 1 {
        lemma_concat_has(row(f, i, j - 1), f(i, j - 1), x);
    } else {
        lemma_row_has(f, i, j - 1, k, x);
        lemma_concat_has(row(f, i, j - 1), f(i, j - 1), x);
    }
}

proof fn lemma_rows_has<T>(f: spec_fn(int, int) -> Seq<T>, n: int, i: int, a: int, b: int, x: T)
    requires
        0 <= a < i,
        a < b < n,
        f(a, b).contains(x),
    ensures
        rows(f, n, i).contains(x),
    decreases i,
{
    if a == i - 1 {
        lemma_row_has(f, a, n, b, x);
    } else {
        lemma_rows_has(f, n, i - 1, a, b, x);
    }
    lemma_concat_has(rows(f, n, i - 1), row(f, i - 1, n), x);
}

proof fn lemma_member_indices_has<P, L>(agents: Seq<GossipAgent<P, L>>, group: Seq<u32>, n: nat, a: int)
    requires
        0 <= a < n,
        n <= agents.len(),
        group.contains(agents[a].id),
    ensures
        member_indices(agents, group, n).contains(a),
    decreases n,
{
    let rest = member_indices(agents, group, (n - 1) as nat);
    if a < n - 1 {
        lemma_member_indices_has(agents, group, (n - 1) as nat, a);
        let k = choose|k: int| 0 <= k < rest.len() && rest[k] == a;
        assert(member_indices(agents, group, n)[k] == a);
    } else {
        assert(member_indices(agents, group, n)[rest.len() as int] == a);
    }
}

proof fn lemma_members_has(ids: Seq<u32>, caravans: Seq<Option<u32>>, c: u32, n: nat, a: int)
    requires
        0 <= a < n,
        n <= caravans.len(),
        caravans[a] == Some(c),
    ensures
        members_upto(ids, caravans, c, n).contains(ids[a]),
        members_upto(ids, caravans, c, n).len() >= members_upto(ids, caravans, c, (a + 1) as nat).len(),
        members_upto(ids, caravans, c, (a + 1) as nat).len() == members_upto(ids, caravans, c, a as nat).len() + 1,
    decreases n,
{
    let rest = members_upto(ids, caravans, c, (n - 1) as nat);
    if a < n - 1 {
        lemma_members_has(ids, caravans, c, (n - 1) as nat, a);
        let k = choose|k: int| 0 <= k < rest.len() && rest[k] == ids[a];
        assert(members_upto(ids, caravans, c, n)[k] == ids[a]);
    } else {
        assert(members_upto(ids, caravans, c, n)[rest.len() as int] == ids[a]);
    }
}

proof fn lemma_members_grow(ids: Seq<u32>, caravans: Seq<Option<u32>>, c: u32, m: nat, n: nat)
    requires
        m <= n,
    ensures
        members_upto(ids, caravans, c, m).len() <= members_upto(ids, caravans, c, n).len(),
    decreases n - m,
{
    if m < n {
        lemma_members_grow(ids, caravans, c, m, (n - 1) as nat);
    }
}

proof fn lemma_merges_has(ids: Seq<u32>, caravans: Seq<Option<u32>>, c: u32, n: nat, j: int)
    requires
        0 <= j < n,
        n <= caravans.len(),
        caravans[j] == Some(c),
        members_upto(ids, caravans, c, ids.len()).len() >= 2,
    ensures
        merges_upto(ids, caravans, n).contains(members_upto(ids, caravans, c, ids.len())),
    decreases n,
{
    let prev = merges_upto(ids, caravans, (n - 1) as nat);
    let g = members_upto(ids, caravans, c, ids.len());
    if exists|k: int| 0 <= k < n - 1 && caravans[k] == Some(c) {
        let k = choose|k: int| 0 <= k < n - 1 && caravans[k] == Some(c);
        lemma_merges_has(ids, caravans, c, (n - 1) as nat, k);
        let w = choose|w: int| 0 <= w < prev.len() && prev[w] == g;
        assert(merges_upto(ids, caravans, n)[w] == g);
    } else {
        assert(j == n - 1);
        assert(first_of_caravan(caravans, n - 1));
        assert(merges_upto(ids, caravans, n) == prev.push(g));
        assert(merges_upto(ids, caravans, n)[prev.len() as int] == g);
    }
}

proof fn lemma_caravan_camps_has<P, L>(agents: Seq<GossipAgent<P, L>>, groups: Seq<Seq<u32>>, g: int, x: CampShare<L>)
    requires
        0 <= g < groups.len(),
        group_camps(agents, groups[g]).contains(x),
    ensures
        caravan_camps(agents, groups).contains(x),
    decreases groups.len(),
{
    if g < groups.len() - 1 {
        lemma_caravan_camps_has(agents, groups.drop_last(), g, x);
    }
    lemma_concat_has(caravan_camps(agents, groups.drop_last()), group_camps(agents, groups.last()), x);
}

/// Inside a caravan everyone learns every camp a mate knows: for any two
/// different agents travelling in the same caravan, each camp the first
/// knows and the second does not is shared with the second in the
/// round's caravan camp exchange, whichever positions the two have in the
/// caravan.
pub proof fn lemma_caravan_mates_learn_all_camps<P, L>(agents: Seq<GossipAgent<P, L>>, a: int, b: int, c: int)
    requires
        0 <= a < agents.len(),
        0 <= b < agents.len(),
        a != b,
        agents[a].caravan_id is Some,
        agents[a].caravan_id == agents[b].caravan_id,
        0 <= c < agents[a].known_camps@.len(),
        !(exists|k: int|
            0 <= k < agents[b].known_camps@.len() && agents[b].known_camps@[k].0 == agents[a].known_camps@[c].0),
    ensures
        caravan_camps(agents, merges_upto(agent_ids(agents), agent_caravans(agents), agents.len())).contains(
            CampShare {
                receiver_id: agents[b].id,
                camp_id: agents[a].known_camps@[c].0,
                position: agents[a].known_camps@[c].1,
            },
        ),
{
    let ids = agent_ids(agents);
    let cavs = agent_caravans(agents);
    let cid = agents[a].caravan_id->0;
    let n = agents.len();
    let camp = agents[a].known_camps@[c];
    let x = CampShare { receiver_id: agents[b].id, camp_id: camp.0, position: camp.1 };
    let group = members_upto(ids, cavs, cid, n);
    // Both agents are members, so the caravan has at least two.
    lemma_members_has(ids, cavs, cid, n, a);
    lemma_members_has(ids, cavs, cid, n, b);
    let lo = if a < b { a } else { b };
    let hi = if a < b { b } else { a };
    lemma_members_has(ids, cavs, cid, (hi + 1) as nat, lo);
    lemma_members_grow(ids, cavs, cid, (lo + 1) as nat, hi as nat);
    lemma_members_grow(ids, cavs, cid, (hi + 1) as nat, n);
    lemma_members_has(ids, cavs, cid, (hi + 1) as nat, hi);
    assert(group.len() >= 2);
    let groups = merges_upto(ids, cavs, n);
    lemma_merges_has(ids, cavs, cid, n, a);
    let g = choose|g: int| 0 <= g < groups.len() && groups[g] == group;
    // Both are listed among the group's members.
    let idx = member_indices(agents, group, n);
    lemma_member_indices_has(agents, group, n, a);
    lemma_member_indices_has(agents, group, n, b);
    let pa = choose|p: int| 0 <= p < idx.len() && idx[p] == a;
    let pb = choose|p: int| 0 <= p < idx.len() && idx[p] == b;
    // The camp is among those `a` shares with `b`.
    let pred = |cc: (u32, L)| !(exists|k: int| 0 <= k < agents[b].known_camps@.len() && agents[b].known_camps@[k].0 == cc.0);
    agents[a].known_camps@.lemma_filter_contains(pred, c);
    let unk = unknown_camps(agents[a].known_camps@, agents[b].known_camps@);
    let w = choose|w: int| 0 <= w < unk.len() && unk[w] == camp;
    let between = camps_between(agents[a], agents[b]);
    assert(between[w] == x);
    assert(between.contains(x));
    let f = member_camps(agents, idx);
    if pa < pb {
        lemma_concat_has(camps_between(agents[a], agents[b]), camps_between(agents[b], agents[a]), x);
        assert(f(pa, pb).contains(x));
        lemma_rows_has(f, idx.len() as int, idx.len() as int, pa, pb, x);
    } else {
        lemma_concat_has(camps_between(agents[b], agents[a]), camps_between(agents[a], agents[b]), x);
        assert(f(pb, pa).contains(x));
        lemma_rows_has(f, idx.len() as int, idx.len() as int, pb, pa, x);
    }
    assert(group_camps(agents, groups[g]).contains(x));
    lemma_caravan_camps_has(agents, groups, g, x);
}

proof fn lemma_camp_in_between<P, L>(s: GossipAgent<P, L>, r: GossipAgent<P, L>, c: int)
    requires
        0 <= c < s.known_camps@.len(),
        !(exists|k: int| 0 <= k < r.known_camps@.len() && r.known_camps@[k].0 == s.known_camps@[c].0),
    ensures
        camps_between(s, r).contains(
            CampShare { receiver_id: r.id, camp_id: s.known_camps@[c].0, position: s.known_camps@[c].1 },
        ),
        camps_both_ways(s, r).contains(
            CampShare { receiver_id: r.id, camp_id: s.known_camps@[c].0, position: s.known_camps@[c].1 },
        ),
        camps_both_ways(r, s).contains(
            CampShare { receiver_id: r.id, camp_id: s.known_camps@[c].0, position: s.known_camps@[c].1 },
        ),
{
    let camp = s.known_camps@[c];
    let x = CampShare { receiver_id: r.id, camp_id: camp.0, position: camp.1 };
    let pred = |cc: (u32, L)| !(exists|k: int| 0 <= k < r.known_camps@.len() && r.known_camps@[k].0 == cc.0);
    s.known_camps@.lemma_filter_contains(pred, c);
    let unk = unknown_camps(s.known_camps@, r.known_camps@);
    let w = choose|w: int| 0 <= w < unk.len() && unk[w] == camp;
    assert(camps_between(s, r)[w] == x);
    lemma_concat_has(camps_between(s, r), camps_between(r, s), x);
    lemma_concat_has(camps_between(r, s), camps_between(s, r), x);
}

/// Two agents that talk (they are not caravan mates and their pair's roll
/// succeeded) tell each other every camp the other does not know: each
/// camp `a` knows and `b` does not reaches `b` in the round's pairwise
/// camp exchange.
pub proof fn lemma_talking_pairs_learn_all_camps<P, L>(
    agents: Seq<GossipAgent<P, L>>,
    talks: Seq<Vec<bool>>,
    a: int,
    b: int,
    c: int,
)
    requires
        0 <= a < agents.len(),
        0 <= b < agents.len(),
        a != b,
        !caravan_mates(agents[a], agents[b]),
        talks[if a < b { a } else { b }]@[if a < b { b } else { a }],
        0 <= c < agents[a].known_camps@.len(),
        !(exists|k: int|
            0 <= k < agents[b].known_camps@.len() && agents[b].known_camps@[k].0 == agents[a].known_camps@[c].0),
    ensures
        rows(pair_camps(agents, talks), agents.len() as int, agents.len() as int).contains(
            CampShare {
                receiver_id: agents[b].id,
                camp_id: agents[a].known_camps@[c].0,
                position: agents[a].known_camps@[c].1,
            },
        ),
{
    let x = CampShare {
        receiver_id: agents[b].id,
        camp_id: agents[a].known_camps@[c].0,
        position: agents[a].known_camps@[c].1,
    };
    lemma_camp_in_between(agents[a], agents[b], c);
    let f = pair_camps(agents, talks);
    if a < b {
        assert(talking(agents, talks, a, b));
        assert(f(a, b).contains(x));
        lemma_rows_has(f, agents.len() as int, agents.len() as int, a, b, x);
    } else {
        assert(talking(agents, talks, b, a));
        assert(f(b, a).contains(x));
        lemma_rows_has(f, agents.len() as int, agents.len() as int, b, a, x);
    }
}

/// Two agents that talk each pass on one of their fresh prices: when `a`
/// has a fresh entry, `b` receives one of `a`'s fresh entries.
pub proof fn lemma_talking_pairs_share_a_fresh_price<P, L>(
    agents: Seq<GossipAgent<P, L>>,
    talks: Seq<Vec<bool>>,
    now: u32,
    ttl: u32,
    pick: spec_fn(int, int, bool) -> int,
    a: int,
    b: int,
)
    requires
        0 <= a < agents.len(),
        0 <= b < agents.len(),
        a != b,
        !caravan_mates(agents[a], agents[b]),
        talks[if a < b { a } else { b }]@[if a < b { b } else { a }],
        valid_picks(agents, talks, now, ttl, pick),
        fresh_entries(agents[a].prices@, now, ttl).len() > 0,
    ensures
        passes_fresh_price(
            rows(pair_prices(agents, talks, now, ttl, pick), agents.len() as int, agents.len() as int),
            agents[a].prices@,
            now,
            ttl,
            agents[b].id,
        ),
{
    let fresh = fresh_entries(agents[a].prices@, now, ttl);
    let f = pair_prices(agents, talks, now, ttl, pick);
    let n = agents.len() as int;
    if a < b {
        assert(talking(agents, talks, a, b));
        let k = pick(a, b, true);
        assert(0 <= k < fresh.len());
        let e = fresh[k];
        let d = directed_share(agents, now, ttl, a, b, k);
        assert(d[0] == share_of(agents[b].id, e));
        lemma_concat_has(d, directed_share(agents, now, ttl, b, a, pick(a, b, false)), share_of(agents[b].id, e));
        lemma_rows_has(f, n, n, a, b, share_of(agents[b].id, e));
        assert(fresh.contains(e));
    } else {
        assert(talking(agents, talks, b, a));
        let k = pick(b, a, false);
        assert(0 <= k < fresh.len());
        let e = fresh[k];
        let d = directed_share(agents, now, ttl, a, b, k);
        assert(d[0] == share_of(agents[b].id, e));
        lemma_concat_has(directed_share(agents, now, ttl, b, a, pick(b, a, true)), d, share_of(agents[b].id, e));
        lemma_rows_has(f, n, n, b, a, share_of(agents[b].id, e));
        assert(fresh.contains(e));
    }
}

/// Every talking pair passes on fresh prices both ways: whenever `a` has a
/// fresh entry, `b` receives one of them.
pub proof fn lemma_talking_pairs_share_fresh_prices<P, L>(
    agents: Seq<GossipAgent<P, L>>,
    talks: Seq<Vec<bool>>,
    now: u32,
    ttl: u32,
    pick: spec_fn(int, int, bool) -> int,
)
    requires
        valid_picks(agents, talks, now, ttl, pick),
    ensures
        forall|a: int, b: int|
            #![trigger fresh_entries(agents[a].prices@, now, ttl), agents[b].id]
            0 <= a < agents.len() && 0 <= b < agents.len() && a != b && !caravan_mates(agents[a], agents[b])
                && talks[if a < b { a } else { b }]@[if a < b { b } else { a }] && fresh_entries(
                agents[a].prices@,
                now,
                ttl,
            ).len() > 0 ==> passes_fresh_price(
                rows(pair_prices(agents, talks, now, ttl, pick), agents.len() as int, agents.len() as int),
                agents[a].prices@,
                now,
                ttl,
                agents[b].id,
            ),
{
    assert forall|a: int, b: int|
        #![trigger fresh_entries(agents[a].prices@, now, ttl), agents[b].id]
        0 <= a < agents.len() && 0 <= b < agents.len() && a != b && !caravan_mates(agents[a], agents[b])
            && talks[if a < b { a } else { b }]@[if a < b { b } else { a }] && fresh_entries(
            agents[a].prices@,
            now,
            ttl,
        ).len() > 0 implies passes_fresh_price(
            rows(pair_prices(agents, talks, now, ttl, pick), agents.len() as int, agents.len() as int),
            agents[a].prices@,
            now,
            ttl,
            agents[b].id,
        ) by {
        lemma_talking_pairs_share_a_fresh_price(agents, talks, now, ttl, pick, a, b);
    }
}

} // verus!
