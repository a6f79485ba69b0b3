//! Population accounting over merchants' life status and professions, and
//! the profession reassignment step of rebalancing.
use vstd::prelude::*;
use crate::types::Profession;
use crate::random::shuffle_candidates;
use rand::rngs::StdRng;

verus! {

broadcast use {vstd::seq_lib::group_seq_properties, vstd::seq_lib::group_to_multiset_ensures};

/// Life status and profession of one merchant.
#[derive(Debug, Clone, Copy, PartialEq, Eq, Structural)]
pub struct MerchantStatus {
    pub alive: bool,
    pub profession: Profession,
}

/// Position of a profession in `Profession::ALL`.
pub open spec fn profession_rank(p: Profession) -> int {
    match p {
        Profession::Trader => 0,
        Profession::Miner => 1,
        Profession::Farmer => 2,
        Profession::Craftsman => 3,
        Profession::Soldier => 4,
        Profession::Shipwright => 5,
        Profession::Idle => 6,
    }
}

/// Number of living merchants among the first `n` that practise `p`.
pub open spec fn count_alive_with(s: Seq<MerchantStatus>, p: Profession, n: nat) -> nat
    decreases n,
{
    if n == 0 {
        0
    } else {
        count_alive_with(s, p, (n - 1) as nat) + if s[n - 1].alive && s[n - 1].profession == p {
            1nat
        } else {
            0nat
        }
    }
}

/// Number of living merchants among the first `n`.
pub open spec fn count_alive(s: Seq<MerchantStatus>, n: nat) -> nat
    decreases n,
{
    if n == 0 {
        0
    } else {
        count_alive(s, (n - 1) as nat) + if s[n - 1].alive {
            1nat
        } else {
            0nat
        }
    }
}

fn profession_index(p: Profession) -> (i: usize)
    ensures
        i == profession_rank(p),
        i < 7,
{
    match p {
        Profession::Trader => 0,
        Profession::Miner => 1,
        Profession::Farmer => 2,
        Profession::Craftsman => 3,
        Profession::Soldier => 4,
        Profession::Shipwright => 5,
        Profession::Idle => 6,
    }
}

/// Count alive merchants by profession; entry `i` is for `Profession::ALL[i]`.
pub fn profession_counts(merchants: &[MerchantStatus]) -> (counts: Vec<u32>)
    requires
        merchants@.len() <= u32::MAX,
    ensures
        counts@.len() == 7,
        forall|p: Profession| #[trigger] counts@[profession_rank(p)] == count_alive_with(
            merchants@,
            p,
            merchants@.len() as nat,
        ),
{
    let mut counts: Vec<u32> = vec![0, 0, 0, 0, 0, 0, 0];
    let mut i: usize = 0;
    while i < merchants.len()
        invariant
            i <= merchants.len(),
            merchants@.len() <= u32::MAX,
            counts@.len() == 7,
            forall|p: Profession| #[trigger] counts@[profession_rank(p)] == count_alive_with(merchants@, p, i as nat),
            forall|p: Profession| #[trigger] count_alive_with(merchants@, p, i as nat) <= i,
        decreases merchants.len() - i,
    {
        proof {
            assert forall|p: Profession| #[trigger] count_alive_with(merchants@, p, (i + 1) as nat) <= i + 1 by {
                assert(count_alive_with(merchants@, p, i as nat) <= i);
            }
        }
        let m = merchants[i];
        if m.alive {
            let k = profession_index(m.profession);
            let ghost before = counts@;
            counts.set(k, counts[k] + 1);
            proof {
                assert forall|p: Profession| #[trigger] counts@[profession_rank(p)] == count_alive_with(
                    merchants@,
                    p,
                    (i + 1) as nat,
                ) by {
                    if p != m.profession {
                        assert(profession_rank(p) != profession_rank(m.profession));
                    }
                    assert(before[profession_rank(p)] == count_alive_with(merchants@, p, i as nat));
                }
            }
        } else {
            proof {
                assert forall|p: Profession| #[trigger] counts@[profession_rank(p)] == count_alive_with(
                    merchants@,
                    p,
                    (i + 1) as nat,
                ) by {
                    assert(counts@[profession_rank(p)] == count_alive_with(merchants@, p, i as nat));
                }
            }
        }
        i += 1;
    }
    counts
}

/// Total alive merchant count.
pub fn alive_count(merchants: &[MerchantStatus]) -> (n: u32)
    requires
        merchants@.len() <= u32::MAX,
    ensures
        n == count_alive(merchants@, merchants@.len() as nat),
{
    let mut n: u32 = 0;
    let mut i: usize = 0;
    while i < merchants.len()
        invariant
            i <= merchants.len(),
            merchants@.len() <= u32::MAX,
            n == count_alive(merchants@, i as nat),
            n <= i,
        decreases merchants.len() - i,
    {
        if merchants[i].alive {
            n = n + 1;
        }
        i += 1;
    }
    n
}

/// Profession of merchant `j` after moving the first `count` living
/// practitioners of `from` (in merchant order) to `to`.
pub open spec fn reassigned(s: Seq<MerchantStatus>, from: Profession, to: Profession, count: nat, j: int) -> Profession {
    if s[j].alive && s[j].profession == from && count_alive_with(s, from, j as nat) < count {
        to
    } else {
        s[j].profession
    }
}

/// Move up to `count` living merchants of profession `from` to profession
/// `to`, taking them in merchant order. Returns how many were moved.
pub fn reassign_first(merchants: &mut Vec<MerchantStatus>, from: Profession, to: Profession, count: usize) -> (moved: usize)
    ensures
        final(merchants)@.len() == old(merchants)@.len(),
        forall|j: int|
            0 <= j < old(merchants)@.len() ==> #[trigger] final(merchants)@[j] == (MerchantStatus {
                alive: old(merchants)@[j].alive,
                profession: reassigned(old(merchants)@, from, to, count as nat, j),
            }),
        moved == if count_alive_with(old(merchants)@, from, old(merchants)@.len() as nat) < count {
            count_alive_with(old(merchants)@, from, old(merchants)@.len() as nat)
        } else {
            count as nat
        },
{
    let ghost s = merchants@;
    let mut transferred: usize = 0;
    let mut i: usize = 0;
    while i < merchants.len()
        invariant
            i <= merchants@.len(),
            merchants@.len() == s.len(),
            transferred == if count_alive_with(s, from, i as nat) < count {
                count_alive_with(s, from, i as nat)
            } else {
                count as nat
            },
            forall|j: int|
                0 <= j < i ==> #[trigger] merchants@[j] == (MerchantStatus {
                    alive: s[j].alive,
                    profession: reassigned(s, from, to, count as nat, j),
                }),
            forall|j: int| i <= j < s.len() ==> #[trigger] merchants@[j] == s[j],
        decreases merchants@.len() - i,
    {
        let m = merchants[i];
        if transferred < count && m.alive && m.profession == from {
            merchants.set(i, MerchantStatus { alive: m.alive, profession: to });
            transferred += 1;
        }
        i += 1;
    }
    transferred
}

// ── Income tracking ─────────────────────────────────────────────────────────

/// Ticks over which average income per profession is computed.
pub const INCOME_WINDOW_TICKS: u32 = 1000;

/// One income observation: a living merchant's profession, the tick, and
/// the income (carried as an opaque payload).
#[derive(Debug, Clone, Copy)]
pub struct IncomeRecord<I> {
    pub profession: Profession,
    pub tick: u32,
    pub income: I,
}

/// Oldest tick still inside a window of `window` ticks ending at `current_tick`.
pub open spec fn income_cutoff(current_tick: u32, window: u32) -> u32 {
    if current_tick >= window {
        (current_tick - window) as u32
    } else {
        0
    }
}

/// The records of `s` observed at or after `cutoff`, in order.
pub open spec fn kept<I>(s: Seq<IncomeRecord<I>>, cutoff: u32) -> Seq<IncomeRecord<I>>
    decreases s.len(),
{
    if s.len() == 0 {
        s
    } else {
        let rest = kept(s.drop_last(), cutoff);
        if s.last().tick >= cutoff {
            rest.push(s.last())
        } else {
            rest
        }
    }
}

/// The incomes of profession `p` observed at or after `cutoff`, in order.
pub open spec fn window_incomes<I>(s: Seq<IncomeRecord<I>>, p: Profession, cutoff: u32) -> Seq<I>
    decreases s.len(),
{
    if s.len() == 0 {
        Seq::empty()
    } else {
        let rest = window_incomes(s.drop_last(), p, cutoff);
        if s.last().profession == p && s.last().tick >= cutoff {
            rest.push(s.last().income)
        } else {
            rest
        }
    }
}

/// Income observations per profession over a sliding window of ticks.
pub struct IncomeTracker<I> {
    records: Vec<IncomeRecord<I>>,
}

impl<I> View for IncomeTracker<I> {
    type V = Seq<IncomeRecord<I>>;

    closed spec fn view(&self) -> Seq<IncomeRecord<I>> {
        self.records@
    }
}

impl<I: Copy> IncomeTracker<I> {
    /// A tracker with no observations.
    pub fn new() -> (t: Self)
        ensures
            t@.len() == 0,
    {
        IncomeTracker { records: Vec::new() }
    }

    /// Record the income of a merchant of `profession` at `tick`.
    pub fn record(&mut self, profession: Profession, tick: u32, income: I)
        ensures
            final(self)@ == old(self)@.push(IncomeRecord { profession, tick, income }),
    {
        self.records.push(IncomeRecord { profession, tick, income });
    }

    /// Drop the records older than `current_tick - window` (saturating).
    pub fn prune(&mut self, current_tick: u32, window: u32)
        ensures
            final(self)@ == kept(old(self)@, income_cutoff(current_tick, window)),
    {
        let cutoff = current_tick.saturating_sub(window);
        let ghost s = self.records@;
        let mut out: Vec<IncomeRecord<I>> = Vec::new();
        let mut i: usize = 0;
        while i < self.records.len()
            invariant
                i <= self.records@.len(),
                self.records@ == s,
                cutoff == income_cutoff(current_tick, window),
                out@ == kept(s.take(i as int), cutoff),
            decreases self.records@.len() - i,
        {
            let r = self.records[i];
            if r.tick >= cutoff {
                out.push(r);
            }
            i += 1;
            assert(s.take(i as int).drop_last() =~= s.take(i - 1));
        }
        assert(s.take(s.len() as int) =~= s);
        self.records = out;
    }

    /// Incomes of `profession` inside the window ending at `current_tick`,
    /// oldest first (their average is the profession's average income).
    pub fn incomes_in_window(&self, profession: Profession, current_tick: u32, window: u32) -> (r: Vec<I>)
        ensures
            r@ == window_incomes(self@, profession, income_cutoff(current_tick, window)),
    {
        let cutoff = current_tick.saturating_sub(window);
        let mut out: Vec<I> = Vec::new();
        let mut i: usize = 0;
        while i < self.records.len()
            invariant
                i <= self.records@.len(),
                cutoff == income_cutoff(current_tick, window),
                out@ == window_incomes(self.records@.take(i as int), profession, cutoff),
            decreases self.records@.len() - i,
        {
            let rec = self.records[i];
            if rec.profession == profession && rec.tick >= cutoff {
                out.push(rec.income);
            }
            i += 1;
            assert(self.records@.take(i as int).drop_last() =~= self.records@.take(i - 1));
        }
        assert(self.records@.take(self.records@.len() as int) =~= self.records@);
        out
    }
}

/// Pruning forgets nothing that the window still needs: for every
/// profession the incomes inside the window are the same after pruning as
/// before, every record left is inside the window, and pruning twice is
/// pruning once.
pub proof fn lemma_prune_keeps_window<I>(s: Seq<IncomeRecord<I>>, p: Profession, cutoff: u32)
    ensures
        window_incomes(kept(s, cutoff), p, cutoff) == window_incomes(s, p, cutoff),
        forall|k: int| 0 <= k < kept(s, cutoff).len() ==> (#[trigger] kept(s, cutoff)[k]).tick >= cutoff,
        kept(kept(s, cutoff), cutoff) == kept(s, cutoff),
    decreases s.len(),
{
    if s.len() > 0 {
        lemma_prune_keeps_window(s.drop_last(), p, cutoff);
        let rest = kept(s.drop_last(), cutoff);
        if s.last().tick >= cutoff {
            assert(rest.push(s.last()).drop_last() =~= rest);
        }
    }
}

// ── Rebalancing ─────────────────────────────────────────────────────────────

/// Whether professions are rebalanced at `tick`: every `interval` ticks,
/// never at tick zero.
pub fn is_rebalance_tick(tick: u32, interval: u32) -> (b: bool)
    requires
        interval > 0,
    ensures
        b == (tick > 0 && tick % interval == 0),
{
    tick > 0 && tick % interval == 0
}

/// Merchants moved from the worst-earning profession to the best in a
/// normal rebalance: 5% of the worst profession's living members, rounded
/// up, and at least one.
pub open spec fn transfer_quota(worst_count: nat) -> nat {
    if worst_count == 0 {
        1
    } else {
        (worst_count + 19) / 20
    }
}

/// Candidates turned into farmers in a food emergency: 20% of them, rounded
/// up, and at least one.
pub open spec fn emergency_quota(candidates: nat) -> nat {
    if candidates == 0 {
        1
    } else {
        (candidates + 4) / 5
    }
}

/// Profession of merchant `j` after the transfer step of a normal rebalance.
pub open spec fn after_transfer(s: Seq<MerchantStatus>, worst: Profession, best: Profession, j: int) -> Profession {
    if worst != best {
        reassigned(s, worst, best, transfer_quota(count_alive_with(s, worst, s.len())), j)
    } else {
        s[j].profession
    }
}

/// Profession of merchant `j` after a normal rebalance: the transfer step,
/// then every living idle merchant whose roll in `accept` succeeded takes up
/// `most_needed`.
pub open spec fn after_normal_rebalance(
    s: Seq<MerchantStatus>,
    worst: Profession,
    best: Profession,
    most_needed: Profession,
    accept: Seq<bool>,
    j: int,
) -> Profession {
    if s[j].alive && after_transfer(s, worst, best, j) == Profession::Idle && accept[j] {
        most_needed
    } else {
        after_transfer(s, worst, best, j)
    }
}

fn count_living(merchants: &Vec<MerchantStatus>, p: Profession) -> (n: usize)
    ensures
        n == count_alive_with(merchants@, p, merchants@.len() as nat),
{
    let mut n: usize = 0;
    let mut i: usize = 0;
    while i < merchants.len()
        invariant
            i <= merchants.len(),
            n == count_alive_with(merchants@, p, i as nat),
            n <= i,
        decreases merchants.len() - i,
    {
        if merchants[i].alive && merchants[i].profession == p {
            n = n + 1;
        }
        i += 1;
    }
    n
}

/// Normal rebalance of professions. `worst` and `best` are the professions
/// with the lowest and highest average income over the window; unless they
/// coincide, the first `transfer_quota` living members of `worst` (in
/// merchant order) move to `best`. Then each living idle merchant whose entry
/// of `accept` is set (its 30% roll succeeded) moves to `most_needed`.
/// Returns how many merchants the transfer step moved.
pub fn normal_rebalance(
    merchants: &mut Vec<MerchantStatus>,
    worst: Profession,
    best: Profession,
    most_needed: Profession,
    accept: &[bool],
) -> (moved: usize)
    requires
        accept@.len() == old(merchants)@.len(),
    ensures
        final(merchants)@.len() == old(merchants)@.len(),
        forall|j: int|
            0 <= j < old(merchants)@.len() ==> #[trigger] final(merchants)@[j] == (MerchantStatus {
                alive: old(merchants)@[j].alive,
                profession: after_normal_rebalance(old(merchants)@, worst, best, most_needed, accept@, j),
            }),
        worst == best ==> moved == 0,
        worst != best ==> moved == {
            let c = count_alive_with(old(merchants)@, worst, old(merchants)@.len() as nat);
            if c < transfer_quota(c) {
                c
            } else {
                transfer_quota(c)
            }
        },
{
    let ghost s = merchants@;
    let mut moved: usize = 0;
    if worst != best {
        let worst_count = count_living(merchants, worst);
        let quota: usize = if worst_count == 0 {
            1
        } else {
            worst_count / 20 + if worst_count % 20 == 0 {
                0
            } else {
                1
            }
        };
        assert(quota == transfer_quota(worst_count as nat));
        moved = reassign_first(merchants, worst, best, quota);
    }
    let ghost mid = merchants@;
    assert(forall|j: int| 0 <= j < s.len() ==> #[trigger] mid[j] == (MerchantStatus {
        alive: s[j].alive,
        profession: after_transfer(s, worst, best, j),
    }));
    let mut i: usize = 0;
    while i < merchants.len()
        invariant
            i <= merchants@.len(),
            merchants@.len() == s.len(),
            mid.len() == s.len(),
            accept@.len() == s.len(),
            forall|j: int| 0 <= j < s.len() ==> #[trigger] mid[j] == (MerchantStatus {
                alive: s[j].alive,
                profession: after_transfer(s, worst, best, j),
            }),
            forall|j: int|
                0 <= j < i ==> #[trigger] merchants@[j] == (MerchantStatus {
                    alive: s[j].alive,
                    profession: after_normal_rebalance(s, worst, best, most_needed, accept@, j),
                }),
            forall|j: int| i <= j < s.len() ==> #[trigger] merchants@[j] == mid[j],
        decreases merchants@.len() - i,
    {
        let m = merchants[i];
        if m.alive && m.profession == Profession::Idle && accept[i] {
            merchants.set(i, MerchantStatus { alive: true, profession: most_needed });
        }
        i += 1;
    }
    moved
}

/// A merchant is a candidate for emergency farming when alive and idle, or
/// alive, a trader, and poorer than half the average (`low_gold`).
pub open spec fn is_emergency_candidate(m: MerchantStatus, low_gold: bool) -> bool {
    m.alive && (m.profession == Profession::Idle || (m.profession == Profession::Trader && low_gold))
}

/// Number of candidates among the first `n` merchants.
pub open spec fn count_candidates(s: Seq<MerchantStatus>, low_gold: Seq<bool>, n: nat) -> nat
    decreases n,
{
    if n == 0 {
        0
    } else {
        count_candidates(s, low_gold, (n - 1) as nat) + if is_emergency_candidate(s[n - 1], low_gold[n - 1]) {
            1nat
        } else {
            0nat
        }
    }
}

/// Indices of the emergency candidates, in increasing order.
pub fn emergency_candidates(merchants: &[MerchantStatus], low_gold: &[bool]) -> (c: Vec<usize>)
    requires
        low_gold@.len() == merchants@.len(),
    ensures
        c@.len() == count_candidates(merchants@, low_gold@, merchants@.len() as nat),
        c@.no_duplicates(),
        forall|k: int| 0 <= k < c@.len() ==> #[trigger] c@[k] < merchants@.len(),
        forall|j: int|
            0 <= j < merchants@.len() ==> (c@.contains(j as usize) <==> is_emergency_candidate(
                #[trigger] merchants@[j],
                low_gold@[j],
            )),
{
    let mut c: Vec<usize> = Vec::new();
    let mut i: usize = 0;
    while i < merchants.len()
        invariant
            i <= merchants@.len(),
            low_gold@.len() == merchants@.len(),
            c@.len() == count_candidates(merchants@, low_gold@, i as nat),
            forall|a: int, b: int| 0 <= a < b < c@.len() ==> c@[a] < c@[b],
            forall|k: int| 0 <= k < c@.len() ==> #[trigger] c@[k] < i,
            forall|j: int|
                0 <= j < i ==> (c@.contains(j as usize) <==> is_emergency_candidate(
                    #[trigger] merchants@[j],
                    low_gold@[j],
                )),
        decreases merchants@.len() - i,
    {
        let m = merchants[i];
        let ghost before = c@;
        if m.alive && (m.profession == Profession::Idle || (m.profession == Profession::Trader
            && low_gold[i])) {
            c.push(i);
        }
        proof {
            assert forall|j: int| 0 <= j < i + 1 implies (c@.contains(j as usize) <==> is_emergency_candidate(
                #[trigger] merchants@[j],
                low_gold@[j],
            )) by {
                if j < i {
                    if c@.contains(j as usize) {
                        let k = choose|k: int| 0 <= k < c@.len() && c@[k] == j as usize;
                        if k == before.len() {
                            assert(c@[k] == i);
                        } else {
                            assert(before[k] == j as usize);
                        }
                    }
                    if before.contains(j as usize) {
                        let k = choose|k: int| 0 <= k < before.len() && before[k] == j as usize;
                        assert(c@[k] == j as usize);
                    }
                } else {
                    if c@.contains(j as usize) {
                        let k = choose|k: int| 0 <= k < c@.len() && c@[k] == j as usize;
                        if k < before.len() {
                            assert(before[k] < i);
                        }
                    }
                    if is_emergency_candidate(merchants@[j], low_gold@[j]) {
                        assert(c@[before.len() as int] == i);
                    }
                }
            }
        }
        i += 1;
    }
    c
}

/// Food-emergency rebalance: the candidates are shuffled and the first
/// `emergency_quota` of them become farmers. Returns the indices of the
/// merchants turned into farmers. Which candidates are chosen depends on the
/// generator; how many, and that only candidates are chosen, does not.
pub fn emergency_rebalance(merchants: &mut Vec<MerchantStatus>, low_gold: &[bool], rng: &mut StdRng) -> (chosen: Vec<usize>)
    requires
        low_gold@.len() == old(merchants)@.len(),
    ensures
        final(merchants)@.len() == old(merchants)@.len(),
        ({
            let c = count_candidates(old(merchants)@, low_gold@, old(merchants)@.len() as nat);
            chosen@.len() == if emergency_quota(c) < c {
                emergency_quota(c)
            } else {
                c
            }
        }),
        chosen@.no_duplicates(),
        forall|k: int|
            0 <= k < chosen@.len() ==> #[trigger] chosen@[k] < old(merchants)@.len()
                && is_emergency_candidate(old(merchants)@[chosen@[k] as int], low_gold@[chosen@[k] as int]),
        forall|j: int|
            0 <= j < old(merchants)@.len() ==> #[trigger] final(merchants)@[j] == if chosen@.contains(
                j as usize,
            ) {
                MerchantStatus { alive: old(merchants)@[j].alive, profession: Profession::Farmer }
            } else {
                old(merchants)@[j]
            },
{
    let ghost s = merchants@;
    let mut candidates = emergency_candidates(merchants.as_slice(), low_gold);
    let ghost unshuffled = candidates@;
    let n = candidates.len();
    let quota: usize = if n == 0 {
        1
    } else {
        n / 5 + if n % 5 == 0 {
            0
        } else {
            1
        }
    };
    let take = if quota < n {
        quota
    } else {
        n
    };
    shuffle_candidates(&mut candidates, rng);
    proof {
        unshuffled.lemma_multiset_has_no_duplicates();
        assert forall|x: usize| candidates@.to_multiset().contains(x) implies candidates@.to_multiset().count(x)
            == 1 by {
            assert(unshuffled.to_multiset().contains(x));
        }
        candidates@.lemma_multiset_has_no_duplicates_conv();
        assert forall|k: int| 0 <= k < candidates@.len() implies unshuffled.contains(#[trigger] candidates@[k]) by {
            assert(candidates@.to_multiset().count(candidates@[k]) > 0);
        }
    }
    assert(s.len() == merchants.len());
    let mut chosen: Vec<usize> = Vec::new();
    let mut t: usize = 0;
    while t < take
        invariant
            t <= take,
            take <= candidates@.len(),
            merchants@.len() == s.len(),
            s.len() <= usize::MAX,
            candidates@.no_duplicates(),
            forall|k: int| 0 <= k < candidates@.len() ==> unshuffled.contains(#[trigger] candidates@[k]),
            forall|k: int| 0 <= k < unshuffled.len() ==> #[trigger] unshuffled[k] < s.len(),
            forall|j: int|
                0 <= j < s.len() ==> (unshuffled.contains(j as usize) <==> is_emergency_candidate(
                    #[trigger] s[j],
                    low_gold@[j],
                )),
            chosen@ == candidates@.take(t as int),
            forall|j: int|
                0 <= j < s.len() ==> #[trigger] merchants@[j] == if chosen@.contains(j as usize) {
                    MerchantStatus { alive: s[j].alive, profession: Profession::Farmer }
                } else {
                    s[j]
                },
        decreases take - t,
    {
        let idx = candidates[t];
        proof {
            assert(unshuffled.contains(idx));
            let k = choose|k: int| 0 <= k < unshuffled.len() && unshuffled[k] == idx;
            assert(unshuffled[k] < s.len());
        }
        let m = merchants[idx];
        let ghost mb = merchants@;
        merchants.set(idx, MerchantStatus { alive: m.alive, profession: Profession::Farmer });
        let ghost before = chosen@;
        chosen.push(idx);
        t += 1;
        proof {
            assert(chosen@ =~= candidates@.take(t as int));
            assert forall|j: int| 0 <= j < s.len() implies #[trigger] merchants@[j] == if chosen@.contains(
                j as usize,
            ) {
                MerchantStatus { alive: s[j].alive, profession: Profession::Farmer }
            } else {
                s[j]
            } by {
                if j == idx as int {
                    assert(chosen@[before.len() as int] == idx);
                    if !before.contains(idx) {
                        assert(mb[j] == s[j]);
                        assert(m == mb[idx as int]);
                        assert(merchants@[idx as int] == MerchantStatus { alive: m.alive, profession: Profession::Farmer });
                        assert(merchants@[j] == MerchantStatus { alive: s[j].alive, profession: Profession::Farmer });
                    } else {
                        let k = choose|k: int| 0 <= k < before.len() && before[k] == idx;
                        assert(candidates@[k] == candidates@[t - 1]);
                    }
                } else {
                    if chosen@.contains(j as usize) {
                        let k = choose|k: int| 0 <= k < chosen@.len() && chosen@[k] == j as usize;
                        assert(k < before.len());
                        assert(before.contains(j as usize));
                    }
                    if before.contains(j as usize) {
                        let k = choose|k: int| 0 <= k < before.len() && before[k] == j as usize;
                        assert(chosen@[k] == j as usize);
                    }
                }
            }
        }
    }
    proof {
        assert forall|k: int| 0 <= k < chosen@.len() implies #[trigger] chosen@[k] < s.len()
            && is_emergency_candidate(s[chosen@[k] as int], low_gold@[chosen@[k] as int]) by {
            assert(unshuffled.contains(candidates@[k]));
            let i = choose|i: int| 0 <= i < unshuffled.len() && unshuffled[i] == candidates@[k];
            assert(unshuffled[i] < s.len());
        }
        assert forall|a: int, b: int| 0 <= a < chosen@.len() && 0 <= b < chosen@.len() && a != b implies chosen@[a]
            != chosen@[b] by {
            assert(candidates@[a] != candidates@[b]);
        }
    }
    chosen
}

/// Every living merchant practises exactly one profession: the per-profession
/// counts add up to the number of living merchants.
pub proof fn lemma_profession_counts_sum_to_alive(s: Seq<MerchantStatus>, n: nat)
    requires
        n <= s.len(),
    ensures
        count_alive_with(s, Profession::Trader, n) + count_alive_with(s, Profession::Miner, n)
            + count_alive_with(s, Profession::Farmer, n) + count_alive_with(s, Profession::Craftsman, n)
            + count_alive_with(s, Profession::Soldier, n) + count_alive_with(s, Profession::Shipwright, n)
            + count_alive_with(s, Profession::Idle, n) == count_alive(s, n),
    decreases n,
{
    if n > 0 {
        lemma_profession_counts_sum_to_alive(s, (n - 1) as nat);
    }
}

/// Reassignment never changes who is alive, only moves merchants from
/// `from` to `to`, and moves no more than `count`.
pub proof fn lemma_reassign_moves_only_from(s: Seq<MerchantStatus>, from: Profession, to: Profession, count: nat, j: int)
    requires
        0 <= j < s.len(),
    ensures
        reassigned(s, from, to, count, j) != s[j].profession ==> s[j].alive && s[j].profession == from
            && reassigned(s, from, to, count, j) == to,
        count == 0 ==> reassigned(s, from, to, count, j) == s[j].profession,
{
}

} // verus!
