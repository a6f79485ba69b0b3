//! Bandit attacks of one tick: which merchant each bandit goes for, when a
//! caravan repels it, when a nearby soldier fights it, and how the camps'
//! starvation counters and the bandits' flags change afterwards.
//!
//! Distances, the seasonal attack roll and loot amounts are decided outside
//! and handed in as flags; the repel and combat rolls are drawn here.
use vstd::prelude::*;
use rand::rngs::StdRng;
use crate::bandit::{
    BanditLedger, BanditStatus, CampStatus, CaravanDefence, camp_after_robberies, caravan_defence,
    CARAVAN_IMMUNE_SIZE, CARAVAN_REPEL_SIZE,
};
use crate::random::random_ratio;

verus! {

broadcast use vstd::seq_lib::group_seq_properties;

/// Chance that a group of `CARAVAN_REPEL_SIZE` repels an attack: 7 in 10.
pub const REPEL_CHANCE_NUM: u32 = 7;

/// Denominator of the repel chance.
pub const REPEL_CHANCE_DEN: u32 = 10;

/// Chance that a soldier wins combat against a bandit: 1 in 2.
pub const SOLDIER_WIN_NUM: u32 = 1;

/// Denominator of the soldier's winning chance.
pub const SOLDIER_WIN_DEN: u32 = 2;

/// What happened in one attack, in the order it happened.
#[derive(Debug, Clone, Copy, PartialEq, Eq, Structural)]
pub enum AttackEvent {
    /// The soldier at index `soldier` fought the bandit at index `bandit`
    /// near its target.
    Combat { bandit: usize, soldier: usize, camp_id: u32, soldier_wins: bool },
    /// The bandit at index `bandit` robbed the merchant at index `merchant`.
    Robbery { bandit: usize, merchant: usize, camp_id: u32 },
}

/// Attacks resolved so far in a tick.
pub ghost struct AttackState {
    pub events: Seq<AttackEvent>,
    /// Merchants robbed so far, in order.
    pub robbed: Seq<usize>,
    /// Bandits defeated so far, in order.
    pub defeated: Seq<usize>,
    /// Camp of each robbery, in order.
    pub robbed_camps: Seq<u32>,
}

/// Nothing has happened yet.
pub open spec fn no_attacks() -> AttackState {
    AttackState { events: Seq::empty(), robbed: Seq::empty(), defeated: Seq::empty(), robbed_camps: Seq::empty() }
}

/// Bandit `b` may go for merchant `m`: not robbed yet this tick, in range,
/// not an immune caravan, and not a caravan that repels it (`repel(b, m)`).
pub open spec fn eligible(
    in_range: Seq<Vec<bool>>,
    sizes: Seq<u32>,
    repel: spec_fn(int, int) -> bool,
    robbed: Seq<usize>,
    b: int,
    m: int,
) -> bool {
    &&& !robbed.contains(m as usize)
    &&& in_range[b]@[m]
    &&& sizes[m] < CARAVAN_IMMUNE_SIZE
    &&& !(sizes[m] >= CARAVAN_REPEL_SIZE && repel(b, m))
}

/// The first merchant at index `m` or later that bandit `b` may go for.
pub open spec fn first_target(
    in_range: Seq<Vec<bool>>,
    sizes: Seq<u32>,
    repel: spec_fn(int, int) -> bool,
    robbed: Seq<usize>,
    b: int,
    m: int,
) -> Option<int>
    decreases sizes.len() - m,
{
    if m < 0 || m >= sizes.len() {
        None
    } else if eligible(in_range, sizes, repel, robbed, b, m) {
        Some(m)
    } else {
        first_target(in_range, sizes, repel, robbed, b, m + 1)
    }
}

/// The attack of bandit `b` after the attacks in `st`. An inactive bandit,
/// or one whose attempt failed, does nothing; so does one with no target.
/// Otherwise, when a soldier stands near the target they fight (`win(b, m)`:
/// the soldier wins): a winning soldier stops the bandit, a losing one does
/// not, and the bandit robs its target.
pub open spec fn attack_step(
    bandits: Seq<BanditStatus>,
    attempts: Seq<bool>,
    in_range: Seq<Vec<bool>>,
    sizes: Seq<u32>,
    soldiers: Seq<Option<usize>>,
    repel: spec_fn(int, int) -> bool,
    win: spec_fn(int, int) -> bool,
    st: AttackState,
    b: int,
) -> AttackState {
    if !bandits[b].active || !attempts[b] {
        st
    } else {
        match first_target(in_range, sizes, repel, st.robbed, b, 0) {
            None => st,
            Some(m) => {
                let camp = bandits[b].camp_id;
                let rob = AttackEvent::Robbery { bandit: b as usize, merchant: m as usize, camp_id: camp };
                match soldiers[m] {
                    Some(s) => if win(b, m) {
                        AttackState {
                            events: st.events.push(
                                AttackEvent::Combat { bandit: b as usize, soldier: s, camp_id: camp, soldier_wins: true },
                            ),
                            robbed: st.robbed,
                            defeated: st.defeated.push(b as usize),
                            robbed_camps: st.robbed_camps,
                        }
                    } else {
                        AttackState {
                            events: st.events.push(
                                AttackEvent::Combat { bandit: b as usize, soldier: s, camp_id: camp, soldier_wins: false },
                            ).push(rob),
                            robbed: st.robbed.push(m as usize),
                            defeated: st.defeated,
                            robbed_camps: st.robbed_camps.push(camp),
                        }
                    },
                    None => AttackState {
                        events: st.events.push(rob),
                        robbed: st.robbed.push(m as usize),
                        defeated: st.defeated,
                        robbed_camps: st.robbed_camps.push(camp),
                    },
                }
            },
        }
    }
}

/// The attacks of the first `k` bandits, in bandit order.
pub open spec fn attacks_upto(
    bandits: Seq<BanditStatus>,
    attempts: Seq<bool>,
    in_range: Seq<Vec<bool>>,
    sizes: Seq<u32>,
    soldiers: Seq<Option<usize>>,
    repel: spec_fn(int, int) -> bool,
    win: spec_fn(int, int) -> bool,
    k: nat,
) -> AttackState
    decreases k,
{
    if k == 0 {
        no_attacks()
    } else {
        attack_step(
            bandits,
            attempts,
            in_range,
            sizes,
            soldiers,
            repel,
            win,
            attacks_upto(bandits, attempts, in_range, sizes, soldiers, repel, win, (k - 1) as nat),
            k - 1,
        )
    }
}

proof fn lemma_first_target_found(
    in_range: Seq<Vec<bool>>,
    sizes: Seq<u32>,
    repel: spec_fn(int, int) -> bool,
    robbed: Seq<usize>,
    b: int,
    from: int,
    t: int,
)
    requires
        0 <= from <= t < sizes.len(),
        eligible(in_range, sizes, repel, robbed, b, t),
        forall|m: int| from <= m < t ==> !#[trigger] eligible(in_range, sizes, repel, robbed, b, m),
    ensures
        first_target(in_range, sizes, repel, robbed, b, from) == Some(t),
    decreases t - from,
{
    if from < t {
        lemma_first_target_found(in_range, sizes, repel, robbed, b, from + 1, t);
    }
}

proof fn lemma_first_target_none(
    in_range: Seq<Vec<bool>>,
    sizes: Seq<u32>,
    repel: spec_fn(int, int) -> bool,
    robbed: Seq<usize>,
    b: int,
    from: int,
)
    requires
        0 <= from <= sizes.len(),
        forall|m: int| from <= m < sizes.len() ==> !#[trigger] eligible(in_range, sizes, repel, robbed, b, m),
    ensures
        first_target(in_range, sizes, repel, robbed, b, from) is None,
    decreases sizes.len() - from,
{
    if from < sizes.len() {
        lemma_first_target_none(in_range, sizes, repel, robbed, b, from + 1);
    }
}

proof fn lemma_first_target_congruent(
    in_range: Seq<Vec<bool>>,
    sizes: Seq<u32>,
    r1: spec_fn(int, int) -> bool,
    r2: spec_fn(int, int) -> bool,
    robbed: Seq<usize>,
    b: int,
    from: int,
)
    requires
        forall|m: int| #[trigger] r1(b, m) == r2(b, m),
    ensures
        first_target(in_range, sizes, r1, robbed, b, from) == first_target(in_range, sizes, r2, robbed, b, from),
    decreases sizes.len() - from,
{
    if 0 <= from < sizes.len() {
        lemma_first_target_congruent(in_range, sizes, r1, r2, robbed, b, from + 1);
        assert(r1(b, from) == r2(b, from));
    }
}

proof fn lemma_attacks_congruent(
    bandits: Seq<BanditStatus>,
    attempts: Seq<bool>,
    in_range: Seq<Vec<bool>>,
    sizes: Seq<u32>,
    soldiers: Seq<Option<usize>>,
    r1: spec_fn(int, int) -> bool,
    w1: spec_fn(int, int) -> bool,
    r2: spec_fn(int, int) -> bool,
    w2: spec_fn(int, int) -> bool,
    k: nat,
)
    requires
        forall|b: int, m: int| 0 <= b < k ==> #[trigger] r1(b, m) == r2(b, m),
        forall|b: int, m: int| 0 <= b < k ==> #[trigger] w1(b, m) == w2(b, m),
    ensures
        attacks_upto(bandits, attempts, in_range, sizes, soldiers, r1, w1, k) == attacks_upto(
            bandits,
            attempts,
            in_range,
            sizes,
            soldiers,
            r2,
            w2,
            k,
        ),
    decreases k,
{
    if k > 0 {
        lemma_attacks_congruent(bandits, attempts, in_range, sizes, soldiers, r1, w1, r2, w2, (k - 1) as nat);
        let st = attacks_upto(bandits, attempts, in_range, sizes, soldiers, r1, w1, (k - 1) as nat);
        let b = k - 1;
        assert forall|m: int| #[trigger] r1(b, m) == r2(b, m) by {
            assert(r1(b, m) == r2(b, m));
        }
        lemma_first_target_congruent(in_range, sizes, r1, r2, st.robbed, b, 0);
        assert forall|m: int| #[trigger] w1(b, m) == w2(b, m) by {
            assert(w1(b, m) == w2(b, m));
        }
    }
}

pub(crate) fn contains_index(v: &Vec<usize>, x: usize) -> (b: bool)
    ensures
        b == v@.contains(x),
{
    let mut i: usize = 0;
    while i < v.len()
        invariant
            i <= v@.len(),
            forall|j: int| 0 <= j < i ==> v@[j] != x,
        decreases v@.len() - i,
    {
        if v[i] == x {
            return true;
        }
        i += 1;
    }
    false
}

/// Resolve the attacks of one tick, bandit by bandit in ledger order.
///
/// Inputs, decided outside from positions and the seasonal roll:
/// `attempts[b]`: bandit `b` tries to attack this tick (its seasonal roll
/// succeeded and no walled city is near); `in_range[b][m]`: merchant `m` is
/// within bandit `b`'s attack range; `group_sizes[m]`: the size of `m`'s
/// group; `soldiers[m]`: the first soldier close enough to `m` to engage.
///
/// An active, attempting bandit goes for the first merchant, in order, not
/// robbed yet this tick, in range, in a group below the immune size, and
/// (for a group of the repel size) not repelling it on a 7-in-10 roll. If a
/// soldier stands near the target they fight on a 1-in-2 roll: a winning
/// soldier grounds the bandit and nothing is robbed; otherwise the bandit
/// robs its target. Afterwards the defeated bandits are grounded and every
/// living camp's starvation counter is reset when it robbed and advanced
/// otherwise. The rolls depend on the generator; everything else is fixed
/// by the inputs.
pub fn tick_attacks(
    ledger: &mut BanditLedger,
    attempts: &[bool],
    in_range: &[Vec<bool>],
    group_sizes: &[u32],
    soldiers: &[Option<usize>],
    rng: &mut StdRng,
) -> (events: Vec<AttackEvent>)
    requires
        old(ledger).wf(),
        attempts@.len() == old(ledger)@.bandits.len(),
        in_range@.len() == old(ledger)@.bandits.len(),
        forall|b: int| 0 <= b < in_range@.len() ==> (#[trigger] in_range@[b])@.len() == group_sizes@.len(),
        soldiers@.len() == group_sizes@.len(),
        forall|i: int|
            0 <= i < old(ledger)@.camps.len() && (#[trigger] old(ledger)@.camps[i]).alive
                ==> old(ledger)@.camps[i].ticks_since_last_robbery < u32::MAX,
    ensures
        final(ledger).wf(),
        exists|repel: spec_fn(int, int) -> bool, win: spec_fn(int, int) -> bool|
            {
                let st = #[trigger] attacks_upto(
                    old(ledger)@.bandits,
                    attempts@,
                    in_range@,
                    group_sizes@,
                    soldiers@,
                    repel,
                    win,
                    old(ledger)@.bandits.len(),
                );
                &&& events@ == st.events
                &&& final(ledger)@.bandits == with_defeated(old(ledger)@.bandits, st.defeated)
                &&& final(ledger)@.camps == old(ledger)@.camps.map_values(
                    |c: CampStatus| camp_after_robberies(c, st.robbed_camps),
                )
            },
{
    let ghost l0 = ledger@;
    let ghost bs = ledger@.bandits;
    let nb = ledger.bandits().len();
    let nm = group_sizes.len();
    let mut events: Vec<AttackEvent> = Vec::new();
    let mut robbed: Vec<usize> = Vec::new();
    let mut defeated: Vec<usize> = Vec::new();
    let mut robbed_camps: Vec<u32> = Vec::new();
    let ghost mut repel: spec_fn(int, int) -> bool = |x: int, y: int| false;
    let ghost mut win: spec_fn(int, int) -> bool = |x: int, y: int| false;
    let mut b: usize = 0;
    while b < nb
        invariant
            b <= nb,
            nb == bs.len(),
            nm == group_sizes@.len(),
            ledger@ == l0,
            bs == l0.bandits,
            ledger.wf(),
            attempts@.len() == nb,
            in_range@.len() == nb,
            forall|x: int| 0 <= x < in_range@.len() ==> (#[trigger] in_range@[x])@.len() == nm,
            soldiers@.len() == nm,
            events@ == attacks_upto(bs, attempts@, in_range@, group_sizes@, soldiers@, repel, win, b as nat).events,
            robbed@ == attacks_upto(bs, attempts@, in_range@, group_sizes@, soldiers@, repel, win, b as nat).robbed,
            defeated@ == attacks_upto(bs, attempts@, in_range@, group_sizes@, soldiers@, repel, win, b as nat).defeated,
            robbed_camps@ == attacks_upto(bs, attempts@, in_range@, group_sizes@, soldiers@, repel, win, b as nat).robbed_camps,
            forall|k: int| 0 <= k < defeated@.len() ==> #[trigger] defeated@[k] < nb,
        decreases nb - b,
    {
        let bandit = ledger.bandits()[b];
        let ghost r_entry = repel;
        let ghost w_entry = win;
        let ghost st = attacks_upto(bs, attempts@, in_range@, group_sizes@, soldiers@, repel, win, b as nat);
        let ghost bi = b as int;
        if bandit.active && attempts[b] {
            let mut m: usize = 0;
            let mut target: Option<usize> = None;
            while m < nm && target.is_none()
                invariant
                    m <= nm,
                    nm == group_sizes@.len(),
                    b < nb,
                    bi == b,
                    in_range@.len() == nb,
                    forall|x: int| 0 <= x < in_range@.len() ==> (#[trigger] in_range@[x])@.len() == nm,
                    robbed@ == st.robbed,
                    forall|x: int, y: int| x != bi ==> #[trigger] repel(x, y) == r_entry(x, y),
                    target is None ==> forall|mm: int|
                        0 <= mm < m ==> !#[trigger] eligible(in_range@, group_sizes@, repel, robbed@, bi, mm),
                    target matches Some(t) ==> t < m && eligible(in_range@, group_sizes@, repel, robbed@, bi, t as int)
                        && forall|mm: int|
                        0 <= mm < t ==> !#[trigger] eligible(in_range@, group_sizes@, repel, robbed@, bi, mm),
                decreases nm - m,
            {
                let ghost before = repel;
                if !contains_index(&robbed, m) && in_range[b][m] {
                    match caravan_defence(group_sizes[m]) {
                        CaravanDefence::Immune => {},
                        CaravanDefence::MayRepel => {
                            let r = random_ratio(rng, REPEL_CHANCE_NUM, REPEL_CHANCE_DEN);
                            proof {
                                let mi = m as int;
                                repel = |x: int, y: int| if x == bi && y == mi {
                                    r
                                } else {
                                    before(x, y)
                                };
                                assert forall|mm: int| 0 <= mm < m implies #[trigger] repel(bi, mm) == before(bi, mm) by {}
                            }
                            if !r {
                                target = Some(m);
                            }
                        },
                        CaravanDefence::Exposed => {
                            target = Some(m);
                        },
                    }
                }
                proof {
                    assert forall|mm: int| 0 <= mm < m implies eligible(in_range@, group_sizes@, repel, robbed@, bi, mm)
                        == eligible(in_range@, group_sizes@, before, robbed@, bi, mm) by {
                        assert(repel(bi, mm) == before(bi, mm));
                    }
                }
                m += 1;
            }
            proof {
                lemma_attacks_congruent(bs, attempts@, in_range@, group_sizes@, soldiers@, repel, win, r_entry, win, b as nat);
                match target {
                    Some(t) => {
                        lemma_first_target_found(in_range@, group_sizes@, repel, robbed@, bi, 0, t as int);
                    },
                    None => {
                        lemma_first_target_none(in_range@, group_sizes@, repel, robbed@, bi, 0);
                    },
                }
            }
            let ghost r_after = repel;
            match target {
                None => {},
                Some(t) => {
                    let camp = bandit.camp_id;
                    match soldiers[t] {
                        Some(s) => {
                            let w = random_ratio(rng, SOLDIER_WIN_NUM, SOLDIER_WIN_DEN);
                            proof {
                                let ti = t as int;
                                let w_before = win;
                                win = |x: int, y: int| if x == bi && y == ti {
                                    w
                                } else {
                                    w_before(x, y)
                                };
                                lemma_attacks_congruent(
                                    bs,
                                    attempts@,
                                    in_range@,
                                    group_sizes@,
                                    soldiers@,
                                    repel,
                                    win,
                                    repel,
                                    w_before,
                                    b as nat,
                                );
                            }
                            if w {
                                events.push(AttackEvent::Combat { bandit: b, soldier: s, camp_id: camp, soldier_wins: true });
                                defeated.push(b);
                            } else {
                                events.push(AttackEvent::Combat { bandit: b, soldier: s, camp_id: camp, soldier_wins: false });
                                events.push(AttackEvent::Robbery { bandit: b, merchant: t, camp_id: camp });
                                robbed.push(t);
                                robbed_camps.push(camp);
                            }
                        },
                        None => {
                            events.push(AttackEvent::Robbery { bandit: b, merchant: t, camp_id: camp });
                            robbed.push(t);
                            robbed_camps.push(camp);
                        },
                    }
                },
            }
        }
        proof {
            let st1 = attacks_upto(bs, attempts@, in_range@, group_sizes@, soldiers@, repel, win, (b + 1) as nat);
            assert(st1 == attack_step(
                bs,
                attempts@,
                in_range@,
                group_sizes@,
                soldiers@,
                repel,
                win,
                attacks_upto(bs, attempts@, in_range@, group_sizes@, soldiers@, repel, win, b as nat),
                b as int,
            ));
            assert(events@ =~= st1.events);
            assert(robbed@ =~= st1.robbed);
            assert(defeated@ =~= st1.defeated);
            assert(robbed_camps@ =~= st1.robbed_camps);
        }
        b += 1;
    }

    let ghost fin = attacks_upto(bs, attempts@, in_range@, group_sizes@, soldiers@, repel, win, nb as nat);
    let mut k: usize = 0;
    while k < defeated.len()
        invariant
            k <= defeated@.len(),
            nb == bs.len(),
            ledger.wf(),
            ledger@.camps == l0.camps,
            ledger@.bandits == with_defeated(bs, defeated@.take(k as int)),
            forall|q: int| 0 <= q < defeated@.len() ==> #[trigger] defeated@[q] < nb,
        decreases defeated@.len() - k,
    {
        let d = defeated[k];
        ledger.deactivate_bandit(d);
        k += 1;
        proof {
            assert(defeated@.take(k as int) == defeated@.take(k - 1).push(d));
            assert(ledger@.bandits =~= with_defeated(bs, defeated@.take(k as int)));
        }
    }
    assert(defeated@.take(defeated@.len() as int) =~= defeated@);
    ledger.record_robberies(robbed_camps.as_slice());
    proof {
        assert(events@ == fin.events);
        assert(ledger@.bandits == with_defeated(l0.bandits, fin.defeated));
        assert(ledger@.camps == l0.camps.map_values(|c: CampStatus| camp_after_robberies(c, fin.robbed_camps)));
    }
    events
}

/// Bandit of a robbery (meaningless for a combat).
pub open spec fn robber(e: AttackEvent) -> usize {
    match e {
        AttackEvent::Robbery { bandit, .. } => bandit,
        AttackEvent::Combat { bandit, .. } => bandit,
    }
}

/// Merchant robbed (meaningless for a combat).
pub open spec fn victim(e: AttackEvent) -> usize {
    match e {
        AttackEvent::Robbery { merchant, .. } => merchant,
        AttackEvent::Combat { soldier, .. } => soldier,
    }
}

/// A robbery by an active, attempting bandit, of a merchant in its range
/// whose group is below the immune size, credited to the bandit's camp.
pub open spec fn lawful_robbery(
    bandits: Seq<BanditStatus>,
    attempts: Seq<bool>,
    in_range: Seq<Vec<bool>>,
    sizes: Seq<u32>,
    e: AttackEvent,
) -> bool {
    match e {
        AttackEvent::Robbery { bandit, merchant, camp_id } => {
            &&& bandit < bandits.len()
            &&& bandits[bandit as int].active
            &&& attempts[bandit as int]
            &&& merchant < sizes.len()
            &&& in_range[bandit as int]@[merchant as int]
            &&& sizes[merchant as int] < CARAVAN_IMMUNE_SIZE
            &&& camp_id == bandits[bandit as int].camp_id
        },
        AttackEvent::Combat { .. } => true,
    }
}

proof fn lemma_first_target_sound(
    in_range: Seq<Vec<bool>>,
    sizes: Seq<u32>,
    repel: spec_fn(int, int) -> bool,
    robbed: Seq<usize>,
    b: int,
    from: int,
)
    ensures
        first_target(in_range, sizes, repel, robbed, b, from) matches Some(m) ==> 0 <= m < sizes.len()
            && eligible(in_range, sizes, repel, robbed, b, m),
    decreases sizes.len() - from,
{
    if 0 <= from < sizes.len() && !eligible(in_range, sizes, repel, robbed, b, from) {
        lemma_first_target_sound(in_range, sizes, repel, robbed, b, from + 1);
    }
}

/// Whatever the rolls, the attacks of a tick follow the rules: every
/// robbery is lawful (active, attempting bandit; target in range and below
/// the immune group size; the bandit's own camp credited), robberies come
/// in bandit order with at most one per bandit, no merchant is robbed
/// twice, and each robbery credits exactly one camp.
pub proof fn lemma_attacks_follow_rules(
    bandits: Seq<BanditStatus>,
    attempts: Seq<bool>,
    in_range: Seq<Vec<bool>>,
    sizes: Seq<u32>,
    soldiers: Seq<Option<usize>>,
    repel: spec_fn(int, int) -> bool,
    win: spec_fn(int, int) -> bool,
    k: nat,
)
    requires
        k <= bandits.len(),
        k <= attempts.len(),
        bandits.len() <= usize::MAX,
        sizes.len() <= usize::MAX,
    ensures
        ({
            let st = attacks_upto(bandits, attempts, in_range, sizes, soldiers, repel, win, k);
            &&& forall|i: int| 0 <= i < st.events.len() ==> lawful_robbery(bandits, attempts, in_range, sizes, #[trigger] st.events[i])
            &&& forall|i: int, j: int|
                0 <= i < j < st.events.len() && (#[trigger] st.events[i]) is Robbery && (#[trigger] st.events[j]) is Robbery
                    ==> robber(st.events[i]) < robber(st.events[j]) && victim(st.events[i]) != victim(st.events[j])
            &&& forall|i: int| 0 <= i < st.events.len() && (#[trigger] st.events[i]) is Robbery
                ==> robber(st.events[i]) < k && st.robbed.contains(victim(st.events[i]))
            &&& st.robbed_camps.len() == st.robbed.len()
        }),
    decreases k,
{
    if k > 0 {
        lemma_attacks_follow_rules(bandits, attempts, in_range, sizes, soldiers, repel, win, (k - 1) as nat);
        let prev = attacks_upto(bandits, attempts, in_range, sizes, soldiers, repel, win, (k - 1) as nat);
        let st = attacks_upto(bandits, attempts, in_range, sizes, soldiers, repel, win, k);
        let b = k - 1;
        lemma_first_target_sound(in_range, sizes, repel, prev.robbed, b, 0);
        assert(st == attack_step(bandits, attempts, in_range, sizes, soldiers, repel, win, prev, b));
        if bandits[b].active && attempts[b] {
            match first_target(in_range, sizes, repel, prev.robbed, b, 0) {
                Some(m) => {
                    let camp = bandits[b].camp_id;
                    let rob = AttackEvent::Robbery { bandit: b as usize, merchant: m as usize, camp_id: camp };
                    assert(lawful_robbery(bandits, attempts, in_range, sizes, rob));
                    assert(robber(rob) == b);
                    assert(victim(rob) == m);
                    match soldiers[m] {
                        Some(s) => {
                            if win(b, m) {
                                assert(st.events == prev.events.push(
                                    AttackEvent::Combat { bandit: b as usize, soldier: s, camp_id: camp, soldier_wins: true },
                                ));
                            } else {
                                assert(st.events == prev.events.push(
                                    AttackEvent::Combat { bandit: b as usize, soldier: s, camp_id: camp, soldier_wins: false },
                                ).push(rob));
                            }
                        },
                        None => {
                            assert(st.events == prev.events.push(rob));
                        },
                    }
                },
                None => {},
            }
        }
        assert forall|i: int| 0 <= i < prev.events.len() implies st.events[i] == prev.events[i] by {}
        assert forall|i: int| 0 <= i < st.events.len() && (#[trigger] st.events[i]) is Robbery implies robber(
            st.events[i],
        ) < k && st.robbed.contains(victim(st.events[i])) by {
            if i < prev.events.len() {
                assert(st.events[i] == prev.events[i]);
                let x = victim(prev.events[i]);
                assert(prev.robbed.contains(x));
                let q = choose|q: int| 0 <= q < prev.robbed.len() && prev.robbed[q] == x;
                assert(st.robbed[q] == x);
            } else {
                assert(st.robbed[st.robbed.len() - 1] == victim(st.events[i]));
            }
        }
        assert forall|i: int| 0 <= i < st.events.len() implies lawful_robbery(
            bandits,
            attempts,
            in_range,
            sizes,
            #[trigger] st.events[i],
        ) by {
            if i < prev.events.len() {
                assert(st.events[i] == prev.events[i]);
            }
        }
        assert forall|i: int, j: int|
            0 <= i < j < st.events.len() && (#[trigger] st.events[i]) is Robbery && (#[trigger] st.events[j]) is Robbery
            implies robber(st.events[i]) < robber(st.events[j]) && victim(st.events[i]) != victim(st.events[j]) by {
            if j < prev.events.len() {
                assert(st.events[i] == prev.events[i]);
                assert(st.events[j] == prev.events[j]);
            } else if i < prev.events.len() {
                assert(st.events[i] == prev.events[i]);
                assert(prev.events[i] is Robbery);
                assert(robber(prev.events[i]) < b);
                assert(prev.robbed.contains(victim(prev.events[i])));
                assert(robber(st.events[j]) == b);
                assert(!prev.robbed.contains(victim(st.events[j])));
            } else {
                assert(st.events[i] is Combat || st.events[j] is Combat);
            }
        }
    }
}

/// `bandits` with the ones at the indices in `defeated` grounded.
pub open spec fn with_defeated(bandits: Seq<BanditStatus>, defeated: Seq<usize>) -> Seq<BanditStatus> {
    Seq::new(
        bandits.len(),
        |j: int|
            if defeated.contains(j as usize) {
                BanditStatus { camp_id: bandits[j].camp_id, active: false }
            } else {
                bandits[j]
            },
    )
}

} // verus!
