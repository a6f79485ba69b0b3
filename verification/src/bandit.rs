//! Bandit camp lifecycle: starvation counters, destruction of starved camps,
//! grounding of the bandits of dead camps, the respawn quota that keeps the
//! target number of camps, and the caravan safety rule checked before an
//! attack.
//!
//! Positions, patrol movement and loot amounts are not modelled here; the
//! ledger keeps what the lifecycle decisions read: ids, counters and flags.
use vstd::prelude::*;
use crate::caravan::contains_id;

verus! {

broadcast use vstd::seq_lib::group_seq_properties;

pub type BanditCampId = u32;

/// Caravans of this size or larger cannot be attacked.
pub const CARAVAN_IMMUNE_SIZE: u32 = 4;

/// Caravans of this size (and below the immune size) may repel an attack.
pub const CARAVAN_REPEL_SIZE: u32 = 3;

/// Bookkeeping of one bandit camp.
#[derive(Debug, Clone, Copy, PartialEq, Eq, Structural)]
pub struct CampStatus {
    pub id: BanditCampId,
    pub agent_count: u32,
    pub ticks_since_last_robbery: u32,
    pub alive: bool,
}

/// Bookkeeping of one bandit agent.
#[derive(Debug, Clone, Copy, PartialEq, Eq, Structural)]
pub struct BanditStatus {
    pub camp_id: BanditCampId,
    pub active: bool,
}

/// Mathematical value of a ledger: its camps and its bandits, in creation order.
pub ghost struct BanditLedgerModel {
    pub camps: Seq<CampStatus>,
    pub bandits: Seq<BanditStatus>,
}

/// All camps ever created (dead ones stay, flagged) and all bandits.
pub struct BanditLedger {
    camps: Vec<CampStatus>,
    bandits: Vec<BanditStatus>,
}

impl View for BanditLedger {
    type V = BanditLedgerModel;

    closed spec fn view(&self) -> BanditLedgerModel {
        BanditLedgerModel { camps: self.camps@, bandits: self.bandits@ }
    }
}

/// Number of living camps in `camps`.
pub open spec fn alive_count(camps: Seq<CampStatus>) -> nat
    decreases camps.len(),
{
    if camps.len() == 0 {
        0
    } else {
        alive_count(camps.drop_last()) + if camps.last().alive {
            1nat
        } else {
            0nat
        }
    }
}

/// Number of active bandits in `bandits`.
pub open spec fn active_count(bandits: Seq<BanditStatus>) -> nat
    decreases bandits.len(),
{
    if bandits.len() == 0 {
        0
    } else {
        active_count(bandits.drop_last()) + if bandits.last().active {
            1nat
        } else {
            0nat
        }
    }
}

/// Camp `c` after a tick in which the camps in `robbed` committed a robbery:
/// a living camp's counter resets when it robbed and grows by one otherwise;
/// a dead camp is left as it is.
pub open spec fn camp_after_robberies(c: CampStatus, robbed: Seq<u32>) -> CampStatus {
    if !c.alive {
        c
    } else if robbed.contains(c.id) {
        CampStatus { id: c.id, agent_count: c.agent_count, ticks_since_last_robbery: 0, alive: true }
    } else {
        CampStatus {
            id: c.id,
            agent_count: c.agent_count,
            ticks_since_last_robbery: (c.ticks_since_last_robbery + 1) as u32,
            alive: true,
        }
    }
}

/// A living camp whose counter has reached the starvation threshold.
pub open spec fn starved(c: CampStatus, starvation_ticks: u32) -> bool {
    c.alive && c.ticks_since_last_robbery >= starvation_ticks
}

/// Camp `c` after the starvation check: a starved camp dies.
pub open spec fn camp_after_starvation(c: CampStatus, starvation_ticks: u32) -> CampStatus {
    if starved(c, starvation_ticks) {
        CampStatus {
            id: c.id,
            agent_count: c.agent_count,
            ticks_since_last_robbery: c.ticks_since_last_robbery,
            alive: false,
        }
    } else {
        c
    }
}

/// All camps after the starvation check.
pub open spec fn after_starvation(camps: Seq<CampStatus>, starvation_ticks: u32) -> Seq<CampStatus> {
    camps.map_values(|c: CampStatus| camp_after_starvation(c, starvation_ticks))
}

/// Bandit `b` once its camp's fate is known: an active bandit of a dead camp
/// is grounded.
pub open spec fn bandit_after(b: BanditStatus, camps: Seq<CampStatus>) -> BanditStatus {
    if b.active && !camps[b.camp_id as int].alive {
        BanditStatus { camp_id: b.camp_id, active: false }
    } else {
        b
    }
}

/// All bandits once the camps' fates are known.
pub open spec fn grounded(bandits: Seq<BanditStatus>, camps: Seq<CampStatus>) -> Seq<BanditStatus> {
    bandits.map_values(|b: BanditStatus| bandit_after(b, camps))
}

/// Ids of the camps that starve, in camp order.
pub open spec fn starved_ids(camps: Seq<CampStatus>, starvation_ticks: u32) -> Seq<u32>
    decreases camps.len(),
{
    if camps.len() == 0 {
        Seq::empty()
    } else {
        let rest = starved_ids(camps.drop_last(), starvation_ticks);
        if starved(camps.last(), starvation_ticks) {
            rest.push(camps.last().id)
        } else {
            rest
        }
    }
}

/// Number of camps to spawn so that `alive` living camps reach `target`.
pub open spec fn respawn_quota(alive: nat, target: u32) -> nat {
    if alive < target {
        (target - alive) as nat
    } else {
        0
    }
}

/// How a merchant's group stands against an attack.
#[derive(Debug, Clone, Copy, PartialEq, Eq, Structural)]
pub enum CaravanDefence {
    /// The group is large enough that bandits never attack it.
    Immune,
    /// The group may repel the attack on a roll.
    MayRepel,
    /// The group has no protection.
    Exposed,
}

/// The defence of a group of `group_size` merchants.
pub open spec fn defence_of(group_size: u32) -> CaravanDefence {
    if group_size >= CARAVAN_IMMUNE_SIZE {
        CaravanDefence::Immune
    } else if group_size >= CARAVAN_REPEL_SIZE {
        CaravanDefence::MayRepel
    } else {
        CaravanDefence::Exposed
    }
}

/// Classify a group by size: groups of four or more are immune, groups of
/// three may repel an attack, smaller groups are exposed.
pub fn caravan_defence(group_size: u32) -> (d: CaravanDefence)
    ensures
        d == defence_of(group_size),
{
    if group_size >= CARAVAN_IMMUNE_SIZE {
        CaravanDefence::Immune
    } else if group_size >= CARAVAN_REPEL_SIZE {
        CaravanDefence::MayRepel
    } else {
        CaravanDefence::Exposed
    }
}

/// After the starvation check no living camp has reached the threshold, no
/// dead camp comes back, and a camp below the threshold keeps its state.
pub proof fn lemma_no_starved_camp_survives(camps: Seq<CampStatus>, starvation_ticks: u32)
    ensures
        after_starvation(camps, starvation_ticks).len() == camps.len(),
        forall|i: int|
            0 <= i < camps.len() ==> {
                let c = #[trigger] after_starvation(camps, starvation_ticks)[i];
                &&& c.alive ==> c.ticks_since_last_robbery < starvation_ticks
                &&& !camps[i].alive ==> !c.alive
                &&& !starved(camps[i], starvation_ticks) ==> c == camps[i]
            },
{
}

/// Once the camps' fates are known, every bandit left active belongs to a
/// living camp, and no grounded bandit becomes active again.
pub proof fn lemma_active_bandits_have_live_camps(bandits: Seq<BanditStatus>, camps: Seq<CampStatus>)
    requires
        forall|j: int| 0 <= j < bandits.len() ==> #[trigger] bandits[j].camp_id < camps.len(),
    ensures
        forall|j: int|
            0 <= j < bandits.len() ==> {
                let b = #[trigger] grounded(bandits, camps)[j];
                &&& b.camp_id == bandits[j].camp_id
                &&& b.active ==> camps[b.camp_id as int].alive
                &&& b.active ==> bandits[j].active
            },
{
}

proof fn lemma_alive_count_concat(a: Seq<CampStatus>, b: Seq<CampStatus>)
    ensures
        alive_count(a + b) == alive_count(a) + alive_count(b),
    decreases b.len(),
{
    if b.len() == 0 {
        assert(a + b =~= a);
    } else {
        lemma_alive_count_concat(a, b.drop_last());
        assert((a + b).drop_last() =~= a + b.drop_last());
    }
}

proof fn lemma_alive_count_all_alive(b: Seq<CampStatus>)
    requires
        forall|k: int| 0 <= k < b.len() ==> (#[trigger] b[k]).alive,
    ensures
        alive_count(b) == b.len(),
    decreases b.len(),
{
    if b.len() > 0 {
        lemma_alive_count_all_alive(b.drop_last());
    }
}

/// Spawning the respawn quota of fresh living camps after the starvation
/// check brings the number of living camps to the target, or leaves it
/// where it is when it was already at or above the target.
pub proof fn lemma_respawn_restores_target(
    camps: Seq<CampStatus>,
    starvation_ticks: u32,
    target: u32,
    fresh: Seq<CampStatus>,
)
    requires
        fresh.len() == respawn_quota(alive_count(after_starvation(camps, starvation_ticks)), target),
        forall|k: int| 0 <= k < fresh.len() ==> (#[trigger] fresh[k]).alive,
    ensures
        ({
            let survivors = alive_count(after_starvation(camps, starvation_ticks));
            alive_count(after_starvation(camps, starvation_ticks) + fresh) == if survivors < target {
                target as nat
            } else {
                survivors
            }
        }),
{
    lemma_alive_count_concat(after_starvation(camps, starvation_ticks), fresh);
    lemma_alive_count_all_alive(fresh);
}

proof fn lemma_alive_count_bounded(camps: Seq<CampStatus>)
    ensures
        alive_count(camps) <= camps.len(),
    decreases camps.len(),
{
    if camps.len() > 0 {
        lemma_alive_count_bounded(camps.drop_last());
    }
}

proof fn lemma_active_count_bounded(bandits: Seq<BanditStatus>)
    ensures
        active_count(bandits) <= bandits.len(),
    decreases bandits.len(),
{
    if bandits.len() > 0 {
        lemma_active_count_bounded(bandits.drop_last());
    }
}

impl BanditLedger {
    /// Well-formedness: camp ids are their positions, every bandit belongs
    /// to an existing camp, and both counts fit in `u32`.
    pub open spec fn wf(&self) -> bool {
        &&& self@.camps.len() <= u32::MAX
        &&& self@.bandits.len() <= u32::MAX
        &&& forall|i: int| 0 <= i < self@.camps.len() ==> #[trigger] self@.camps[i].id == i
        &&& forall|j: int|
            0 <= j < self@.bandits.len() ==> #[trigger] self@.bandits[j].camp_id < self@.camps.len()
    }

    /// A ledger with no camps and no bandits.
    pub fn new() -> (l: Self)
        ensures
            l.wf(),
            l@.camps.len() == 0,
            l@.bandits.len() == 0,
    {
        BanditLedger { camps: Vec::new(), bandits: Vec::new() }
    }

    /// All camps, in creation order.
    pub fn camps(&self) -> (c: &[CampStatus])
        ensures
            c@ == self@.camps,
    {
        self.camps.as_slice()
    }

    /// All bandits, in creation order.
    pub fn bandits(&self) -> (b: &[BanditStatus])
        ensures
            b@ == self@.bandits,
    {
        self.bandits.as_slice()
    }

    /// Add a living camp with `agent_count` active bandits. Its id is the
    /// number of camps created before it.
    pub fn register_camp(&mut self, agent_count: u32) -> (id: BanditCampId)
        requires
            old(self).wf(),
            old(self)@.camps.len() < u32::MAX,
            old(self)@.bandits.len() + agent_count <= u32::MAX,
        ensures
            final(self).wf(),
            id == old(self)@.camps.len(),
            final(self)@.camps == old(self)@.camps.push(
                CampStatus { id, agent_count, ticks_since_last_robbery: 0, alive: true },
            ),
            final(self)@.bandits == old(self)@.bandits + Seq::new(
                agent_count as nat,
                |k: int| BanditStatus { camp_id: id, active: true },
            ),
    {
        let id = self.camps.len() as u32;
        self.camps.push(CampStatus { id, agent_count, ticks_since_last_robbery: 0, alive: true });
        let ghost old_bandits = self.bandits@;
        let ghost camps_after = self.camps@;
        let mut k: u32 = 0;
        while k < agent_count
            invariant
                0 <= k <= agent_count,
                self.camps@ == camps_after,
                self.bandits@ == old_bandits + Seq::new(
                    k as nat,
                    |i: int| BanditStatus { camp_id: id, active: true },
                ),
                old_bandits.len() + agent_count <= u32::MAX,
            decreases agent_count - k,
        {
            self.bandits.push(BanditStatus { camp_id: id, active: true });
            k += 1;
            assert(self.bandits@ =~= old_bandits + Seq::new(
                k as nat,
                |i: int| BanditStatus { camp_id: id, active: true },
            ));
        }
        proof {
            let fresh = Seq::new(agent_count as nat, |i: int| BanditStatus { camp_id: id, active: true });
            assert forall|j: int| 0 <= j < self@.bandits.len() implies #[trigger] self@.bandits[j].camp_id
                < self@.camps.len() by {
                if j >= old_bandits.len() {
                    assert(self@.bandits[j] == fresh[j - old_bandits.len()]);
                }
            }
        }
        id
    }

    /// Ground the bandit at `index` (defeated in combat).
    pub fn deactivate_bandit(&mut self, index: usize)
        requires
            old(self).wf(),
            index < old(self)@.bandits.len(),
        ensures
            final(self).wf(),
            final(self)@.camps == old(self)@.camps,
            final(self)@.bandits == old(self)@.bandits.update(
                index as int,
                BanditStatus { camp_id: old(self)@.bandits[index as int].camp_id, active: false },
            ),
    {
        let camp_id = self.bandits[index].camp_id;
        self.bandits.set(index, BanditStatus { camp_id, active: false });
    }

    /// Update the starvation counters after a tick in which the camps listed
    /// in `robbed` committed a robbery.
    pub fn record_robberies(&mut self, robbed: &[BanditCampId])
        requires
            old(self).wf(),
            forall|i: int|
                0 <= i < old(self)@.camps.len() && (#[trigger] old(self)@.camps[i]).alive
                    && !robbed@.contains(old(self)@.camps[i].id)
                    ==> old(self)@.camps[i].ticks_since_last_robbery < u32::MAX,
        ensures
            final(self).wf(),
            final(self)@.bandits == old(self)@.bandits,
            final(self)@.camps == old(self)@.camps.map_values(
                |c: CampStatus| camp_after_robberies(c, robbed@),
            ),
    {
        let ghost old_camps = self.camps@;
        let mut updated: Vec<CampStatus> = Vec::new();
        let mut i: usize = 0;
        while i < self.camps.len()
            invariant
                i <= self.camps.len(),
                self.camps@ == old_camps,
                updated@ == old_camps.take(i as int).map_values(
                    |c: CampStatus| camp_after_robberies(c, robbed@),
                ),
                forall|k: int|
                    0 <= k < old_camps.len() && (#[trigger] old_camps[k]).alive
                        && !robbed@.contains(old_camps[k].id)
                        ==> old_camps[k].ticks_since_last_robbery < u32::MAX,
            decreases self.camps.len() - i,
        {
            let c = self.camps[i];
            let next = if !c.alive {
                c
            } else if contains_id(robbed, c.id) {
                CampStatus { id: c.id, agent_count: c.agent_count, ticks_since_last_robbery: 0, alive: true }
            } else {
                CampStatus {
                    id: c.id,
                    agent_count: c.agent_count,
                    ticks_since_last_robbery: c.ticks_since_last_robbery + 1,
                    alive: true,
                }
            };
            updated.push(next);
            i += 1;
            assert(updated@ =~= old_camps.take(i as int).map_values(
                |c: CampStatus| camp_after_robberies(c, robbed@),
            ));
        }
        assert(old_camps.take(old_camps.len() as int) =~= old_camps);
        self.camps = updated;
    }

    /// Destroy every starved camp, ground the bandits of dead camps, and
    /// return the ids of the camps destroyed now together with the number of
    /// camps to spawn to bring the living ones back to `num_camps`.
    pub fn tick_lifecycle(&mut self, starvation_ticks: u32, num_camps: u32) -> (r: (Vec<BanditCampId>, u32))
        requires
            old(self).wf(),
        ensures
            final(self).wf(),
            final(self)@.camps == after_starvation(old(self)@.camps, starvation_ticks),
            final(self)@.bandits == grounded(old(self)@.bandits, final(self)@.camps),
            r.0@ == starved_ids(old(self)@.camps, starvation_ticks),
            r.1 == respawn_quota(alive_count(final(self)@.camps), num_camps),
    {
        let ghost old_camps = self.camps@;
        let mut camps: Vec<CampStatus> = Vec::new();
        let mut destroyed: Vec<BanditCampId> = Vec::new();
        let mut alive: u32 = 0;
        let mut i: usize = 0;
        while i < self.camps.len()
            invariant
                i <= self.camps.len(),
                self.camps@ == old_camps,
                old_camps.len() <= u32::MAX,
                forall|k: int| 0 <= k < old_camps.len() ==> #[trigger] old_camps[k].id == k,
                camps@ == after_starvation(old_camps.take(i as int), starvation_ticks),
                destroyed@ == starved_ids(old_camps.take(i as int), starvation_ticks),
                alive == alive_count(camps@),
            decreases self.camps.len() - i,
        {
            let c = self.camps[i];
            let next = if c.alive && c.ticks_since_last_robbery >= starvation_ticks {
                destroyed.push(c.id);
                CampStatus {
                    id: c.id,
                    agent_count: c.agent_count,
                    ticks_since_last_robbery: c.ticks_since_last_robbery,
                    alive: false,
                }
            } else {
                c
            };
            proof {
                lemma_alive_count_bounded(camps@);
            }
            let ghost before = camps@;
            camps.push(next);
            if next.alive {
                alive = alive + 1;
            }
            i += 1;
            proof {
                let t = old_camps.take(i as int);
                assert(t.drop_last() =~= old_camps.take(i - 1));
                assert(camps@.drop_last() =~= before);
                assert(camps@ =~= after_starvation(t, starvation_ticks));
            }
        }
        assert(old_camps.take(old_camps.len() as int) =~= old_camps);
        self.camps = camps;

        let ghost old_bandits = self.bandits@;
        let mut bandits: Vec<BanditStatus> = Vec::new();
        let mut j: usize = 0;
        while j < self.bandits.len()
            invariant
                j <= self.bandits.len(),
                self.bandits@ == old_bandits,
                self.camps@ == after_starvation(old_camps, starvation_ticks),
                self.camps@.len() == old_camps.len(),
                forall|k: int| 0 <= k < old_bandits.len() ==> #[trigger] old_bandits[k].camp_id < old_camps.len(),
                bandits@ == grounded(old_bandits.take(j as int), self.camps@),
            decreases self.bandits.len() - j,
        {
            let b = self.bandits[j];
            let camp_alive = self.camps[b.camp_id as usize].alive;
            let next = if b.active && !camp_alive {
                BanditStatus { camp_id: b.camp_id, active: false }
            } else {
                b
            };
            bandits.push(next);
            j += 1;
            assert(bandits@ =~= grounded(old_bandits.take(j as int), self.camps@));
        }
        assert(old_bandits.take(old_bandits.len() as int) =~= old_bandits);
        self.bandits = bandits;

        let needed = if alive < num_camps {
            num_camps - alive
        } else {
            0
        };
        (destroyed, needed)
    }

    /// Number of living camps.
    pub fn active_camp_count(&self) -> (n: u32)
        requires
            self.wf(),
        ensures
            n == alive_count(self@.camps),
    {
        let mut n: u32 = 0;
        let mut i: usize = 0;
        while i < self.camps.len()
            invariant
                i <= self.camps.len(),
                self.camps@.len() <= u32::MAX,
                n == alive_count(self.camps@.take(i as int)),
            decreases self.camps.len() - i,
        {
            proof {
                lemma_alive_count_bounded(self.camps@.take(i as int));
            }
            if self.camps[i].alive {
                n = n + 1;
            }
            i += 1;
            assert(self.camps@.take(i as int).drop_last() =~= self.camps@.take(i - 1));
        }
        assert(self.camps@.take(self.camps@.len() as int) =~= self.camps@);
        n
    }

    /// Number of active bandits.
    pub fn active_bandit_count(&self) -> (n: u32)
        requires
            self.wf(),
        ensures
            n == active_count(self@.bandits),
    {
        let mut n: u32 = 0;
        let mut i: usize = 0;
        while i < self.bandits.len()
            invariant
                i <= self.bandits.len(),
                self.bandits@.len() <= u32::MAX,
                n == active_count(self.bandits@.take(i as int)),
            decreases self.bandits.len() - i,
        {
            proof {
                lemma_active_count_bounded(self.bandits@.take(i as int));
            }
            if self.bandits[i].active {
                n = n + 1;
            }
            i += 1;
            assert(self.bandits@.take(i as int).drop_last() =~= self.bandits@.take(i - 1));
        }
        assert(self.bandits@.take(self.bandits@.len() as int) =~= self.bandits@);
        n
    }
}

} // verus!
