//! Caravan bookkeeping: which merchants travel together, who leads, which
//! soldiers escort them, and when a group is formed or dissolved.
//!
//! Geometric judgements (distances, headings, city radii) are made by the
//! caller and handed in as plain booleans; this module decides membership.
use vstd::prelude::*;
use vstd::multiset::Multiset;

verus! {

broadcast use vstd::seq_lib::group_seq_properties;

// ── Types ────────────────────────────────────────────────────────────────────

/// A group of merchants traveling together.
#[derive(Debug, Clone)]
pub struct Caravan {
    pub id: u32,
    pub member_ids: Vec<u32>,
    pub leader_id: u32,
    pub escort_ids: Vec<u32>,
}

/// Mathematical value of a caravan.
pub ghost struct CaravanModel {
    pub id: u32,
    pub members: Seq<u32>,
    pub leader: u32,
    pub escorts: Seq<u32>,
}

impl Caravan {
    /// The caravan as a mathematical value.
    pub open spec fn model(&self) -> CaravanModel {
        CaravanModel {
            id: self.id,
            members: self.member_ids@,
            leader: self.leader_id,
            escorts: self.escort_ids@,
        }
    }
}

/// Identity and caravan status of a merchant, as seen by formation.
#[derive(Debug, Clone, Copy)]
pub struct CaravanCandidate {
    pub id: u32,
    pub caravan_id: Option<u32>,
}

/// Event: a new caravan was formed.
pub struct FormationEvent {
    pub caravan_id: u32,
    pub member_ids: Vec<u32>,
    pub leader_id: u32,
}

/// Event: a caravan dissolved.
pub struct DissolutionEvent {
    pub caravan_id: u32,
    pub member_ids: Vec<u32>,
}

/// A protection fee owed by a caravan member to an escorting soldier.
#[derive(Debug, Clone, Copy)]
pub struct EscortFee {
    pub merchant_id: u32,
    pub soldier_id: u32,
}

/// Mathematical state of the caravan system.
pub ghost struct CaravanLedger {
    pub caravans: Seq<CaravanModel>,
    pub next_id: u32,
}

/// All active caravans plus the next caravan id to hand out.
pub struct CaravanSystem {
    caravans: Vec<Caravan>,
    next_id: u32,
}

impl View for CaravanSystem {
    type V = CaravanLedger;

    closed spec fn view(&self) -> CaravanLedger {
        CaravanLedger {
            caravans: self.caravans@.map_values(|c: Caravan| c.model()),
            next_id: self.next_id,
        }
    }
}

/// A well-formed caravan: at least three members, led by its first member,
/// no merchant listed twice, and no soldier escorting it twice.
pub open spec fn caravan_wf(c: CaravanModel) -> bool {
    &&& c.members.len() >= 3
    &&& c.members[0] == c.leader
    &&& c.members.no_duplicates()
    &&& c.escorts.no_duplicates()
}

/// No two candidates share an id.
pub open spec fn distinct_candidate_ids(cands: Seq<CaravanCandidate>) -> bool {
    forall|a: int, b: int| 0 <= a < b < cands.len() ==> cands[a].id != cands[b].id
}

// ── Formation specification ─────────────────────────────────────────────────

/// Ids of the candidates that already belong to a caravan.
pub open spec fn already_assigned(cands: Seq<CaravanCandidate>) -> Set<u32> {
    Set::new(|id: u32| exists|j: int| 0 <= j < cands.len() && cands[j].id == id && cands[j].caravan_id is Some)
}

/// Recruits of `leader` among the first `n` candidates: every candidate, in
/// order, that is not the leader, not yet assigned, and compatible with the
/// leader (close enough and heading the same way).
pub open spec fn recruits_upto(
    cands: Seq<CaravanCandidate>,
    row: Seq<bool>,
    leader: u32,
    assigned: Set<u32>,
    n: nat,
) -> Seq<u32>
    decreases n,
{
    if n == 0 {
        Seq::empty()
    } else {
        let prev = recruits_upto(cands, row, leader, assigned, (n - 1) as nat);
        let c = cands[n - 1];
        if c.id != leader && !assigned.contains(c.id) && row[n - 1] {
            prev.push(c.id)
        } else {
            prev
        }
    }
}

/// Outcome of considering the first `k` initiators in turn: the set of
/// assigned merchant ids and the member lists of the caravans formed, each
/// led by its first member.
pub open spec fn formation_after(
    cands: Seq<CaravanCandidate>,
    initiators: Seq<usize>,
    compatible: Seq<Seq<bool>>,
    k: nat,
) -> (Set<u32>, Seq<Seq<u32>>)
    decreases k,
{
    if k == 0 {
        (already_assigned(cands), Seq::empty())
    } else {
        let prev = formation_after(cands, initiators, compatible, (k - 1) as nat);
        let assigned = prev.0;
        let groups = prev.1;
        let i = initiators[k - 1] as int;
        let leader = cands[i].id;
        if assigned.contains(leader) {
            prev
        } else {
            let recruits = recruits_upto(cands, compatible[i], leader, assigned, cands.len());
            if recruits.len() < 2 {
                prev
            } else {
                let members = seq![leader] + recruits;
                (assigned.union(members.to_set()), groups.push(members))
            }
        }
    }
}

/// Member lists of all caravans formed from the given initiator order.
pub open spec fn formed_groups(
    cands: Seq<CaravanCandidate>,
    initiators: Seq<usize>,
    compatible: Seq<Seq<bool>>,
) -> Seq<Seq<u32>> {
    formation_after(cands, initiators, compatible, initiators.len()).1
}

/// The caravan created for the `k`-th formed group.
pub open spec fn formed_caravan(first_id: u32, k: int, members: Seq<u32>) -> CaravanModel {
    CaravanModel { id: (first_id + k) as u32, members: members, leader: members[0], escorts: Seq::empty() }
}

/// Shape requirements tying the initiator order and compatibility matrix
/// to the candidate list.
pub open spec fn formation_inputs_ok(
    cands: Seq<CaravanCandidate>,
    initiators: Seq<usize>,
    compatible: Seq<Seq<bool>>,
) -> bool {
    &&& forall|k: int| 0 <= k < initiators.len() ==> (#[trigger] initiators[k]) < cands.len()
    &&& compatible.len() == cands.len()
    &&& forall|i: int| 0 <= i < compatible.len() ==> (#[trigger] compatible[i]).len() == cands.len()
}

// ── Dissolution and escort specification ────────────────────────────────────

/// Removes the flagged positions of `s`, visiting the flags from the last
/// position down to position `n`, each removal moving the current last
/// element into the freed slot.
pub open spec fn swap_remove_flagged<T>(s: Seq<T>, flags: Seq<bool>, n: nat) -> Seq<T>
    decreases flags.len() - n,
{
    if n >= flags.len() {
        s
    } else {
        let rest = swap_remove_flagged(s, flags, n + 1);
        if flags[n as int] {
            rest.update(n as int, rest.last()).drop_last()
        } else {
            rest
        }
    }
}

/// Soldiers (in soldier order, without repeats) flagged as in range of the caravan.
pub open spec fn escorts_upto(soldier_ids: Seq<u32>, in_range: Seq<bool>, n: nat) -> Seq<u32>
    decreases n,
{
    if n == 0 {
        Seq::empty()
    } else {
        let prev = escorts_upto(soldier_ids, in_range, (n - 1) as nat);
        if in_range[n - 1] && !prev.contains(soldier_ids[n - 1]) {
            prev.push(soldier_ids[n - 1])
        } else {
            prev
        }
    }
}

/// Members of a caravan that are present among the candidate ids, in member order.
pub open spec fn present_members(members: Seq<u32>, present: Seq<u32>) -> Seq<u32> {
    members.filter(|m: u32| present.contains(m))
}

/// One fee per (present member, escort) pair, members outermost.
pub open spec fn fees_for(members: Seq<u32>, escorts: Seq<u32>) -> Seq<(u32, u32)>
    decreases members.len(),
{
    if members.len() == 0 {
        Seq::empty()
    } else {
        fees_for(members.drop_last(), escorts) + escorts.map_values(|s: u32| (members.last(), s))
    }
}

/// Fees of caravans `0..n`, concatenated in caravan order.
pub open spec fn all_fees_upto(
    caravans: Seq<CaravanModel>,
    present: Seq<u32>,
    soldier_ids: Seq<u32>,
    in_range: Seq<Seq<bool>>,
    n: nat,
) -> Seq<(u32, u32)>
    decreases n,
{
    if n == 0 {
        Seq::empty()
    } else {
        let k = n - 1;
        all_fees_upto(caravans, present, soldier_ids, in_range, (n - 1) as nat) + fees_for(
            present_members(caravans[k].members, present),
            escorts_upto(soldier_ids, in_range[k], soldier_ids.len()),
        )
    }
}

/// The caravan `c` with its escort list replaced by `escorts`.
pub open spec fn with_escorts(c: CaravanModel, escorts: Seq<u32>) -> CaravanModel {
    CaravanModel { escorts: escorts, ..c }
}

/// First position of a caravan satisfying `p`, if any.
pub open spec fn first_index(cs: Seq<CaravanModel>, p: spec_fn(CaravanModel) -> bool) -> Option<int> {
    if exists|i: int| 0 <= i < cs.len() && p(cs[i]) {
        Some(choose|i: int| 0 <= i < cs.len() && p(cs[i]) && forall|j: int| 0 <= j < i ==> !p(cs[j]))
    } else {
        None
    }
}

// ── Helpers ──────────────────────────────────────────────────────────────────

fn copy_ids(ids: &Vec<u32>) -> (out: Vec<u32>)
    ensures
        out@ == ids@,
{
    let mut out: Vec<u32> = Vec::new();
    let mut i: usize = 0;
    while i < ids.len()
        invariant
            i <= ids.len(),
            out@ == ids@.subrange(0, i as int),
        decreases ids.len() - i,
    {
        out.push(ids[i]);
        i += 1;
    }
    assert(ids@.subrange(0, ids@.len() as int) == ids@);
    out
}

// ── CaravanSystem ────────────────────────────────────────────────────────────

impl CaravanSystem {
    /// The invariant of the system: every caravan is well formed, caravan
    /// ids are pairwise distinct, and every id is below the next id to hand
    /// out, so new caravans never reuse one.
    pub open spec fn wf(&self) -> bool {
        &&& forall|i: int|
            0 <= i < self@.caravans.len() ==> caravan_wf(#[trigger] self@.caravans[i]) && self@.caravans[i].id
                < self@.next_id
        &&& forall|i: int, j: int|
            0 <= i < j < self@.caravans.len() ==> #[trigger] self@.caravans[i].id != #[trigger] self@.caravans[j].id
    }

    /// An empty system whose first caravan will get id 0.
    pub fn new() -> (s: Self)
        ensures
            s.wf(),
            s@.caravans == Seq::<CaravanModel>::empty(),
            s@.next_id == 0,
    {
        CaravanSystem { caravans: Vec::new(), next_id: 0 }
    }

    /// Add an existing, well-formed caravan whose id no caravan of the
    /// system carries. The id counter moves past the new id, so later
    /// caravans get fresh ids.
    pub fn insert_caravan(&mut self, caravan: Caravan)
        requires
            old(self).wf(),
            caravan_wf(caravan.model()),
            caravan.id < u32::MAX,
            forall|i: int| 0 <= i < old(self)@.caravans.len() ==> (#[trigger] old(self)@.caravans[i]).id != caravan.id,
        ensures
            final(self).wf(),
            final(self)@.caravans == old(self)@.caravans.push(caravan.model()),
            final(self)@.next_id == if caravan.id < old(self)@.next_id {
                old(self)@.next_id
            } else {
                (caravan.id + 1) as u32
            },
    {
        if caravan.id >= self.next_id {
            self.next_id = caravan.id + 1;
        }
        let ghost m = caravan.model();
        self.caravans.push(caravan);
        proof {
            assert(self.caravans@.map_values(|c: Caravan| c.model()) =~= old(self).caravans@.map_values(
                |c: Caravan| c.model(),
            ).push(m));
            assert forall|i: int, j: int| 0 <= i < j < self@.caravans.len() implies #[trigger] self@.caravans[i].id
                != #[trigger] self@.caravans[j].id by {
                if j == self@.caravans.len() - 1 {
                    assert(self@.caravans[i] == old(self)@.caravans[i]);
                } else {
                    assert(self@.caravans[i] == old(self)@.caravans[i]);
                    assert(self@.caravans[j] == old(self)@.caravans[j]);
                }
            }
            assert forall|i: int| 0 <= i < self@.caravans.len() implies caravan_wf(#[trigger] self@.caravans[i])
                && self@.caravans[i].id < self@.next_id by {
                if i < old(self)@.caravans.len() {
                    assert(self@.caravans[i] == old(self)@.caravans[i]);
                }
            }
        }
    }

    /// Attempt to form new caravans from unattached merchants.
    ///
    /// `initiators` lists candidate positions in the order in which they may
    /// try to lead (most sociable first); `compatible[i][j]` says whether
    /// candidate `j` is near candidate `i` and heading the same way. An
    /// initiator that is still unassigned recruits every unassigned,
    /// compatible candidate other than itself; with at least two recruits a
    /// caravan is formed, led by the initiator, and all members become
    /// assigned. Candidates already in a caravan are never recruited.
    pub fn try_form_caravan(
        &mut self,
        candidates: &[CaravanCandidate],
        initiators: &[usize],
        compatible: &[Vec<bool>],
    ) -> (events: Vec<FormationEvent>)
        requires
            formation_inputs_ok(
                candidates@,
                initiators@,
                compatible@.map_values(|r: Vec<bool>| r@),
            ),
            old(self)@.next_id + formed_groups(
                candidates@,
                initiators@,
                compatible@.map_values(|r: Vec<bool>| r@),
            ).len() <= u32::MAX,
        ensures
            ({
                let groups = formed_groups(
                    candidates@,
                    initiators@,
                    compatible@.map_values(|r: Vec<bool>| r@),
                );
                &&& events@.len() == groups.len()
                &&& forall|k: int|
                    0 <= k < groups.len() ==> {
                        &&& (#[trigger] events@[k]).caravan_id == old(self)@.next_id + k
                        &&& events@[k].member_ids@ == groups[k]
                        &&& events@[k].leader_id == groups[k][0]
                    }
                &&& final(self)@.next_id == old(self)@.next_id + groups.len()
                &&& final(self)@.caravans == old(self)@.caravans + Seq::new(
                    groups.len(),
                    |k: int| formed_caravan(old(self)@.next_id, k, groups[k]),
                )
            }),
            final(self)@.caravans.len() == old(self)@.caravans.len() + events@.len(),
            old(self).wf() ==> forall|k: int, i: int|
                0 <= k < events@.len() && 0 <= i < old(self)@.caravans.len() ==> (#[trigger] events@[k]).caravan_id
                    != (#[trigger] old(self)@.caravans[i]).id,
            old(self).wf() && distinct_candidate_ids(candidates@) ==> final(self).wf(),
    {
        let ghost cands = candidates@;
        let ghost inits = initiators@;
        let ghost compat = compatible@.map_values(|r: Vec<bool>| r@);
        let ghost old_caravans = self@.caravans;
        let ghost first_id = self.next_id;

        let mut events: Vec<FormationEvent> = Vec::new();
        let mut assigned: Vec<u32> = Vec::new();

        // Mark merchants already in caravans.
        let mut c: usize = 0;
        while c < candidates.len()
            invariant
                c <= candidates.len(),
                cands == candidates@,
                forall|id: u32|
                    assigned@.contains(id) <==> exists|j: int|
                        0 <= j < c && cands[j].id == id && cands[j].caravan_id is Some,
            decreases candidates.len() - c,
        {
            if candidates[c].caravan_id.is_some() {
                assigned.push(candidates[c].id);
            }
            proof {
                assert forall|id: u32|
                    assigned@.contains(id) <==> exists|j: int|
                        0 <= j < c + 1 && cands[j].id == id && cands[j].caravan_id is Some by {
                    if exists|j: int| 0 <= j < c + 1 && cands[j].id == id && cands[j].caravan_id is Some {
                        let j = choose|j: int| 0 <= j < c + 1 && cands[j].id == id && cands[j].caravan_id is Some;
                        if j < c {
                            assert(exists|j: int| 0 <= j < c && cands[j].id == id && cands[j].caravan_id is Some);
                        }
                    }
                }
            }
            c += 1;
        }
        assert(forall|id: u32| assigned@.contains(id) <==> already_assigned(cands).contains(id));

        let mut k: usize = 0;
        while k < initiators.len()
            invariant
                k <= initiators.len(),
                cands == candidates@,
                inits == initiators@,
                compat == compatible@.map_values(|r: Vec<bool>| r@),
                formation_inputs_ok(cands, inits, compat),
                first_id + formed_groups(cands, inits, compat).len() <= u32::MAX,
                ({
                    let st = formation_after(cands, inits, compat, k as nat);
                    &&& forall|id: u32| assigned@.contains(id) <==> st.0.contains(id)
                    &&& events@.len() == st.1.len()
                    &&& forall|q: int|
                        0 <= q < st.1.len() ==> {
                            &&& (#[trigger] events@[q]).caravan_id == first_id + q
                            &&& events@[q].member_ids@ == st.1[q]
                            &&& events@[q].leader_id == st.1[q][0]
                        }
                    &&& self.next_id == first_id + st.1.len()
                    &&& self@.caravans == old_caravans + Seq::new(
                        st.1.len(),
                        |q: int| formed_caravan(first_id, q, st.1[q]),
                    )
                }),
            decreases initiators.len() - k,
        {
            proof {
                lemma_formation_count_monotone(cands, inits, compat, (k + 1) as nat, inits.len());
            }
            let i = initiators[k];
            let leader = candidates[i].id;
            let ghost st = formation_after(cands, inits, compat, k as nat);
            if !contains_id(assigned.as_slice(), leader) {
                let mut recruits: Vec<u32> = Vec::new();
                let mut j: usize = 0;
                while j < candidates.len()
                    invariant
                        j <= candidates.len(),
                        i < candidates.len(),
                        cands == candidates@,
                        compat == compatible@.map_values(|r: Vec<bool>| r@),
                        formation_inputs_ok(cands, inits, compat),
                        forall|id: u32| assigned@.contains(id) <==> st.0.contains(id),
                        recruits@ == recruits_upto(cands, compat[i as int], leader, st.0, j as nat),
                    decreases candidates.len() - j,
                {
                    let other = candidates[j].id;
                    assert(compat[i as int] == compatible@[i as int]@);
                    if other != leader && !contains_id(assigned.as_slice(), other) && compatible[i][j] {
                        recruits.push(other);
                    }
                    j += 1;
                }
                if recruits.len() >= 2 {
                    let ghost members_spec = seq![leader] + recruits@;
                    let caravan_id = self.next_id;
                    self.next_id = self.next_id + 1;

                    let mut member_ids: Vec<u32> = Vec::new();
                    member_ids.push(leader);
                    let mut r: usize = 0;
                    while r < recruits.len()
                        invariant
                            r <= recruits.len(),
                            member_ids@ == seq![leader] + recruits@.subrange(0, r as int),
                        decreases recruits.len() - r,
                    {
                        member_ids.push(recruits[r]);
                        r += 1;
                        assert(member_ids@ == seq![leader] + recruits@.subrange(0, r as int));
                    }
                    assert(recruits@.subrange(0, recruits@.len() as int) == recruits@);
                    assert(member_ids@ == members_spec);

                    let mut a: usize = 0;
                    let ghost before = assigned@;
                    while a < member_ids.len()
                        invariant
                            a <= member_ids.len(),
                            assigned@ == before + member_ids@.subrange(0, a as int),
                        decreases member_ids.len() - a,
                    {
                        assigned.push(member_ids[a]);
                        assert(member_ids@.subrange(0, a + 1) == member_ids@.subrange(0, a as int).push(
                            member_ids@[a as int],
                        ));
                        a += 1;
                    }
                    assert(member_ids@.subrange(0, member_ids@.len() as int) == member_ids@);

                    let stored = copy_ids(&member_ids);
                    let ghost old_view = self@.caravans;
                    self.caravans.push(Caravan {
                        id: caravan_id,
                        member_ids: stored,
                        leader_id: leader,
                        escort_ids: Vec::new(),
                    });
                    events.push(FormationEvent { caravan_id, member_ids, leader_id: leader });
                    proof {
                        let st2 = formation_after(cands, inits, compat, (k + 1) as nat);
                        assert(st2.1 == st.1.push(members_spec));
                        assert(assigned@ == before + members_spec);
                        assert forall|id: u32| assigned@.contains(id) <==> st2.0.contains(id) by {
                            assert(members_spec.to_set().contains(id) <==> members_spec.contains(id));
                            assert((before + members_spec).contains(id) <==> (before.contains(id)
                                || members_spec.contains(id)));
                        }
                        assert(self@.caravans =~= old_view.push(
                            formed_caravan(first_id, st.1.len() as int, members_spec),
                        ));
                        assert(self@.caravans =~= old_caravans + Seq::new(
                            st2.1.len(),
                            |q: int| formed_caravan(first_id, q, st2.1[q]),
                        ));
                    }
                } else {
                    proof {
                        assert(formation_after(cands, inits, compat, (k + 1) as nat) == st);
                    }
                }
            } else {
                proof {
                    assert(formation_after(cands, inits, compat, (k + 1) as nat) == st);
                }
            }
            k += 1;
        }
        proof {
            let groups = formed_groups(cands, inits, compat);
            assert(formation_after(cands, inits, compat, inits.len()).1 == groups);
            if old(self).wf() && distinct_candidate_ids(cands) {
                lemma_formed_caravans_have_three_members(cands, inits, compat);
                lemma_formed_caravan_members_distinct(cands, inits, compat, inits.len());
                let cs = self@.caravans;
                let n0 = old_caravans.len();
                assert forall|i: int| 0 <= i < cs.len() implies caravan_wf(#[trigger] cs[i]) && cs[i].id
                    < self@.next_id by {
                    if i < n0 {
                        assert(cs[i] == old_caravans[i]);
                    } else {
                        let q = i - n0;
                        assert(cs[i] == formed_caravan(first_id, q, groups[q]));
                        assert(groups[q].len() >= 3);
                        assert(groups[q].no_duplicates());
                    }
                }
                assert forall|i: int, j: int| 0 <= i < j < cs.len() implies #[trigger] cs[i].id != #[trigger] cs[j].id by {
                    if j < n0 {
                        assert(cs[i] == old_caravans[i] && cs[j] == old_caravans[j]);
                    } else if i < n0 {
                        assert(cs[i] == old_caravans[i]);
                        assert(cs[j] == formed_caravan(first_id, j - n0, groups[j - n0]));
                    } else {
                        assert(cs[i] == formed_caravan(first_id, i - n0, groups[i - n0]));
                        assert(cs[j] == formed_caravan(first_id, j - n0, groups[j - n0]));
                    }
                }
            }
        }
        events
    }

    /// Dissolve the caravans whose flag is set.
    ///
    /// `dissolve[i]` says whether caravan `i` has spread too far apart or
    /// reached a city. One event per dissolved caravan is returned in
    /// caravan order; the dissolved caravans are then removed by visiting
    /// them from the last to the first and moving the current last caravan
    /// into each freed slot.
    pub fn check_dissolution(&mut self, dissolve: &[bool]) -> (events: Vec<DissolutionEvent>)
        requires
            dissolve@.len() == old(self)@.caravans.len(),
        ensures
            ({
                let flagged = Seq::new(old(self)@.caravans.len(), |i: int| i).filter(
                    |i: int| dissolve@[i],
                );
                &&& events@.len() == flagged.len()
                &&& forall|q: int|
                    0 <= q < flagged.len() ==> {
                        &&& (#[trigger] events@[q]).caravan_id == old(self)@.caravans[flagged[q]].id
                        &&& events@[q].member_ids@ == old(self)@.caravans[flagged[q]].members
                    }
            }),
            final(self)@.caravans == swap_remove_flagged(old(self)@.caravans, dissolve@, 0),
            final(self)@.caravans.len() == old(self)@.caravans.len() - events@.len(),
            final(self)@.next_id == old(self)@.next_id,
            old(self).wf() ==> final(self).wf(),
    {
        let ghost orig = self@.caravans;
        let ghost idxs = Seq::new(orig.len(), |i: int| i);
        let mut events: Vec<DissolutionEvent> = Vec::new();
        let mut i: usize = 0;
        while i < self.caravans.len()
            invariant
                i <= self.caravans.len(),
                self@.caravans == orig,
                dissolve@.len() == orig.len(),
                idxs == Seq::new(orig.len(), |i: int| i),
                events@.len() + flagged_count(dissolve@, i as nat) == flagged_count(dissolve@, 0),
                ({
                    let flagged = idxs.subrange(0, i as int).filter(|x: int| dissolve@[x]);
                    &&& events@.len() == flagged.len()
                    &&& forall|q: int|
                        0 <= q < flagged.len() ==> {
                            &&& (#[trigger] events@[q]).caravan_id == orig[flagged[q]].id
                            &&& events@[q].member_ids@ == orig[flagged[q]].members
                        }
                }),
            decreases self.caravans.len() - i,
        {
            proof {
                let pre = idxs.subrange(0, i as int);
                assert(idxs.subrange(0, i + 1) == pre.push(i as int));
                reveal_with_fuel(Seq::filter, 1);
                assert(pre.push(i as int).drop_last() == pre);
            }
            if dissolve[i] {
                let ids = copy_ids(&self.caravans[i].member_ids);
                events.push(DissolutionEvent { caravan_id: self.caravans[i].id, member_ids: ids });
            }
            i += 1;
        }
        assert(idxs.subrange(0, orig.len() as int) == idxs);

        // Remove dissolved caravans (last first, so earlier positions stay valid).
        let mut n: usize = self.caravans.len();
        while n > 0
            invariant
                n <= orig.len(),
                dissolve@.len() == orig.len(),
                self@.caravans == swap_remove_flagged(orig, dissolve@, n as nat),
                self@.caravans.len() >= n,
                self.next_id == old(self).next_id,
            decreases n,
        {
            proof {
                lemma_swap_remove_len(orig, dissolve@, (n - 1) as nat);
            }
            n -= 1;
            if dissolve[n] {
                let ghost before = self@.caravans;
                let ghost before_vec = self.caravans@;
                self.caravans.swap_remove(n);
                proof {
                    assert(self.caravans@ == before_vec.update(n as int, before_vec.last()).drop_last());
                    assert(self@.caravans =~= before.update(n as int, before.last()).drop_last());
                }
            }
        }
        proof {
            lemma_dissolution_keeps_unflagged(orig, dissolve@);
            if old(self).wf() {
                lemma_dissolution_keeps_wf(orig, dissolve@, self.next_id);
            }
        }
        events
    }

    /// Attach escort soldiers to every caravan and list the fees they earn.
    ///
    /// `present_ids` are the merchants currently present (a caravan member
    /// that is absent neither counts for range nor pays); `in_range[c][s]`
    /// says whether soldier `s` is within escort range of a present member of
    /// caravan `c`. Each caravan's escorts become the in-range soldiers, in
    /// soldier order without repeats, and every present member owes one fee
    /// to every escort.
    pub fn add_soldier_escort(
        &mut self,
        soldier_ids: &[u32],
        present_ids: &[u32],
        in_range: &[Vec<bool>],
    ) -> (fees: Vec<EscortFee>)
        requires
            in_range@.len() == old(self)@.caravans.len(),
            forall|c: int| 0 <= c < in_range@.len() ==> (#[trigger] in_range@[c])@.len() == soldier_ids@.len(),
        ensures
            final(self)@.next_id == old(self)@.next_id,
            final(self)@.caravans.len() == old(self)@.caravans.len(),
            forall|c: int|
                0 <= c < old(self)@.caravans.len() ==> (#[trigger] final(self)@.caravans[c]) == with_escorts(old(self)@.caravans[c], escorts_upto(soldier_ids@, in_range@[c]@, soldier_ids@.len() as nat)),
            fees@.map_values(|f: EscortFee| (f.merchant_id, f.soldier_id)) == all_fees_upto(
                old(self)@.caravans,
                present_ids@,
                soldier_ids@,
                in_range@.map_values(|r: Vec<bool>| r@),
                old(self)@.caravans.len() as nat,
            ),
            old(self).wf() ==> final(self).wf(),
    {
        let ghost orig = self@.caravans;
        let ghost ranges = in_range@.map_values(|r: Vec<bool>| r@);
        let ghost present = present_ids@;
        let mut fees: Vec<EscortFee> = Vec::new();
        let mut c: usize = 0;
        while c < self.caravans.len()
            invariant
                c <= self.caravans.len(),
                self.caravans.len() == orig.len(),
                in_range@.len() == orig.len(),
                ranges == in_range@.map_values(|r: Vec<bool>| r@),
                present == present_ids@,
                forall|q: int| 0 <= q < in_range@.len() ==> (#[trigger] in_range@[q])@.len() == soldier_ids@.len(),
                self.next_id == old(self).next_id,
                forall|q: int|
                    0 <= q < c ==> (#[trigger] self@.caravans[q]) == with_escorts(orig[q], escorts_upto(soldier_ids@, ranges[q], soldier_ids@.len() as nat)),
                forall|q: int| c <= q < orig.len() ==> (#[trigger] self@.caravans[q]) == orig[q],
                fees@.map_values(|f: EscortFee| (f.merchant_id, f.soldier_id)) == all_fees_upto(
                    orig,
                    present,
                    soldier_ids@,
                    ranges,
                    c as nat,
                ),
            decreases self.caravans.len() - c,
        {
            // Escorts: in-range soldiers, first occurrence only.
            let mut escorts: Vec<u32> = Vec::new();
            let mut s: usize = 0;
            assert(ranges[c as int] == in_range@[c as int]@);
            while s < soldier_ids.len()
                invariant
                    s <= soldier_ids.len(),
                    c < in_range@.len(),
                    in_range@[c as int]@.len() == soldier_ids@.len(),
                    ranges[c as int] == in_range@[c as int]@,
                    escorts@ == escorts_upto(soldier_ids@, ranges[c as int], s as nat),
                decreases soldier_ids.len() - s,
            {
                if in_range[c][s] && !contains_id(escorts.as_slice(), soldier_ids[s]) {
                    escorts.push(soldier_ids[s]);
                }
                s += 1;
            }

            // Present members, in member order.
            let ghost members = orig[c as int].members;
            let mut present_list: Vec<u32> = Vec::new();
            let mut m: usize = 0;
            assert(self@.caravans[c as int] == self.caravans@[c as int].model());
            assert(self.caravans@[c as int].member_ids@ == members);
            while m < self.caravans[c].member_ids.len()
                invariant
                    c < self.caravans.len(),
                    self.caravans@[c as int].member_ids@ == members,
                    m <= members.len(),
                    present == present_ids@,
                    present_list@ == members.subrange(0, m as int).filter(|x: u32| present.contains(x)),
                decreases members.len() - m,
            {
                let mid = self.caravans[c].member_ids[m];
                proof {
                    reveal_with_fuel(Seq::filter, 1);
                    assert(members.subrange(0, m + 1).drop_last() == members.subrange(0, m as int));
                }
                if contains_id(present_ids, mid) {
                    present_list.push(mid);
                }
                m += 1;
            }
            assert(members.subrange(0, members.len() as int) == members);

            // Each present member pays each escort.
            let ghost fees_before = fees@.map_values(|f: EscortFee| (f.merchant_id, f.soldier_id));
            let mut p: usize = 0;
            while p < present_list.len()
                invariant
                    p <= present_list.len(),
                    fees@.map_values(|f: EscortFee| (f.merchant_id, f.soldier_id)) == fees_before
                        + fees_for(present_list@.subrange(0, p as int), escorts@),
                decreases present_list.len() - p,
            {
                let ghost mid_fees = fees@.map_values(|f: EscortFee| (f.merchant_id, f.soldier_id));
                let mut e: usize = 0;
                while e < escorts.len()
                    invariant
                        e <= escorts.len(),
                        p < present_list.len(),
                        fees@.map_values(|f: EscortFee| (f.merchant_id, f.soldier_id)) == mid_fees
                            + escorts@.subrange(0, e as int).map_values(|s: u32| (present_list@[p as int], s)),
                    decreases escorts.len() - e,
                {
                    let ghost fees_prev = fees@;
                    let fee = EscortFee { merchant_id: present_list[p], soldier_id: escorts[e] };
                    fees.push(fee);
                    proof {
                        assert(fees@.map_values(|f: EscortFee| (f.merchant_id, f.soldier_id)) =~= fees_prev.map_values(
                            |f: EscortFee| (f.merchant_id, f.soldier_id),
                        ).push((fee.merchant_id, fee.soldier_id)));
                        assert(escorts@.subrange(0, e + 1).map_values(|s: u32| (present_list@[p as int], s))
                            =~= escorts@.subrange(0, e as int).map_values(|s: u32| (present_list@[p as int], s)).push(
                            (present_list@[p as int], escorts@[e as int]),
                        ));
                        assert(fees@.map_values(|f: EscortFee| (f.merchant_id, f.soldier_id)) =~= mid_fees
                            + escorts@.subrange(0, e + 1).map_values(|s: u32| (present_list@[p as int], s)));
                    }
                    e += 1;
                }
                proof {
                    let pre = present_list@.subrange(0, p + 1);
                    assert(pre.drop_last() == present_list@.subrange(0, p as int));
                    assert(pre.last() == present_list@[p as int]);
                    assert(escorts@.subrange(0, escorts@.len() as int) == escorts@);
                    assert(fees_for(pre, escorts@) == fees_for(present_list@.subrange(0, p as int), escorts@)
                        + escorts@.map_values(|s: u32| (present_list@[p as int], s)));
                    assert(fees@.map_values(|f: EscortFee| (f.merchant_id, f.soldier_id)) =~= fees_before
                        + fees_for(pre, escorts@));
                }
                p += 1;
            }
            assert(present_list@.subrange(0, present_list@.len() as int) == present_list@);

            let ghost before = self@.caravans;
            let ghost before_vec = self.caravans@;
            let caravan = Caravan {
                id: self.caravans[c].id,
                member_ids: copy_ids(&self.caravans[c].member_ids),
                leader_id: self.caravans[c].leader_id,
                escort_ids: escorts,
            };
            self.caravans.set(c, caravan);
            proof {
                assert(self@.caravans =~= before.update(
                    c as int,
                    with_escorts(orig[c as int], escorts_upto(soldier_ids@, ranges[c as int], soldier_ids@.len() as nat)),
                ));
                assert(all_fees_upto(orig, present, soldier_ids@, ranges, (c + 1) as nat) == all_fees_upto(
                    orig,
                    present,
                    soldier_ids@,
                    ranges,
                    c as nat,
                ) + fees_for(
                    present_members(orig[c as int].members, present),
                    escorts_upto(soldier_ids@, ranges[c as int], soldier_ids@.len() as nat),
                ));
            }
            c += 1;
        }
        assert(self@.caravans =~= Seq::new(
            orig.len(),
            |q: int| with_escorts(orig[q], escorts_upto(soldier_ids@, ranges[q], soldier_ids@.len() as nat)),
        ));
        proof {
            if old(self).wf() {
                assert forall|q: int| 0 <= q < self@.caravans.len() implies caravan_wf(#[trigger] self@.caravans[q])
                    && self@.caravans[q].id < self@.next_id by {
                    lemma_escorts_distinct(soldier_ids@, ranges[q], soldier_ids@.len() as nat);
                    assert(caravan_wf(orig[q]));
                }
                assert forall|i: int, j: int| 0 <= i < j < self@.caravans.len() implies #[trigger] self@.caravans[i].id
                    != #[trigger] self@.caravans[j].id by {
                    assert(orig[i].id != orig[j].id);
                }
            }
        }
        fees
    }

    // ── Accessors ────────────────────────────────────────────────────────

    /// The active caravans, in storage order.
    pub fn caravans(&self) -> (cs: &[Caravan])
        ensures
            cs@.map_values(|c: Caravan| c.model()) == self@.caravans,
    {
        self.caravans.as_slice()
    }

    /// The first caravan with the given id, if any.
    pub fn get_caravan(&self, id: u32) -> (r: Option<&Caravan>)
        ensures
            match first_index(self@.caravans, |c: CaravanModel| c.id == id) {
                Some(i) => r is Some && r->0.model() == self@.caravans[i],
                None => r is None,
            },
    {
        let mut i: usize = 0;
        while i < self.caravans.len()
            invariant
                i <= self.caravans.len(),
                forall|j: int| 0 <= j < i ==> self@.caravans[j].id != id,
            decreases self.caravans.len() - i,
        {
            if self.caravans[i].id == id {
                proof {
                    let p = |c: CaravanModel| c.id == id;
                    assert(p(self@.caravans[i as int]));
                    let f = first_index(self@.caravans, p);
                    let w = f->0;
                    if w < i {
                        assert(p(self@.caravans[w]));
                    }
                    if w > i {
                        assert(!p(self@.caravans[i as int]));
                    }
                }
                return Some(&self.caravans[i]);
            }
            i += 1;
        }
        None
    }

    /// The id the next formed caravan will get.
    pub fn next_caravan_id(&self) -> (n: u32)
        ensures
            n == self@.next_id,
    {
        self.next_id
    }

    /// Number of active caravans.
    pub fn active_count(&self) -> (n: usize)
        ensures
            n == self@.caravans.len(),
    {
        self.caravans.len()
    }

    /// The first caravan that has the merchant among its members, if any.
    pub fn caravan_for_merchant(&self, merchant_id: u32) -> (r: Option<&Caravan>)
        ensures
            match first_index(self@.caravans, |c: CaravanModel| c.members.contains(merchant_id)) {
                Some(i) => r is Some && r->0.model() == self@.caravans[i],
                None => r is None,
            },
    {
        let mut i: usize = 0;
        while i < self.caravans.len()
            invariant
                i <= self.caravans.len(),
                forall|j: int| 0 <= j < i ==> !self@.caravans[j].members.contains(merchant_id),
            decreases self.caravans.len() - i,
        {
            if contains_id(self.caravans[i].member_ids.as_slice(), merchant_id) {
                proof {
                    let p = |c: CaravanModel| c.members.contains(merchant_id);
                    assert(p(self@.caravans[i as int]));
                    let f = first_index(self@.caravans, p);
                    let w = f->0;
                    if w < i {
                        assert(p(self@.caravans[w]));
                    }
                    if w > i {
                        assert(!p(self@.caravans[i as int]));
                    }
                }
                return Some(&self.caravans[i]);
            }
            i += 1;
        }
        None
    }
}

/// Whether `id` occurs in `ids`.
pub(crate) fn contains_id(ids: &[u32], id: u32) -> (b: bool)
    ensures
        b == ids@.contains(id),
{
    let mut i: usize = 0;
    while i < ids.len()
        invariant
            i <= ids.len(),
            forall|j: int| 0 <= j < i ==> ids@[j] != id,
        decreases ids.len() - i,
    {
        if ids[i] == id {
            return true;
        }
        i += 1;
    }
    false
}

// ── Lemmas ─────────────────────────────────────────────────────────────────

proof fn lemma_formation_count_monotone(
    cands: Seq<CaravanCandidate>,
    initiators: Seq<usize>,
    compatible: Seq<Seq<bool>>,
    a: nat,
    b: nat,
)
    requires
        a <= b,
    ensures
        formation_after(cands, initiators, compatible, a).1.len() <= formation_after(
            cands,
            initiators,
            compatible,
            b,
        ).1.len(),
    decreases b - a,
{
    if a < b {
        lemma_formation_count_monotone(cands, initiators, compatible, a, (b - 1) as nat);
    }
}

/// Considering `k` initiators forms at most `k` caravans.
pub(crate) proof fn lemma_formation_count_bounded(
    cands: Seq<CaravanCandidate>,
    initiators: Seq<usize>,
    compatible: Seq<Seq<bool>>,
    k: nat,
)
    ensures
        formation_after(cands, initiators, compatible, k).1.len() <= k,
    decreases k,
{
    if k > 0 {
        lemma_formation_count_bounded(cands, initiators, compatible, (k - 1) as nat);
    }
}

proof fn lemma_swap_remove_len<T>(s: Seq<T>, flags: Seq<bool>, n: nat)
    requires
        n <= flags.len(),
        flags.len() == s.len(),
    ensures
        swap_remove_flagged(s, flags, n).len() >= n,
    decreases flags.len() - n,
{
    if n < flags.len() {
        lemma_swap_remove_len(s, flags, n + 1);
    }
}

proof fn lemma_escorts_distinct(soldier_ids: Seq<u32>, in_range: Seq<bool>, n: nat)
    ensures
        escorts_upto(soldier_ids, in_range, n).no_duplicates(),
    decreases n,
{
    if n > 0 {
        lemma_escorts_distinct(soldier_ids, in_range, (n - 1) as nat);
        let prev = escorts_upto(soldier_ids, in_range, (n - 1) as nat);
        let cur = escorts_upto(soldier_ids, in_range, n);
        if cur.len() > prev.len() {
            assert forall|a: int, b: int| 0 <= a < b < cur.len() implies cur[a] != cur[b] by {
                if b == prev.len() {
                    assert(cur[a] == prev[a]);
                    assert(prev.contains(prev[a]));
                } else {
                    assert(cur[a] == prev[a] && cur[b] == prev[b]);
                }
            }
        }
    }
}

/// Dissolution keeps the system's invariant: what is left is a part of
/// what was there.
proof fn lemma_dissolution_keeps_wf(s: Seq<CaravanModel>, flags: Seq<bool>, next_id: u32)
    requires
        flags.len() == s.len(),
        forall|i: int| 0 <= i < s.len() ==> caravan_wf(#[trigger] s[i]) && s[i].id < next_id,
        forall|i: int, j: int| 0 <= i < j < s.len() ==> #[trigger] s[i].id != #[trigger] s[j].id,
    ensures
        ({
            let r = swap_remove_flagged(s, flags, 0);
            &&& forall|i: int| 0 <= i < r.len() ==> caravan_wf(#[trigger] r[i]) && r[i].id < next_id
            &&& forall|i: int, j: int| 0 <= i < j < r.len() ==> #[trigger] r[i].id != #[trigger] r[j].id
        }),
{
    broadcast use {vstd::seq_lib::group_to_multiset_ensures, vstd::multiset::group_multiset_axioms};

    lemma_swap_remove_props(s, flags, 0);
    let r = swap_remove_flagged(s, flags, 0);
    let f = flagged_from(s, flags, 0);
    assert(r.to_multiset().add(f) == s.to_multiset());
    assert(s.no_duplicates()) by {
        assert forall|a: int, b: int| 0 <= a < s.len() && 0 <= b < s.len() && a != b implies s[a] != s[b] by {
            if a < b {
                assert(s[a].id != s[b].id);
            } else {
                assert(s[b].id != s[a].id);
            }
        }
    }
    s.lemma_multiset_has_no_duplicates();
    assert forall|x: CaravanModel| r.to_multiset().contains(x) implies r.to_multiset().count(x) == 1 by {
        assert(s.to_multiset().count(x) == r.to_multiset().count(x) + f.count(x));
        assert(s.to_multiset().contains(x));
    }
    r.lemma_multiset_has_no_duplicates_conv();
    assert forall|i: int| 0 <= i < r.len() implies s.contains(#[trigger] r[i]) by {
        assert(r.to_multiset().count(r[i]) > 0);
        assert(s.to_multiset().count(r[i]) > 0);
    }
    assert forall|i: int| 0 <= i < r.len() implies caravan_wf(#[trigger] r[i]) && r[i].id < next_id by {
        assert(s.contains(r[i]));
    }
    assert forall|i: int, j: int| 0 <= i < j < r.len() implies #[trigger] r[i].id != #[trigger] r[j].id by {
        assert(s.contains(r[i]) && s.contains(r[j]));
        let a = choose|a: int| 0 <= a < s.len() && s[a] == r[i];
        let b = choose|b: int| 0 <= b < s.len() && s[b] == r[j];
        assert(r[i] != r[j]);
        if a < b {
            assert(s[a].id != s[b].id);
        } else {
            assert(s[b].id != s[a].id);
        }
    }
}

// ── Laws of caravan formation ───────────────────────────────────────────────

proof fn lemma_recruits_fresh(
    cands: Seq<CaravanCandidate>,
    row: Seq<bool>,
    leader: u32,
    assigned: Set<u32>,
    n: nat,
)
    requires
        n <= cands.len(),
    ensures
        forall|t: int|
            0 <= t < recruits_upto(cands, row, leader, assigned, n).len() ==> {
                let r = #[trigger] recruits_upto(cands, row, leader, assigned, n)[t];
                &&& !assigned.contains(r)
                &&& r != leader
                &&& exists|j: int| 0 <= j < n && cands[j].id == r
            },
    decreases n,
{
    if n > 0 {
        lemma_recruits_fresh(cands, row, leader, assigned, (n - 1) as nat);
        let prev = recruits_upto(cands, row, leader, assigned, (n - 1) as nat);
        let cur = recruits_upto(cands, row, leader, assigned, n);
        assert forall|t: int| 0 <= t < cur.len() implies {
            let r = #[trigger] cur[t];
            &&& !assigned.contains(r)
            &&& r != leader
            &&& exists|j: int| 0 <= j < n && cands[j].id == r
        } by {
            if t < prev.len() {
                assert(cur[t] == prev[t]);
                let j = choose|j: int| 0 <= j < n - 1 && cands[j].id == prev[t];
                assert(0 <= j < n && cands[j].id == cur[t]);
            } else {
                assert(cands[n - 1].id == cur[t]);
            }
        }
    }
}

proof fn lemma_recruits_distinct(
    cands: Seq<CaravanCandidate>,
    row: Seq<bool>,
    leader: u32,
    assigned: Set<u32>,
    n: nat,
)
    requires
        n <= cands.len(),
        forall|a: int, b: int| 0 <= a < b < cands.len() ==> cands[a].id != cands[b].id,
    ensures
        recruits_upto(cands, row, leader, assigned, n).no_duplicates(),
        forall|t: int|
            0 <= t < recruits_upto(cands, row, leader, assigned, n).len() ==> exists|j: int|
                0 <= j < n && cands[j].id == #[trigger] recruits_upto(cands, row, leader, assigned, n)[t],
    decreases n,
{
    lemma_recruits_fresh(cands, row, leader, assigned, n);
    if n > 0 {
        lemma_recruits_distinct(cands, row, leader, assigned, (n - 1) as nat);
        lemma_recruits_fresh(cands, row, leader, assigned, (n - 1) as nat);
        let prev = recruits_upto(cands, row, leader, assigned, (n - 1) as nat);
        let cur = recruits_upto(cands, row, leader, assigned, n);
        if cur.len() > prev.len() {
            assert forall|a: int, b: int| 0 <= a < b < cur.len() implies cur[a] != cur[b] by {
                if b == prev.len() {
                    let j = choose|j: int| 0 <= j < n - 1 && cands[j].id == prev[a];
                    assert(cur[a] == prev[a]);
                    assert(cands[j].id != cands[n - 1].id);
                } else {
                    assert(cur[a] == prev[a] && cur[b] == prev[b]);
                }
            }
        }
    }
}

proof fn lemma_formation_invariant(
    cands: Seq<CaravanCandidate>,
    initiators: Seq<usize>,
    compatible: Seq<Seq<bool>>,
    k: nat,
)
    requires
        k <= initiators.len(),
        formation_inputs_ok(cands, initiators, compatible),
    ensures
        ({
            let st = formation_after(cands, initiators, compatible, k);
            &&& forall|id: u32| already_assigned(cands).contains(id) ==> st.0.contains(id)
            &&& forall|q: int| 0 <= q < st.1.len() ==> (#[trigger] st.1[q]).len() >= 3
            &&& forall|q: int, t: int|
                0 <= q < st.1.len() && 0 <= t < st.1[q].len() ==> {
                    &&& st.0.contains(#[trigger] st.1[q][t])
                    &&& !already_assigned(cands).contains(st.1[q][t])
                }
            &&& forall|q1: int, q2: int, t1: int, t2: int|
                0 <= q1 < q2 < st.1.len() && 0 <= t1 < st.1[q1].len() && 0 <= t2 < st.1[q2].len()
                    ==> #[trigger] st.1[q1][t1] != #[trigger] st.1[q2][t2]
        }),
    decreases k,
{
    if k > 0 {
        lemma_formation_invariant(cands, initiators, compatible, (k - 1) as nat);
        let prev = formation_after(cands, initiators, compatible, (k - 1) as nat);
        let i = initiators[k - 1] as int;
        let leader = cands[i].id;
        if !prev.0.contains(leader) {
            let recruits = recruits_upto(cands, compatible[i], leader, prev.0, cands.len());
            if recruits.len() >= 2 {
                lemma_recruits_fresh(cands, compatible[i], leader, prev.0, cands.len());
                let members = seq![leader] + recruits;
                let st = formation_after(cands, initiators, compatible, k);
                assert(st.1 == prev.1.push(members));
                assert forall|t: int| 0 <= t < members.len() implies !prev.0.contains(#[trigger] members[t]) by {
                    if t > 0 {
                        assert(members[t] == recruits[t - 1]);
                    }
                }
                assert forall|q: int, t: int|
                    0 <= q < st.1.len() && 0 <= t < st.1[q].len() implies {
                    &&& st.0.contains(#[trigger] st.1[q][t])
                    &&& !already_assigned(cands).contains(st.1[q][t])
                } by {
                    if q == prev.1.len() {
                        assert(st.1[q][t] == members[t]);
                        assert(members.to_set().contains(members[t]));
                    } else {
                        assert(st.1[q] == prev.1[q]);
                    }
                }
                assert forall|q1: int, q2: int, t1: int, t2: int|
                    0 <= q1 < q2 < st.1.len() && 0 <= t1 < st.1[q1].len() && 0 <= t2 < st.1[q2].len()
                    implies #[trigger] st.1[q1][t1] != #[trigger] st.1[q2][t2] by {
                    assert(st.1[q1] == prev.1[q1]);
                    if q2 == prev.1.len() {
                        assert(prev.0.contains(prev.1[q1][t1]));
                        assert(st.1[q2][t2] == members[t2]);
                    } else {
                        assert(st.1[q2] == prev.1[q2]);
                    }
                }
            }
        }
    }
}

/// Every caravan formed has a leader and at least two recruits.
pub proof fn lemma_formed_caravans_have_three_members(
    cands: Seq<CaravanCandidate>,
    initiators: Seq<usize>,
    compatible: Seq<Seq<bool>>,
)
    requires
        formation_inputs_ok(cands, initiators, compatible),
    ensures
        forall|q: int|
            0 <= q < formed_groups(cands, initiators, compatible).len() ==> (#[trigger] formed_groups(
                cands,
                initiators,
                compatible,
            )[q]).len() >= 3,
{
    lemma_formation_invariant(cands, initiators, compatible, initiators.len());
}

/// A merchant that is already in a caravan never joins a newly formed one.
pub proof fn lemma_formation_skips_assigned(
    cands: Seq<CaravanCandidate>,
    initiators: Seq<usize>,
    compatible: Seq<Seq<bool>>,
)
    requires
        formation_inputs_ok(cands, initiators, compatible),
    ensures
        forall|q: int, t: int|
            0 <= q < formed_groups(cands, initiators, compatible).len() && 0 <= t < formed_groups(
                cands,
                initiators,
                compatible,
            )[q].len() ==> !already_assigned(cands).contains(
                #[trigger] formed_groups(cands, initiators, compatible)[q][t],
            ),
{
    lemma_formation_invariant(cands, initiators, compatible, initiators.len());
}

/// No merchant is placed in two of the caravans formed in one round.
pub proof fn lemma_formed_caravans_disjoint(
    cands: Seq<CaravanCandidate>,
    initiators: Seq<usize>,
    compatible: Seq<Seq<bool>>,
    q1: int,
    q2: int,
    t1: int,
    t2: int,
)
    requires
        formation_inputs_ok(cands, initiators, compatible),
        0 <= q1 < q2 < formed_groups(cands, initiators, compatible).len(),
        0 <= t1 < formed_groups(cands, initiators, compatible)[q1].len(),
        0 <= t2 < formed_groups(cands, initiators, compatible)[q2].len(),
    ensures
        formed_groups(cands, initiators, compatible)[q1][t1] != formed_groups(
            cands,
            initiators,
            compatible,
        )[q2][t2],
{
    lemma_formation_invariant(cands, initiators, compatible, initiators.len());
    let g = formed_groups(cands, initiators, compatible);
    assert(g[q1][t1] != g[q2][t2]);
}

/// With distinct candidate ids, a formed caravan lists each member once, and
/// its leader is one of the initiators.
pub proof fn lemma_formed_caravan_members_distinct(
    cands: Seq<CaravanCandidate>,
    initiators: Seq<usize>,
    compatible: Seq<Seq<bool>>,
    k: nat,
)
    requires
        formation_inputs_ok(cands, initiators, compatible),
        k <= initiators.len(),
        forall|a: int, b: int| 0 <= a < b < cands.len() ==> cands[a].id != cands[b].id,
    ensures
        forall|q: int|
            0 <= q < formation_after(cands, initiators, compatible, k).1.len() ==> {
                &&& (#[trigger] formation_after(cands, initiators, compatible, k).1[q]).no_duplicates()
                &&& exists|m: int|
                    0 <= m < k && formation_after(cands, initiators, compatible, k).1[q][0]
                        == cands[initiators[m] as int].id
            },
    decreases k,
{
    if k > 0 {
        lemma_formed_caravan_members_distinct(cands, initiators, compatible, (k - 1) as nat);
        let prev = formation_after(cands, initiators, compatible, (k - 1) as nat);
        let st = formation_after(cands, initiators, compatible, k);
        let i = initiators[k - 1] as int;
        let leader = cands[i].id;
        if !prev.0.contains(leader) {
            let recruits = recruits_upto(cands, compatible[i], leader, prev.0, cands.len());
            if recruits.len() >= 2 {
                lemma_recruits_fresh(cands, compatible[i], leader, prev.0, cands.len());
                lemma_recruits_distinct(cands, compatible[i], leader, prev.0, cands.len());
                let members = seq![leader] + recruits;
                assert(st.1 == prev.1.push(members));
                assert forall|a: int, b: int| 0 <= a < b < members.len() implies members[a] != members[b] by {
                    assert(members[b] == recruits[b - 1]);
                    if a > 0 {
                        assert(members[a] == recruits[a - 1]);
                    }
                }
                assert forall|q: int| 0 <= q < st.1.len() implies {
                    &&& (#[trigger] st.1[q]).no_duplicates()
                    &&& exists|m: int| 0 <= m < k && st.1[q][0] == cands[initiators[m] as int].id
                } by {
                    if q < prev.1.len() {
                        assert(st.1[q] == prev.1[q]);
                        let m = choose|m: int| 0 <= m < k - 1 && prev.1[q][0] == cands[initiators[m] as int].id;
                        assert(0 <= m < k && st.1[q][0] == cands[initiators[m] as int].id);
                    } else {
                        assert(st.1[q] == members);
                        assert(st.1[q][0] == cands[initiators[k - 1] as int].id);
                    }
                }
            }
        }
    }
}

// ── Law of dissolution ──────────────────────────────────────────────────────

/// The flagged elements of `s` at positions `n` and beyond, as a multiset.
pub open spec fn flagged_from<T>(s: Seq<T>, flags: Seq<bool>, n: nat) -> Multiset<T>
    decreases s.len() - n,
{
    if n >= s.len() {
        Multiset::empty()
    } else if flags[n as int] {
        flagged_from(s, flags, n + 1).insert(s[n as int])
    } else {
        flagged_from(s, flags, n + 1)
    }
}

/// Number of flagged positions at `n` and beyond.
pub open spec fn flagged_count(flags: Seq<bool>, n: nat) -> nat
    decreases flags.len() - n,
{
    if n >= flags.len() {
        0
    } else if flags[n as int] {
        flagged_count(flags, n + 1) + 1
    } else {
        flagged_count(flags, n + 1)
    }
}

proof fn lemma_swap_remove_props<T>(s: Seq<T>, flags: Seq<bool>, n: nat)
    requires
        flags.len() == s.len(),
        n <= s.len(),
    ensures
        ({
            let r = swap_remove_flagged(s, flags, n);
            &&& r.len() + flagged_count(flags, n) == s.len()
            &&& r.len() >= n
            &&& r.subrange(0, n as int) == s.subrange(0, n as int)
            &&& r.to_multiset().add(flagged_from(s, flags, n)) == s.to_multiset()
        }),
    decreases s.len() - n,
{
    broadcast use {vstd::seq_lib::group_to_multiset_ensures, vstd::multiset::group_multiset_axioms};

    if n >= s.len() {
        assert(flagged_from(s, flags, n) == Multiset::<T>::empty());
        assert(s.to_multiset().add(Multiset::empty()) =~= s.to_multiset());
    } else {
        lemma_swap_remove_props(s, flags, n + 1);
        let rest = swap_remove_flagged(s, flags, n + 1);
        assert(rest.subrange(0, n as int) == s.subrange(0, n as int)) by {
            assert(rest.subrange(0, n as int) =~= rest.subrange(0, n + 1int).subrange(0, n as int));
            assert(s.subrange(0, n as int) =~= s.subrange(0, n + 1int).subrange(0, n as int));
        }
        assert(rest[n as int] == s[n as int]) by {
            assert(rest.subrange(0, n + 1int)[n as int] == s.subrange(0, n + 1int)[n as int]);
        }
        if flags[n as int] {
            let x = rest.update(n as int, rest.last());
            let r = x.drop_last();
            assert(r == swap_remove_flagged(s, flags, n));
            assert(x.last() == rest.last());
            assert(x =~= r.push(x.last()));
            assert(x.to_multiset() == r.to_multiset().insert(x.last()));
            assert(x.to_multiset() == rest.to_multiset().insert(rest.last()).remove(rest[n as int]));
            assert(r.subrange(0, n as int) =~= rest.subrange(0, n as int));
            let mr = r.to_multiset();
            let mrest = rest.to_multiset();
            let f1 = flagged_from(s, flags, n + 1);
            assert(mrest.count(s[n as int]) > 0) by {
                assert(rest.contains(s[n as int]));
            }
            assert(mr.insert(rest.last()) == mrest.insert(rest.last()).remove(s[n as int]));
            assert(mr =~= mrest.remove(s[n as int])) by {
                assert forall|v: T| mr.count(v) == mrest.remove(s[n as int]).count(v) by {
                    assert(mr.insert(rest.last()).count(v) == mrest.insert(rest.last()).remove(s[n as int]).count(v));
                }
            }
            assert(mr.add(f1.insert(s[n as int])) =~= mrest.add(f1));
        } else {
            assert(swap_remove_flagged(s, flags, n) == rest);
            assert(rest.subrange(0, n as int) =~= rest.subrange(0, n + 1int).subrange(0, n as int));
        }
    }
}

/// Dissolution keeps exactly the caravans that were not flagged: the
/// remaining caravans together with the dissolved ones make up the caravans
/// that were there before, and one caravan is removed per flag.
pub proof fn lemma_dissolution_keeps_unflagged(caravans: Seq<CaravanModel>, flags: Seq<bool>)
    requires
        flags.len() == caravans.len(),
    ensures
        swap_remove_flagged(caravans, flags, 0).len() + flagged_count(flags, 0) == caravans.len(),
        swap_remove_flagged(caravans, flags, 0).to_multiset().add(flagged_from(caravans, flags, 0))
            == caravans.to_multiset(),
{
    lemma_swap_remove_props(caravans, flags, 0);
}

/// The elements at positions `n` and beyond whose flag is not set, in order.
pub open spec fn unflagged_from<T>(s: Seq<T>, flags: Seq<bool>, n: nat) -> Seq<T>
    decreases s.len() - n,
{
    if n >= s.len() {
        Seq::empty()
    } else if flags[n as int] {
        unflagged_from(s, flags, n + 1)
    } else {
        seq![s[n as int]] + unflagged_from(s, flags, n + 1)
    }
}

proof fn lemma_split_by_flags<T>(s: Seq<T>, flags: Seq<bool>, n: nat)
    requires
        n <= s.len(),
    ensures
        s.subrange(n as int, s.len() as int).to_multiset() == unflagged_from(s, flags, n).to_multiset().add(
            flagged_from(s, flags, n),
        ),
    decreases s.len() - n,
{
    broadcast use {vstd::seq_lib::group_to_multiset_ensures, vstd::multiset::group_multiset_axioms};

    if n < s.len() {
        lemma_split_by_flags(s, flags, n + 1);
        let tail = s.subrange((n + 1) as int, s.len() as int);
        let x = s[n as int];
        assert(s.subrange(n as int, s.len() as int) =~= seq![x] + tail);
        vstd::seq_lib::lemma_multiset_commutative(seq![x], tail);
        assert(seq![x].to_multiset() =~= Multiset::empty().insert(x)) by {
            assert(seq![x] =~= Seq::<T>::empty().push(x));
        }
        if !flags[n as int] {
            vstd::seq_lib::lemma_multiset_commutative(seq![x], unflagged_from(s, flags, n + 1));
        }
        assert(s.subrange(n as int, s.len() as int).to_multiset() =~= unflagged_from(s, flags, n).to_multiset().add(
            flagged_from(s, flags, n),
        ));
    } else {
        assert(s.subrange(n as int, s.len() as int) =~= Seq::<T>::empty());
        assert(unflagged_from(s, flags, n).to_multiset() =~= Multiset::empty());
        assert(Multiset::<T>::empty().add(Multiset::empty()) =~= Multiset::empty());
    }
}

/// Dissolution keeps exactly the caravans that were not flagged: the
/// caravans left are those, each once, in some order.
pub proof fn lemma_dissolution_leaves_unflagged(caravans: Seq<CaravanModel>, flags: Seq<bool>)
    requires
        flags.len() == caravans.len(),
    ensures
        swap_remove_flagged(caravans, flags, 0).to_multiset() == unflagged_from(caravans, flags, 0).to_multiset(),
{
    broadcast use vstd::multiset::group_multiset_axioms;

    lemma_swap_remove_props(caravans, flags, 0);
    lemma_split_by_flags(caravans, flags, 0);
    assert(caravans.subrange(0, caravans.len() as int) =~= caravans);
    let a = swap_remove_flagged(caravans, flags, 0).to_multiset();
    let k = unflagged_from(caravans, flags, 0).to_multiset();
    let f = flagged_from(caravans, flags, 0);
    assert forall|x: CaravanModel| a.count(x) == k.count(x) by {
        assert(a.add(f).count(x) == k.add(f).count(x));
    }
    assert(a =~= k);
}

/// The merchant ids of all groups.
pub open spec fn grouped_ids(groups: Seq<Seq<u32>>) -> Set<u32> {
    Set::new(|id: u32| exists|q: int, t: int| 0 <= q < groups.len() && 0 <= t < groups[q].len() && groups[q][t] == id)
}

/// After formation, the merchants in a caravan are exactly those that were
/// in one before and the members of the caravans formed.
pub proof fn lemma_formation_assigned_set(
    cands: Seq<CaravanCandidate>,
    initiators: Seq<usize>,
    compatible: Seq<Seq<bool>>,
    k: nat,
)
    ensures
        formation_after(cands, initiators, compatible, k).0 == already_assigned(cands).union(
            grouped_ids(formation_after(cands, initiators, compatible, k).1),
        ),
    decreases k,
{
    if k == 0 {
        assert(grouped_ids(Seq::<Seq<u32>>::empty()) =~= Set::empty());
        assert(already_assigned(cands).union(Set::empty()) =~= already_assigned(cands));
    } else {
        lemma_formation_count_bounded(cands, initiators, compatible, k);
        lemma_formation_assigned_set(cands, initiators, compatible, (k - 1) as nat);
        let prev = formation_after(cands, initiators, compatible, (k - 1) as nat);
        let cur = formation_after(cands, initiators, compatible, k);
        if cur.1.len() != prev.1.len() {
            let m = cur.1.last();
            assert(cur.1 == prev.1.push(m));
            assert(cur.0 == prev.0.union(m.to_set()));
            assert forall|id: u32| #[trigger] grouped_ids(cur.1).contains(id) <==> (grouped_ids(prev.1).contains(id)
                || m.to_set().contains(id)) by {
                if grouped_ids(cur.1).contains(id) {
                    let (q, t) = choose|q: int, t: int|
                        0 <= q < cur.1.len() && 0 <= t < cur.1[q].len() && cur.1[q][t] == id;
                    if q < prev.1.len() {
                        assert(prev.1[q][t] == id);
                    } else {
                        assert(m[t] == id);
                    }
                }
                if m.to_set().contains(id) {
                    let t = choose|t: int| 0 <= t < m.len() && m[t] == id;
                    assert(cur.1[prev.1.len() as int][t] == id);
                }
                if grouped_ids(prev.1).contains(id) {
                    let (q, t) = choose|q: int, t: int|
                        0 <= q < prev.1.len() && 0 <= t < prev.1[q].len() && prev.1[q][t] == id;
                    assert(cur.1[q][t] == id);
                }
            }
            assert forall|id: u32| cur.0.contains(id) <==> already_assigned(cands).union(grouped_ids(cur.1)).contains(
                id,
            ) by {
                assert(prev.0.contains(id) <==> (already_assigned(cands).contains(id) || grouped_ids(prev.1).contains(id)));
                assert(cur.0.contains(id) <==> (prev.0.contains(id) || m.to_set().contains(id)));
            }
            assert(cur.0 =~= already_assigned(cands).union(grouped_ids(cur.1)));
        }
    }
}

proof fn lemma_recruit_origin(cands: Seq<CaravanCandidate>, row: Seq<bool>, leader: u32, assigned: Set<u32>, n: nat, t: int)
    requires
        0 <= t < recruits_upto(cands, row, leader, assigned, n).len(),
    ensures
        exists|j: int|
            0 <= j < n && cands[j].id == recruits_upto(cands, row, leader, assigned, n)[t] && cands[j].id != leader
                && !assigned.contains(cands[j].id) && #[trigger] row[j],
    decreases n,
{
    let prev = recruits_upto(cands, row, leader, assigned, (n - 1) as nat);
    if t < prev.len() {
        lemma_recruit_origin(cands, row, leader, assigned, (n - 1) as nat, t);
        let j = choose|j: int|
            0 <= j < n - 1 && cands[j].id == prev[t] && cands[j].id != leader && !assigned.contains(cands[j].id)
                && #[trigger] row[j];
        assert(row[j]);
    } else {
        let j = n - 1;
        assert(row[j]);
    }
}

/// Every member of a formed caravan other than its leader was free and
/// compatible with the leader (near it and heading its way), and the
/// leader was one of the initiators.
pub proof fn lemma_recruits_compatible(
    cands: Seq<CaravanCandidate>,
    initiators: Seq<usize>,
    compatible: Seq<Seq<bool>>,
    k: nat,
    q: int,
    t: int,
)
    requires
        formation_inputs_ok(cands, initiators, compatible),
        k <= initiators.len(),
        0 <= q < formation_after(cands, initiators, compatible, k).1.len(),
        1 <= t < formation_after(cands, initiators, compatible, k).1[q].len(),
    ensures
        ({
            let g = formation_after(cands, initiators, compatible, k).1[q];
            exists|i: int, j: int|
                0 <= i < cands.len() && 0 <= j < cands.len() && initiators.contains(i as usize) && cands[i].id == g[0]
                    && cands[j].id == g[t] && cands[j].id != g[0] && !already_assigned(cands).contains(cands[j].id)
                    && #[trigger] compatible[i][j]
        }),
    decreases k,
{
    let prev = formation_after(cands, initiators, compatible, (k - 1) as nat);
    let cur = formation_after(cands, initiators, compatible, k);
    lemma_formation_count_bounded(cands, initiators, compatible, (k - 1) as nat);
    if q < prev.1.len() {
        lemma_recruits_compatible(cands, initiators, compatible, (k - 1) as nat, q, t);
        assert(cur.1[q] == prev.1[q]);
    } else {
        let i = initiators[k - 1] as int;
        let leader = cands[i].id;
        let rec = recruits_upto(cands, compatible[i], leader, prev.0, cands.len());
        let g = seq![leader] + rec;
        assert(cur.1[q] == g);
        lemma_recruit_origin(cands, compatible[i], leader, prev.0, cands.len(), t - 1);
        let j = choose|j: int|
            0 <= j < cands.len() && cands[j].id == rec[t - 1] && cands[j].id != leader && !prev.0.contains(cands[j].id)
                && #[trigger] compatible[i][j];
        lemma_formation_assigned_set(cands, initiators, compatible, (k - 1) as nat);
        assert(initiators[k - 1] == i as usize);
        assert(compatible[i][j]);
    }
}

} // verus!
