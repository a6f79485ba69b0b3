//! The inputs of caravan formation, dissolution and escort, built from the
//! caller's pairwise judgements about merchants.
//!
//! The caller judges distances and headings (`near[i][j]`: candidates `i`
//! and `j` stand within formation range; `aligned[i][j]`: their headings
//! differ by at most the tolerance; `far[i][j]`: they stand further apart
//! than the dissolution spread; `at_city[i]`: candidate `i` is inside a
//! city) and ranks sociability (`rank[i]`: higher for a more sociable
//! candidate, equal for equal sociability; `sociable[i]`: above the
//! initiator threshold). This module turns those judgements into the lists
//! and matrices that `CaravanSystem` works on.
use vstd::prelude::*;
use crate::caravan::{
    CaravanCandidate, Caravan, contains_id, formation_after, recruits_upto, distinct_candidate_ids,
    formation_inputs_ok, formed_groups, grouped_ids, already_assigned, lemma_formation_assigned_set,
};

verus! {

broadcast use vstd::seq_lib::group_seq_properties;

/// Candidate `i` may lead a new caravan: it is sociable enough and in no caravan.
pub open spec fn may_initiate(cands: Seq<CaravanCandidate>, sociable: Seq<bool>, i: int) -> bool {
    sociable[i] && cands[i].caravan_id is None
}

/// Candidate `a` tries to lead before candidate `b`: it is more sociable,
/// or as sociable and listed earlier.
pub open spec fn initiates_before(rank: Seq<u32>, a: int, b: int) -> bool {
    rank[a] > rank[b] || (rank[a] == rank[b] && a < b)
}

/// The order in which candidates try to lead: every candidate that may
/// initiate, once, most sociable first and, among equally sociable ones,
/// in candidate order.
pub fn initiator_order(candidates: &[CaravanCandidate], sociable: &[bool], rank: &[u32]) -> (r: Vec<usize>)
    requires
        sociable@.len() == candidates@.len(),
        rank@.len() == candidates@.len(),
    ensures
        forall|k: int|
            0 <= k < r@.len() ==> (#[trigger] r@[k]) < candidates@.len() && may_initiate(
                candidates@,
                sociable@,
                r@[k] as int,
            ),
        forall|i: int|
            0 <= i < candidates@.len() && may_initiate(candidates@, sociable@, i) ==> r@.contains(i as usize),
        forall|a: int, b: int| 0 <= a < b < r@.len() ==> initiates_before(rank@, r@[a] as int, r@[b] as int),
        r@.len() <= candidates@.len(),
{
    let n = candidates.len();
    let mut r: Vec<usize> = Vec::new();
    let mut i: usize = 0;
    while i < n
        invariant
            i <= n,
            n == candidates@.len(),
            sociable@.len() == n,
            rank@.len() == n,
            r@.len() <= i,
            forall|k: int|
                0 <= k < r@.len() ==> (#[trigger] r@[k]) < i && may_initiate(candidates@, sociable@, r@[k] as int),
            forall|j: int| 0 <= j < i && may_initiate(candidates@, sociable@, j) ==> r@.contains(j as usize),
            forall|a: int, b: int| 0 <= a < b < r@.len() ==> initiates_before(rank@, r@[a] as int, r@[b] as int),
        decreases n - i,
    {
        if sociable[i] && candidates[i].caravan_id.is_none() {
            let mut p: usize = 0;
            while p < r.len() && rank[r[p]] >= rank[i]
                invariant
                    p <= r@.len(),
                    i < n,
                    rank@.len() == n,
                    forall|k: int| 0 <= k < r@.len() ==> (#[trigger] r@[k]) < i,
                    forall|k: int| 0 <= k < p ==> rank@[(#[trigger] r@[k]) as int] >= rank@[i as int],
                decreases r@.len() - p,
            {
                p += 1;
            }
            let ghost old_r = r@;
            proof {
                // Everything from `p` on ranks strictly below `i`.
                assert forall|k: int| p <= k < old_r.len() implies rank@[(#[trigger] old_r[k]) as int] < rank@[i as int] by {
                    if k > p {
                        assert(initiates_before(rank@, old_r[p as int] as int, old_r[k] as int));
                    }
                }
            }
            r.insert(p, i);
            proof {
                let s = r@;
                assert(s == old_r.insert(p as int, i));
                assert forall|a: int, b: int| 0 <= a < b < s.len() implies initiates_before(rank@, s[a] as int, s[b] as int) by {
                    if b < p {
                        assert(s[a] == old_r[a] && s[b] == old_r[b]);
                    } else if b == p {
                        assert(s[a] == old_r[a]);
                    } else if a < p {
                        assert(s[a] == old_r[a] && s[b] == old_r[b - 1]);
                    } else if a == p {
                        assert(s[b] == old_r[b - 1]);
                    } else {
                        assert(s[a] == old_r[a - 1] && s[b] == old_r[b - 1]);
                    }
                }
                assert forall|j: int| 0 <= j < i + 1 && may_initiate(candidates@, sociable@, j) implies s.contains(j as usize) by {
                    if j < i {
                        let w = choose|w: int| 0 <= w < old_r.len() && old_r[w] == j as usize;
                        if w < p {
                            assert(s[w] == old_r[w]);
                        } else {
                            assert(s[w + 1] == old_r[w]);
                        }
                    } else {
                        assert(s[p as int] == i);
                    }
                }
                assert forall|k: int| 0 <= k < s.len() implies (#[trigger] s[k]) < i + 1 && may_initiate(
                    candidates@,
                    sociable@,
                    s[k] as int,
                ) by {
                    if k < p {
                        assert(s[k] == old_r[k]);
                    } else if k > p {
                        assert(s[k] == old_r[k - 1]);
                    }
                }
            }
        }
        i += 1;
    }
    r
}

/// Candidates `i` and `j` may travel together: within formation range and
/// heading the same way.
pub fn formation_compatibility(near: &[Vec<bool>], aligned: &[Vec<bool>]) -> (m: Vec<Vec<bool>>)
    requires
        aligned@.len() == near@.len(),
        forall|i: int| 0 <= i < near@.len() ==> (#[trigger] aligned@[i])@.len() == near@[i]@.len(),
    ensures
        m@.len() == near@.len(),
        forall|i: int|
            0 <= i < near@.len() ==> (#[trigger] m@[i])@.len() == near@[i]@.len() && forall|j: int|
                0 <= j < near@[i]@.len() ==> #[trigger] m@[i]@[j] == (near@[i]@[j] && aligned@[i]@[j]),
{
    let mut m: Vec<Vec<bool>> = Vec::new();
    let mut i: usize = 0;
    while i < near.len()
        invariant
            i <= near@.len(),
            aligned@.len() == near@.len(),
            forall|k: int| 0 <= k < near@.len() ==> (#[trigger] aligned@[k])@.len() == near@[k]@.len(),
            m@.len() == i,
            forall|k: int|
                0 <= k < i ==> (#[trigger] m@[k])@.len() == near@[k]@.len() && forall|j: int|
                    0 <= j < near@[k]@.len() ==> #[trigger] m@[k]@[j] == (near@[k]@[j] && aligned@[k]@[j]),
        decreases near@.len() - i,
    {
        let mut row: Vec<bool> = Vec::new();
        let mut j: usize = 0;
        assert(aligned@[i as int]@.len() == near@[i as int]@.len());
        while j < near[i].len()
            invariant
                i < near@.len(),
                aligned@.len() == near@.len(),
                j <= near@[i as int]@.len(),
                aligned@[i as int]@.len() == near@[i as int]@.len(),
                row@.len() == j,
                forall|t: int| 0 <= t < j ==> #[trigger] row@[t] == (near@[i as int]@[t] && aligned@[i as int]@[t]),
            decreases near@[i as int]@.len() - j,
        {
            row.push(near[i][j] && aligned[i][j]);
            j += 1;
        }
        m.push(row);
        i += 1;
    }
    m
}

/// Some pair of present members of `members` stands too far apart, or some
/// present member is inside a city. A member is present when a candidate
/// carries its id.
pub open spec fn should_dissolve(
    cands: Seq<CaravanCandidate>,
    far: Seq<Seq<bool>>,
    at_city: Seq<bool>,
    members: Seq<u32>,
) -> bool {
    ||| exists|i: int, j: int|
        0 <= i < cands.len() && 0 <= j < cands.len() && members.contains(cands[i].id) && members.contains(
            cands[j].id,
        ) && #[trigger] far[i][j]
    ||| exists|i: int| 0 <= i < cands.len() && members.contains(cands[i].id) && #[trigger] at_city[i]
}

/// One flag per caravan: whether it dissolves this tick.
pub fn dissolution_flags(
    caravans: &[Caravan],
    candidates: &[CaravanCandidate],
    far: &[Vec<bool>],
    at_city: &[bool],
) -> (flags: Vec<bool>)
    requires
        far@.len() == candidates@.len(),
        forall|i: int| 0 <= i < far@.len() ==> (#[trigger] far@[i])@.len() == candidates@.len(),
        at_city@.len() == candidates@.len(),
    ensures
        flags@.len() == caravans@.len(),
        forall|c: int|
            0 <= c < caravans@.len() ==> #[trigger] flags@[c] == should_dissolve(
                candidates@,
                far@.map_values(|r: Vec<bool>| r@),
                at_city@,
                caravans@[c].member_ids@,
            ),
{
    let ghost farm = far@.map_values(|r: Vec<bool>| r@);
    let n = candidates.len();
    let mut flags: Vec<bool> = Vec::new();
    let mut c: usize = 0;
    while c < caravans.len()
        invariant
            c <= caravans@.len(),
            n == candidates@.len(),
            far@.len() == n,
            forall|i: int| 0 <= i < far@.len() ==> (#[trigger] far@[i])@.len() == n,
            at_city@.len() == n,
            farm == far@.map_values(|r: Vec<bool>| r@),
            flags@.len() == c,
            forall|k: int|
                0 <= k < c ==> #[trigger] flags@[k] == should_dissolve(candidates@, farm, at_city@, caravans@[k].member_ids@),
        decreases caravans@.len() - c,
    {
        let members = caravans[c].member_ids.as_slice();
        let ghost ms = members@;
        let mut bad = false;
        let mut i: usize = 0;
        while i < n
            invariant
                i <= n,
                n == candidates@.len(),
                far@.len() == n,
                forall|t: int| 0 <= t < far@.len() ==> (#[trigger] far@[t])@.len() == n,
                at_city@.len() == n,
                farm == far@.map_values(|r: Vec<bool>| r@),
                ms == members@,
                bad == ((exists|a: int, b: int|
                    0 <= a < i && 0 <= b < n && ms.contains(candidates@[a].id) && ms.contains(candidates@[b].id)
                        && #[trigger] farm[a][b]) || (exists|a: int|
                    0 <= a < i && ms.contains(candidates@[a].id) && #[trigger] at_city@[a])),
            decreases n - i,
        {
            if contains_id(members, candidates[i].id) {
                if at_city[i] {
                    bad = true;
                }
                let mut j: usize = 0;
                while j < n
                    invariant
                        i < n,
                        j <= n,
                        n == candidates@.len(),
                        far@.len() == n,
                        forall|t: int| 0 <= t < far@.len() ==> (#[trigger] far@[t])@.len() == n,
                        at_city@.len() == n,
                        farm == far@.map_values(|r: Vec<bool>| r@),
                        ms == members@,
                        ms.contains(candidates@[i as int].id),
                        bad == ((exists|a: int, b: int|
                            0 <= a < i && 0 <= b < n && ms.contains(candidates@[a].id) && ms.contains(
                                candidates@[b].id,
                            ) && #[trigger] farm[a][b]) || (exists|b: int|
                            0 <= b < j && ms.contains(candidates@[b].id) && #[trigger] farm[i as int][b]) || (exists|a: int|
                            0 <= a < i + 1 && ms.contains(candidates@[a].id) && #[trigger] at_city@[a])),
                    decreases n - j,
                {
                    assert(far@[i as int]@.len() == n);
                    if far[i][j] && contains_id(members, candidates[j].id) {
                        assert(farm[i as int][j as int]);
                        bad = true;
                    }
                    j += 1;
                }
                proof {
                    if bad {
                        if exists|b: int| 0 <= b < n && ms.contains(candidates@[b].id) && #[trigger] farm[i as int][b] {
                            let b = choose|b: int| 0 <= b < n && ms.contains(candidates@[b].id) && #[trigger] farm[i as int][b];
                            assert(farm[i as int][b]);
                        }
                    }
                }
            }
            i += 1;
        }
        proof {
            assert(caravans@[c as int].member_ids@ == ms);
        }
        flags.push(bad);
        c += 1;
    }
    flags
}

/// A soldier standing at candidate `s` is within escort range of some
/// present member of `members`.
pub open spec fn escorts_within_range(
    cands: Seq<CaravanCandidate>,
    near: Seq<Seq<bool>>,
    members: Seq<u32>,
    s: int,
) -> bool {
    exists|i: int| 0 <= i < cands.len() && members.contains(cands[i].id) && #[trigger] near[i][s]
}

/// For every caravan and every soldier (given by candidate index), whether
/// the soldier is within escort range of one of the caravan's present members.
pub fn escort_ranges(
    caravans: &[Caravan],
    candidates: &[CaravanCandidate],
    near: &[Vec<bool>],
    soldiers: &[usize],
) -> (m: Vec<Vec<bool>>)
    requires
        near@.len() == candidates@.len(),
        forall|i: int| 0 <= i < near@.len() ==> (#[trigger] near@[i])@.len() == candidates@.len(),
        forall|k: int| 0 <= k < soldiers@.len() ==> (#[trigger] soldiers@[k]) < candidates@.len(),
    ensures
        m@.len() == caravans@.len(),
        forall|c: int|
            0 <= c < caravans@.len() ==> (#[trigger] m@[c])@.len() == soldiers@.len() && forall|k: int|
                0 <= k < soldiers@.len() ==> #[trigger] m@[c]@[k] == escorts_within_range(
                    candidates@,
                    near@.map_values(|r: Vec<bool>| r@),
                    caravans@[c].member_ids@,
                    soldiers@[k] as int,
                ),
{
    let ghost nearm = near@.map_values(|r: Vec<bool>| r@);
    let n = candidates.len();
    let mut m: Vec<Vec<bool>> = Vec::new();
    let mut c: usize = 0;
    while c < caravans.len()
        invariant
            c <= caravans@.len(),
            n == candidates@.len(),
            near@.len() == n,
            forall|i: int| 0 <= i < near@.len() ==> (#[trigger] near@[i])@.len() == n,
            forall|k: int| 0 <= k < soldiers@.len() ==> (#[trigger] soldiers@[k]) < n,
            nearm == near@.map_values(|r: Vec<bool>| r@),
            m@.len() == c,
            forall|cc: int|
                0 <= cc < c ==> (#[trigger] m@[cc])@.len() == soldiers@.len() && forall|k: int|
                    0 <= k < soldiers@.len() ==> #[trigger] m@[cc]@[k] == escorts_within_range(
                        candidates@,
                        nearm,
                        caravans@[cc].member_ids@,
                        soldiers@[k] as int,
                    ),
        decreases caravans@.len() - c,
    {
        let members = caravans[c].member_ids.as_slice();
        let ghost ms = members@;
        let mut row: Vec<bool> = Vec::new();
        let mut k: usize = 0;
        while k < soldiers.len()
            invariant
                k <= soldiers@.len(),
                n == candidates@.len(),
                near@.len() == n,
                forall|i: int| 0 <= i < near@.len() ==> (#[trigger] near@[i])@.len() == n,
                forall|t: int| 0 <= t < soldiers@.len() ==> (#[trigger] soldiers@[t]) < n,
                nearm == near@.map_values(|r: Vec<bool>| r@),
                ms == members@,
                row@.len() == k,
                forall|t: int|
                    0 <= t < k ==> #[trigger] row@[t] == escorts_within_range(candidates@, nearm, ms, soldiers@[t] as int),
            decreases soldiers@.len() - k,
        {
            let s = soldiers[k];
            let mut found = false;
            let mut i: usize = 0;
            while i < n
                invariant
                    i <= n,
                    s < n,
                    n == candidates@.len(),
                    near@.len() == n,
                    forall|t: int| 0 <= t < near@.len() ==> (#[trigger] near@[t])@.len() == n,
                    nearm == near@.map_values(|r: Vec<bool>| r@),
                    ms == members@,
                    found == exists|a: int| 0 <= a < i && ms.contains(candidates@[a].id) && #[trigger] nearm[a][s as int],
                decreases n - i,
            {
                assert(near@[i as int]@.len() == n);
                if near[i][s] && contains_id(members, candidates[i].id) {
                    assert(nearm[i as int][s as int]);
                    found = true;
                }
                i += 1;
            }
            row.push(found);
            k += 1;
        }
        proof {
            assert(caravans@[c as int].member_ids@ == ms);
        }
        m.push(row);
        c += 1;
    }
    m
}

proof fn lemma_assigned_grows(
    cands: Seq<CaravanCandidate>,
    inits: Seq<usize>,
    compat: Seq<Seq<bool>>,
    a: nat,
    b: nat,
)
    requires
        a <= b,
    ensures
        formation_after(cands, inits, compat, a).0.subset_of(formation_after(cands, inits, compat, b).0),
    decreases b - a,
{
    if a < b {
        lemma_assigned_grows(cands, inits, compat, a, (b - 1) as nat);
    }
}

proof fn lemma_recruit_listed(
    cands: Seq<CaravanCandidate>,
    row: Seq<bool>,
    leader: u32,
    assigned: Set<u32>,
    n: nat,
    j: int,
)
    requires
        0 <= j < n,
        n <= cands.len(),
        cands[j].id != leader,
        !assigned.contains(cands[j].id),
        row[j],
    ensures
        recruits_upto(cands, row, leader, assigned, n).contains(cands[j].id),
    decreases n,
{
    if j < n - 1 {
        lemma_recruit_listed(cands, row, leader, assigned, (n - 1) as nat, j);
        let prev = recruits_upto(cands, row, leader, assigned, (n - 1) as nat);
        let w = choose|w: int| 0 <= w < prev.len() && prev[w] == cands[j].id;
        assert(recruits_upto(cands, row, leader, assigned, n)[w] == cands[j].id);
    } else {
        let r = recruits_upto(cands, row, leader, assigned, n);
        assert(r[r.len() - 1] == cands[j].id);
    }
}

/// Formation leaves no caravan unformed: when every candidate that may
/// initiate is in the initiator order, no such candidate is left outside a
/// caravan with two other compatible candidates that are outside caravans
/// too. Stated both over the assigned set and over the formed groups: one of
/// the three is in a new caravan, or one of the two others was already in one.
pub proof fn lemma_formation_is_maximal(
    cands: Seq<CaravanCandidate>,
    sociable: Seq<bool>,
    inits: Seq<usize>,
    compat: Seq<Seq<bool>>,
    i: int,
    j1: int,
    j2: int,
)
    requires
        formation_inputs_ok(cands, inits, compat),
        distinct_candidate_ids(cands),
        cands.len() <= usize::MAX,
        sociable.len() == cands.len(),
        forall|c: int| 0 <= c < cands.len() && may_initiate(cands, sociable, c) ==> inits.contains(c as usize),
        0 <= i < cands.len(),
        0 <= j1 < cands.len(),
        0 <= j2 < cands.len(),
        j1 != j2,
        j1 != i,
        j2 != i,
        may_initiate(cands, sociable, i),
        compat[i][j1],
        compat[i][j2],
    ensures
        ({
            let assigned = formation_after(cands, inits, compat, inits.len()).0;
            ||| assigned.contains(cands[i].id)
            ||| assigned.contains(cands[j1].id)
            ||| assigned.contains(cands[j2].id)
        }),
        ({
            let groups = formed_groups(cands, inits, compat);
            ||| grouped_ids(groups).contains(cands[i].id)
            ||| grouped_ids(groups).contains(cands[j1].id)
            ||| grouped_ids(groups).contains(cands[j2].id)
            ||| cands[j1].caravan_id is Some
            ||| cands[j2].caravan_id is Some
        }),
{
    lemma_formation_assigned_set(cands, inits, compat, inits.len());
    assert forall|j: int| 0 <= j < cands.len() && #[trigger] already_assigned(cands).contains(cands[j].id) implies cands[j].caravan_id is Some by {
        let w = choose|w: int| 0 <= w < cands.len() && cands[w].id == cands[j].id && cands[w].caravan_id is Some;
        if w != j {
            if w < j {
                assert(cands[w].id != cands[j].id);
            } else {
                assert(cands[j].id != cands[w].id);
            }
        }
    }
    assert(!already_assigned(cands).contains(cands[i].id));
    let fin = formation_after(cands, inits, compat, inits.len()).0;
    if !fin.contains(cands[i].id) && !fin.contains(cands[j1].id) && !fin.contains(cands[j2].id) {
        assert(inits.contains(i as usize));
        let t = choose|t: int| 0 <= t < inits.len() && inits[t] == i as usize;
        assert(inits[t] as int == i);
        let prev = formation_after(cands, inits, compat, t as nat);
        let a = prev.0;
        lemma_assigned_grows(cands, inits, compat, t as nat, (t + 1) as nat);
        lemma_assigned_grows(cands, inits, compat, (t + 1) as nat, inits.len());
        assert(!a.contains(cands[i].id));
        assert(!a.contains(cands[j1].id));
        assert(!a.contains(cands[j2].id));
        let leader = cands[i].id;
        let rec = recruits_upto(cands, compat[i], leader, a, cands.len());
        lemma_recruit_listed(cands, compat[i], leader, a, cands.len(), j1);
        lemma_recruit_listed(cands, compat[i], leader, a, cands.len(), j2);
        let w1 = choose|w: int| 0 <= w < rec.len() && rec[w] == cands[j1].id;
        let w2 = choose|w: int| 0 <= w < rec.len() && rec[w] == cands[j2].id;
        assert(w1 != w2);
        assert(rec.len() >= 2);
        let members = seq![leader] + rec;
        assert(members[0] == leader);
        assert(members.to_set().contains(leader));
        let k1 = (t + 1) as nat;
        assert((k1 - 1) as nat == t as nat);
        assert(inits[k1 - 1] as int == i);
        assert(formation_after(cands, inits, compat, k1) == (a.union(members.to_set()), prev.1.push(members)));
        assert(formation_after(cands, inits, compat, k1).0.contains(leader));
    }
}

} // verus!
