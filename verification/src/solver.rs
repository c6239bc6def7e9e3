//! The assignment solver.
//!
//! An exhaustive, deterministic optimizer over the bipartite structure of
//! teams against tutor-slot pairs: a backtracking search walks every
//! lawful assignment of the teams, in formation order, to pairs that both
//! sides rated, that respect each tutor's whole-session capacity, and that
//! book no tutor twice at one slot. Among the complete assignments it
//! keeps the one of highest total achieved preference value (the members'
//! weights plus the tutor's weight, summed over all placements); a tie
//! falls to the earliest slot in the instance's slot order, then to the
//! earliest tutor, so a run is a pure function of the instance. When no
//! complete assignment exists at all the solver reports infeasibility
//! naming a team, never a silently partial schedule.

use vstd::prelude::*;

use vstd::arithmetic::div_mod::lemma_fundamental_div_mod_converse;

use crate::types::{
    Instance, Solution, Student, Team, Testat, Timeslot, Tutor, lemma_rates_iff_ok,
};
use crate::algo::{
    TESTATS_PER_STELLE, formation_ok_at, lemma_teams_upto_wf, rating_value, spec_rating_value,
    spec_teams_upto, students_wf, team_up, tutor_capacity_ok, tutor_expected, unique_names,
};

verus! {

/// The teams the solver schedules: those formed from the student roster.
pub open spec fn formed_teams(inst: Instance) -> Seq<Team> {
    spec_teams_upto(inst.students@, inst.students@.len() as int)
}

/// A well-formed instance: every slot assignment is well-formed, student
/// names are unique, every partner wish resolves mutually, and no tutor is
/// expected to deliver more testats than their alternatives allow.
pub open spec fn instance_wf(inst: Instance) -> bool {
    &&& students_wf(inst.students@)
    &&& unique_names(inst.students@)
    &&& forall|i: int| 0 <= i < inst.students@.len() ==> formation_ok_at(inst.students@, i)
    &&& forall|j: int|
        0 <= j < inst.tutors@.len() ==> (#[trigger] inst.tutors@[j]).slot_assignment.wf()
    &&& forall|j: int|
        0 <= j < inst.tutors@.len() ==> tutor_capacity_ok(#[trigger] inst.tutors@[j])
}

/// Whether every member of the team rated `slot`.
pub open spec fn team_accepts(students: Seq<Student>, team: Team, slot: Timeslot) -> bool {
    match team {
        Team::Single(a) => students[a as int].slot_assignment.rates(slot),
        Team::Full(a, b) => students[a as int].slot_assignment.rates(slot) && students[
            b as int
        ].slot_assignment.rates(slot),
    }
}

/// The whole sessions a tutor can host: their expected testats, given in
/// half units, rounded down to whole sessions.
pub open spec fn tutor_capacity(t: Tutor) -> int {
    tutor_expected(t) / 2
}

/// The preference value achieved by placing `team` with tutor `j` at
/// `slot`: the members' weights plus the tutor's weight, in half units.
pub open spec fn placement_score(inst: Instance, team: Team, j: int, slot: Timeslot) -> int {
    let tw = spec_rating_value(inst.tutors@[j].slot_assignment.spec_rating_for(slot));
    match team {
        Team::Single(a) => spec_rating_value(
            inst.students@[a as int].slot_assignment.spec_rating_for(slot),
        ) + tw,
        Team::Full(a, b) => spec_rating_value(
            inst.students@[a as int].slot_assignment.spec_rating_for(slot),
        ) + spec_rating_value(inst.students@[b as int].slot_assignment.spec_rating_for(slot)) + tw,
    }
}

/// How many placements of `pls` use tutor `j`.
pub open spec fn used_count(pls: Seq<(int, int)>, j: int) -> int
    decreases pls.len(),
{
    if pls.len() == 0 {
        0
    } else {
        used_count(pls.drop_last(), j) + if pls.last().1 == j {
            1int
        } else {
            0int
        }
    }
}

/// Whether some placement already books tutor `j` at slot index `si`.
pub open spec fn occupied(pls: Seq<(int, int)>, si: int, j: int) -> bool {
    exists|m: int| 0 <= m < pls.len() && pls[m] == (si, j)
}

/// Whether the pair `c` of slot index and tutor index is structurally
/// lawful for team `k`: in range and acceptable to both sides.
pub open spec fn placement_ok(
    inst: Instance,
    teams: Seq<Team>,
    slots: Seq<Timeslot>,
    k: int,
    c: (int, int),
) -> bool {
    &&& 0 <= c.0 < slots.len()
    &&& 0 <= c.1 < inst.tutors@.len()
    &&& team_accepts(inst.students@, teams[k], slots[c.0])
    &&& inst.tutors@[c.1].slot_assignment.rates(slots[c.0])
}

/// Whether `(si, j)` is a lawful next placement for team `k` on top of the
/// partial plan `pls`.
pub open spec fn cand_ok(
    inst: Instance,
    teams: Seq<Team>,
    slots: Seq<Timeslot>,
    pls: Seq<(int, int)>,
    k: int,
    si: int,
    j: int,
) -> bool {
    &&& placement_ok(inst, teams, slots, k, (si, j))
    &&& used_count(pls, j) < tutor_capacity(inst.tutors@[j])
    &&& !occupied(pls, si, j)
}

/// A lawful partial plan: one placement for each of the first `upto`
/// teams, acceptable to both sides, within every tutor's capacity, and
/// with no tutor booked twice at one slot.
pub open spec fn valid_partial(
    inst: Instance,
    teams: Seq<Team>,
    slots: Seq<Timeslot>,
    pls: Seq<(int, int)>,
    upto: int,
) -> bool {
    &&& pls.len() == upto
    &&& forall|k: int|
        0 <= k < pls.len() ==> placement_ok(inst, teams, slots, k, #[trigger] pls[k])
    &&& forall|j: int|
        0 <= j < inst.tutors@.len() ==> #[trigger] used_count(pls, j) <= tutor_capacity(
            inst.tutors@[j],
        )
    &&& forall|k1: int, k2: int| 0 <= k1 < k2 < pls.len() ==> pls[k1] != pls[k2]
}

/// A lawful complete plan: one lawful placement per team.
pub open spec fn valid_plan(
    inst: Instance,
    teams: Seq<Team>,
    slots: Seq<Timeslot>,
    pls: Seq<(int, int)>,
) -> bool {
    valid_partial(inst, teams, slots, pls, teams.len() as int)
}

/// The total achieved preference value of a plan: the sum of the
/// placement scores of its teams, in half units.
pub open spec fn plan_score(
    inst: Instance,
    teams: Seq<Team>,
    slots: Seq<Timeslot>,
    pls: Seq<(int, int)>,
) -> int
    decreases pls.len(),
{
    if pls.len() == 0 {
        0
    } else {
        plan_score(inst, teams, slots, pls.drop_last()) + placement_score(
            inst,
            teams[pls.len() - 1],
            pls.last().1,
            slots[pls.last().0],
        )
    }
}

/// The best complete extension of `pls` that places teams `k` and on,
/// trying every candidate pair for team `k` in slot-major order: a deeper
/// result replaces the best so far only when its total score is strictly
/// greater, so among the highest-scoring plans the earliest wins.
pub open spec fn search_upto(
    inst: Instance,
    teams: Seq<Team>,
    slots: Seq<Timeslot>,
    pls: Seq<(int, int)>,
    k: int,
    c: int,
) -> Option<Seq<(int, int)>>
    decreases teams.len() - k, c,
{
    if c <= 0 || k < 0 || k >= teams.len() {
        None
    } else {
        let prev = search_upto(inst, teams, slots, pls, k, c - 1);
        let t = inst.tutors@.len() as int;
        let si = (c - 1) / t;
        let j = (c - 1) % t;
        if cand_ok(inst, teams, slots, pls, k, si, j) {
            match search_from(inst, teams, slots, pls.push((si, j)), k + 1) {
                None => prev,
                Some(sub) => match prev {
                    None => Some(sub),
                    Some(p) => if plan_score(inst, teams, slots, sub) > plan_score(
                        inst,
                        teams,
                        slots,
                        p,
                    ) {
                        Some(sub)
                    } else {
                        Some(p)
                    },
                },
            }
        } else {
            prev
        }
    }
}

/// The best complete extension of `pls` that places teams `k` and on, or
/// `None` when none exists.
pub open spec fn search_from(
    inst: Instance,
    teams: Seq<Team>,
    slots: Seq<Timeslot>,
    pls: Seq<(int, int)>,
    k: int,
) -> Option<Seq<(int, int)>>
    decreases teams.len() - k, (slots.len() * inst.tutors@.len()) as int + 1,
{
    if k < 0 || k >= teams.len() {
        Some(pls)
    } else {
        search_upto(inst, teams, slots, pls, k, (slots.len() * inst.tutors@.len()) as int)
    }
}

/// The plan the solver computes for an instance, when one exists.
pub open spec fn spec_plan(inst: Instance) -> Option<Seq<(int, int)>> {
    search_from(inst, formed_teams(inst), inst.spec_slots(), Seq::empty(), 0)
}

/// The plan the solver computes, defaulting to the empty plan.
pub open spec fn plan_of(inst: Instance) -> Seq<(int, int)> {
    match spec_plan(inst) {
        Some(p) => p,
        None => Seq::empty(),
    }
}

/// The testats a plan describes: the placement of team `k` binds that
/// team, the chosen tutor and the chosen slot.
pub open spec fn plan_testats(inst: Instance, pls: Seq<(int, int)>) -> Seq<Testat> {
    pls.map(
        |k: int, c: (int, int)|
            Testat { slot: inst.spec_slots()[c.0], tutor: c.1 as usize, team: formed_teams(inst)[k] },
    )
}

/// The placements of an executable plan, widened to `int`.
pub open spec fn plan_ints(pls: Seq<(usize, usize)>) -> Seq<(int, int)> {
    pls.map_values(|c: (usize, usize)| (c.0 as int, c.1 as int))
}

/// Appending a placement raises exactly its tutor's booking count.
pub proof fn lemma_used_count_push(pls: Seq<(int, int)>, c: (int, int), j: int)
    ensures
        used_count(pls.push(c), j) == used_count(pls, j) + if c.1 == j {
            1int
        } else {
            0int
        },
{
    assert(pls.push(c).drop_last() =~= pls);
}

/// A tutor someone is placed with has a positive booking count.
pub proof fn lemma_used_count_pos(pls: Seq<(int, int)>, k: int)
    requires
        0 <= k < pls.len(),
    ensures
        used_count(pls, pls[k].1) >= 1,
    decreases pls.len(),
{
    lemma_used_count_nonneg(pls.drop_last(), pls[k].1);
    if k < pls.len() - 1 {
        assert(pls.drop_last()[k] == pls[k]);
        lemma_used_count_pos(pls.drop_last(), k);
    }
}

/// Booking counts are never negative.
pub proof fn lemma_used_count_nonneg(pls: Seq<(int, int)>, j: int)
    ensures
        used_count(pls, j) >= 0,
    decreases pls.len(),
{
    if pls.len() > 0 {
        lemma_used_count_nonneg(pls.drop_last(), j);
    }
}

/// A prefix books every tutor at most as often as the whole plan.
pub proof fn lemma_used_count_take(pls: Seq<(int, int)>, j: int, k: int)
    requires
        0 <= k <= pls.len(),
    ensures
        used_count(pls.take(k), j) <= used_count(pls, j),
    decreases pls.len() - k,
{
    if k == pls.len() {
        assert(pls.take(k) =~= pls);
    } else {
        lemma_used_count_take(pls, j, k + 1);
        assert(pls.take(k + 1).drop_last() =~= pls.take(k));
        assert(pls.take(k + 1).last() == pls[k]);
    }
}

/// Every prefix of a lawful plan is a lawful partial plan.
pub proof fn lemma_valid_take(
    inst: Instance,
    teams: Seq<Team>,
    slots: Seq<Timeslot>,
    q: Seq<(int, int)>,
    k: int,
)
    requires
        valid_plan(inst, teams, slots, q),
        0 <= k <= teams.len(),
    ensures
        valid_partial(inst, teams, slots, q.take(k), k),
{
    assert(forall|m: int| 0 <= m < k ==> q.take(k)[m] == q[m]);
    assert forall|j: int| 0 <= j < inst.tutors@.len() implies #[trigger] used_count(q.take(k), j)
        <= tutor_capacity(inst.tutors@[j]) by {
        lemma_used_count_take(q, j, k);
    }
}

/// The step a lawful plan takes at team `k` is a lawful next placement on
/// top of that plan's prefix.
pub proof fn lemma_plan_step_cand(
    inst: Instance,
    teams: Seq<Team>,
    slots: Seq<Timeslot>,
    q: Seq<(int, int)>,
    k: int,
)
    requires
        valid_plan(inst, teams, slots, q),
        0 <= k < teams.len(),
    ensures
        cand_ok(inst, teams, slots, q.take(k), k, q[k].0, q[k].1),
{
    lemma_valid_take(inst, teams, slots, q, k);
    assert(q.take(k + 1) =~= q.take(k).push(q[k]));
    lemma_used_count_push(q.take(k), q[k], q[k].1);
    lemma_used_count_take(q, q[k].1, k + 1);
    if occupied(q.take(k), q[k].0, q[k].1) {
        let m = choose|m: int| 0 <= m < k && q.take(k)[m] == (q[k].0, q[k].1);
        assert(q[m] == q[k]);
        assert(false);
    }
}

/// A lawful next placement extends a lawful partial plan.
pub proof fn lemma_partial_push(
    inst: Instance,
    teams: Seq<Team>,
    slots: Seq<Timeslot>,
    pls: Seq<(int, int)>,
    k: int,
    si: int,
    j: int,
)
    requires
        valid_partial(inst, teams, slots, pls, k),
        cand_ok(inst, teams, slots, pls, k, si, j),
        0 <= k < teams.len(),
    ensures
        valid_partial(inst, teams, slots, pls.push((si, j)), k + 1),
{
    let pls2 = pls.push((si, j));
    assert forall|jj: int| 0 <= jj < inst.tutors@.len() implies #[trigger] used_count(pls2, jj)
        <= tutor_capacity(inst.tutors@[jj]) by {
        lemma_used_count_push(pls, (si, j), jj);
    }
    assert forall|k1: int, k2: int| 0 <= k1 < k2 < pls2.len() implies pls2[k1] != pls2[k2] by {
        if k2 == pls.len() {
            assert(!occupied(pls, si, j));
            assert(pls2[k1] == pls[k1]);
            if pls[k1] == (si, j) {
                assert(occupied(pls, si, j));
            }
        }
    }
}

/// An empty plan is lawful.
pub proof fn lemma_empty_partial(inst: Instance, teams: Seq<Team>, slots: Seq<Timeslot>)
    ensures
        valid_partial(inst, teams, slots, Seq::empty(), 0),
{
    assert forall|j: int| 0 <= j < inst.tutors@.len() implies #[trigger] used_count(
        Seq::empty(),
        j,
    ) <= tutor_capacity(inst.tutors@[j]) by {
        assert(used_count(Seq::empty(), j) == 0);
        assert(tutor_expected(inst.tutors@[j]) >= 0);
    }
}

/// Whatever the search returns is a lawful complete plan.
pub proof fn lemma_search_from_valid(
    inst: Instance,
    teams: Seq<Team>,
    slots: Seq<Timeslot>,
    pls: Seq<(int, int)>,
    k: int,
)
    requires
        valid_partial(inst, teams, slots, pls, k),
        0 <= k <= teams.len(),
    ensures
        match search_from(inst, teams, slots, pls, k) {
            Some(p) => valid_plan(inst, teams, slots, p) && p.len() == teams.len(),
            None => true,
        },
    decreases teams.len() - k, (slots.len() * inst.tutors@.len()) as int + 1,
{
    if k < teams.len() {
        lemma_search_upto_valid(
            inst,
            teams,
            slots,
            pls,
            k,
            (slots.len() * inst.tutors@.len()) as int,
        );
    }
}

/// Whatever the candidate fold returns is a lawful complete plan.
pub proof fn lemma_search_upto_valid(
    inst: Instance,
    teams: Seq<Team>,
    slots: Seq<Timeslot>,
    pls: Seq<(int, int)>,
    k: int,
    c: int,
)
    requires
        valid_partial(inst, teams, slots, pls, k),
        0 <= k < teams.len(),
    ensures
        match search_upto(inst, teams, slots, pls, k, c) {
            Some(p) => valid_plan(inst, teams, slots, p) && p.len() == teams.len(),
            None => true,
        },
    decreases teams.len() - k, c,
{
    if c > 0 {
        lemma_search_upto_valid(inst, teams, slots, pls, k, c - 1);
        let t = inst.tutors@.len() as int;
        let si = (c - 1) / t;
        let j = (c - 1) % t;
        if cand_ok(inst, teams, slots, pls, k, si, j) {
            lemma_partial_push(inst, teams, slots, pls, k, si, j);
            lemma_search_from_valid(inst, teams, slots, pls.push((si, j)), k + 1);
        }
    }
}

/// When some candidate below `c` has a completable subtree, the fold
/// finds a plan.
pub proof fn lemma_search_upto_some(
    inst: Instance,
    teams: Seq<Team>,
    slots: Seq<Timeslot>,
    pls: Seq<(int, int)>,
    k: int,
    c: int,
    si: int,
    j: int,
)
    requires
        0 <= k < teams.len(),
        0 <= si,
        0 <= j < inst.tutors@.len(),
        si * (inst.tutors@.len() as int) + j < c,
        cand_ok(inst, teams, slots, pls, k, si, j),
        search_from(inst, teams, slots, pls.push((si, j)), k + 1) is Some,
    ensures
        search_upto(inst, teams, slots, pls, k, c) is Some,
    decreases c,
{
    let t = inst.tutors@.len() as int;
    if si * t + j == c - 1 {
        lemma_fundamental_div_mod_converse(c - 1, t, si, j);
    } else {
        lemma_search_upto_some(inst, teams, slots, pls, k, c - 1, si, j);
    }
}

/// Completeness: the prefix of any lawful plan can be completed, so the
/// search from it succeeds.
pub proof fn lemma_search_from_complete(
    inst: Instance,
    teams: Seq<Team>,
    slots: Seq<Timeslot>,
    q: Seq<(int, int)>,
    k: int,
)
    requires
        valid_plan(inst, teams, slots, q),
        0 <= k <= teams.len(),
    ensures
        search_from(inst, teams, slots, q.take(k), k) is Some,
    decreases teams.len() - k,
{
    if k < teams.len() {
        lemma_plan_step_cand(inst, teams, slots, q, k);
        lemma_search_from_complete(inst, teams, slots, q, k + 1);
        assert(q.take(k + 1) =~= q.take(k).push(q[k]));
        let t = inst.tutors@.len() as int;
        let total = (slots.len() * inst.tutors@.len()) as int;
        assert(q[k].0 * t + q[k].1 < total) by (nonlinear_arith)
            requires
                0 <= q[k].0 <= (slots.len() as int) - 1,
                0 <= q[k].1 < t,
                total == (slots.len() as int) * t,
        ;
        lemma_search_upto_some(inst, teams, slots, q.take(k), k, total, q[k].0, q[k].1);
    }
}

/// The fold's result scores at least the best completion through any one
/// of its candidates.
pub proof fn lemma_search_upto_ge(
    inst: Instance,
    teams: Seq<Team>,
    slots: Seq<Timeslot>,
    pls: Seq<(int, int)>,
    k: int,
    c: int,
    si: int,
    j: int,
)
    requires
        0 <= k < teams.len(),
        0 <= si,
        0 <= j < inst.tutors@.len(),
        si * (inst.tutors@.len() as int) + j < c,
        cand_ok(inst, teams, slots, pls, k, si, j),
        search_from(inst, teams, slots, pls.push((si, j)), k + 1) is Some,
    ensures
        search_upto(inst, teams, slots, pls, k, c) is Some,
        plan_score(inst, teams, slots, search_upto(inst, teams, slots, pls, k, c).unwrap())
            >= plan_score(
            inst,
            teams,
            slots,
            search_from(inst, teams, slots, pls.push((si, j)), k + 1).unwrap(),
        ),
    decreases c,
{
    let t = inst.tutors@.len() as int;
    if si * t + j == c - 1 {
        lemma_fundamental_div_mod_converse(c - 1, t, si, j);
    } else {
        lemma_search_upto_ge(inst, teams, slots, pls, k, c - 1, si, j);
    }
}

/// Optimality: the search's result scores at least any lawful plan that
/// extends the prefix it started from.
pub proof fn lemma_search_from_optimal(
    inst: Instance,
    teams: Seq<Team>,
    slots: Seq<Timeslot>,
    q: Seq<(int, int)>,
    k: int,
)
    requires
        valid_plan(inst, teams, slots, q),
        0 <= k <= teams.len(),
    ensures
        search_from(inst, teams, slots, q.take(k), k) is Some,
        plan_score(inst, teams, slots, q) <= plan_score(
            inst,
            teams,
            slots,
            search_from(inst, teams, slots, q.take(k), k).unwrap(),
        ),
    decreases teams.len() - k,
{
    lemma_search_from_complete(inst, teams, slots, q, k);
    if k == teams.len() {
        assert(q.take(k) =~= q);
    } else {
        lemma_plan_step_cand(inst, teams, slots, q, k);
        lemma_search_from_optimal(inst, teams, slots, q, k + 1);
        assert(q.take(k + 1) =~= q.take(k).push(q[k]));
        let t = inst.tutors@.len() as int;
        let total = (slots.len() * inst.tutors@.len()) as int;
        assert(q[k].0 * t + q[k].1 < total) by (nonlinear_arith)
            requires
                0 <= q[k].0 <= (slots.len() as int) - 1,
                0 <= q[k].1 < t,
                total == (slots.len() as int) * t,
        ;
        lemma_search_upto_ge(inst, teams, slots, q.take(k), k, total, q[k].0, q[k].1);
    }
}

/// The solver's failure report: a team the search could not place.
#[derive(Clone, Copy, PartialEq, Eq, Structural, Debug)]
pub struct Infeasible {
    /// Index of an unplaceable team in the formed team list.
    pub team_index: usize,
    /// The unplaceable team itself.
    pub team: Team,
}

/// Whether every member of `team` rated `slot`.
fn team_accepts_exec(students: &Vec<Student>, team: Team, slot: Timeslot) -> (r: bool)
    requires
        students_wf(students@),
        team.wf(students@.len() as int),
    ensures
        r == team_accepts(students@, team, slot),
{
    match team {
        Team::Single(a) => {
            proof {
                lemma_rates_iff_ok(students@[a as int].slot_assignment, slot);
            }
            students[a].slot_assignment.rating_for(slot).is_ok()
        },
        Team::Full(a, b) => {
            proof {
                lemma_rates_iff_ok(students@[a as int].slot_assignment, slot);
                lemma_rates_iff_ok(students@[b as int].slot_assignment, slot);
            }
            students[a].slot_assignment.rating_for(slot).is_ok()
                && students[b].slot_assignment.rating_for(slot).is_ok()
        },
    }
}

/// Whether the plan already books tutor `j` at slot index `si`.
fn pair_in_plan(plan: &Vec<(usize, usize)>, si: usize, j: usize) -> (r: bool)
    ensures
        r == occupied(plan_ints(plan@), si as int, j as int),
{
    let ghost pl = plan_ints(plan@);
    let mut m: usize = 0;
    while m < plan.len()
        invariant
            m <= plan@.len(),
            forall|q: int| 0 <= q < m ==> (#[trigger] pl[q]) != (si as int, j as int),
        decreases plan@.len() - m,
    {
        if plan[m].0 == si && plan[m].1 == j {
            proof {
                assert(pl[m as int] == (si as int, j as int));
            }
            return true;
        }
        proof {
            assert(pl[m as int] == (plan@[m as int].0 as int, plan@[m as int].1 as int));
        }
        m = m + 1;
    }
    false
}

/// The preference value achieved by a placement, in half units.
fn score_of(instance: &Instance, team: Team, j: usize, slot: Timeslot) -> (s: u64)
    requires
        team.wf(instance.students@.len() as int),
        (j as int) < instance.tutors@.len(),
    ensures
        s as int == placement_score(*instance, team, j as int, slot),
        s <= 6,
{
    let tw = rating_value(instance.tutors[j].slot_assignment.rating_for(slot));
    match team {
        Team::Single(a) => rating_value(instance.students[a].slot_assignment.rating_for(slot))
            + tw,
        Team::Full(a, b) => rating_value(instance.students[a].slot_assignment.rating_for(slot))
            + rating_value(instance.students[b].slot_assignment.rating_for(slot)) + tw,
    }
}

/// The whole sessions a tutor can host.
fn capacity_of(t: &Tutor) -> (c: u64)
    ensures
        c as int == tutor_capacity(*t),
{
    (t.scale_factor * TESTATS_PER_STELLE) / 2
}

/// The total achieved preference value of a plan, in half units.
fn plan_score_exec(
    instance: &Instance,
    teams: &Vec<Team>,
    slots: &Vec<Timeslot>,
    plan: &Vec<(usize, usize)>,
) -> (s: u128)
    requires
        plan@.len() <= teams@.len(),
        forall|m: int|
            0 <= m < teams@.len() ==> (#[trigger] teams@[m]).wf(instance.students@.len() as int),
        forall|m: int|
            0 <= m < plan@.len() ==> (#[trigger] plan@[m]).0 < slots@.len() && plan@[m].1
                < instance.tutors@.len(),
    ensures
        s as int == plan_score(*instance, teams@, slots@, plan_ints(plan@)),
{
    let ghost pl = plan_ints(plan@);
    let mut s: u128 = 0;
    let mut m: usize = 0;
    while m < plan.len()
        invariant
            m <= plan@.len(),
            s as int == plan_score(*instance, teams@, slots@, pl.take(m as int)),
            s <= 6 * m,
        decreases plan@.len() - m,
    {
        proof {
            assert(pl.take(m + 1).drop_last() =~= pl.take(m as int));
            assert(pl.take(m + 1).last() == pl[m as int]);
            assert(pl[m as int] == (plan@[m as int].0 as int, plan@[m as int].1 as int));
        }
        let v = score_of(instance, teams[m], plan[m].1, slots[plan[m].0]);
        s = s + (v as u128);
        m = m + 1;
    }
    proof {
        assert(pl.take(pl.len() as int) =~= pl);
    }
    s
}

/// A plain copy of a plan.
fn copy_plan(plan: &Vec<(usize, usize)>) -> (r: Vec<(usize, usize)>)
    ensures
        r@ == plan@,
{
    let mut r: Vec<(usize, usize)> = Vec::new();
    let mut m: usize = 0;
    while m < plan.len()
        invariant
            m <= plan@.len(),
            r@ == plan@.take(m as int),
        decreases plan@.len() - m,
    {
        r.push(plan[m]);
        proof {
            assert(r@ =~= plan@.take(m + 1));
        }
        m = m + 1;
    }
    proof {
        assert(plan@.take(plan@.len() as int) =~= plan@);
    }
    r
}

/// How often the plan books tutor `j`.
fn count_used(plan: &Vec<(usize, usize)>, j: usize) -> (u: u64)
    ensures
        u as int == used_count(plan_ints(plan@), j as int),
{
    let ghost pl = plan_ints(plan@);
    let mut u: u64 = 0;
    let mut m: usize = 0;
    while m < plan.len()
        invariant
            m <= plan@.len(),
            u as int == used_count(pl.take(m as int), j as int),
            u <= m,
        decreases plan@.len() - m,
    {
        proof {
            assert(pl.take(m + 1).drop_last() =~= pl.take(m as int));
            assert(pl.take(m + 1).last() == pl[m as int]);
            assert(pl[m as int] == (plan@[m as int].0 as int, plan@[m as int].1 as int));
        }
        if plan[m].1 == j {
            u = u + 1;
        }
        m = m + 1;
    }
    proof {
        assert(pl.take(pl.len() as int) =~= pl);
    }
    u
}

/// Whether `(si, j)` is a lawful next placement for team `k`.
fn is_candidate(
    instance: &Instance,
    teams: &Vec<Team>,
    slots: &Vec<Timeslot>,
    plan: &Vec<(usize, usize)>,
    k: usize,
    si: usize,
    j: usize,
) -> (r: bool)
    requires
        instance_wf(*instance),
        forall|m: int|
            0 <= m < teams@.len() ==> (#[trigger] teams@[m]).wf(instance.students@.len() as int),
        (k as int) < teams@.len(),
        (si as int) < slots@.len(),
        (j as int) < instance.tutors@.len(),
    ensures
        r == cand_ok(*instance, teams@, slots@, plan_ints(plan@), k as int, si as int, j as int),
{
    let slot = slots[si];
    let acc_team = team_accepts_exec(&instance.students, teams[k], slot);
    let acc_tutor = instance.tutors[j].slot_assignment.rating_for(slot).is_ok();
    let cap = capacity_of(&instance.tutors[j]);
    let used = count_used(plan, j);
    let not_occ = !pair_in_plan(plan, si, j);
    proof {
        lemma_rates_iff_ok(instance.tutors@[j as int].slot_assignment, slot);
    }
    acc_team && acc_tutor && used < cap && not_occ
}

/// The backtracking search: tries every lawful placement of team `k` on
/// top of the partial plan and returns the best complete plan, exactly as
/// `search_from` describes. `deepest` records the deepest team index
/// reached, so a failure can name a team that could not be placed.
#[verifier::rlimit(100)]
fn search_best(
    instance: &Instance,
    teams: &Vec<Team>,
    slots: &Vec<Timeslot>,
    plan: &mut Vec<(usize, usize)>,
    k: usize,
    deepest: &mut usize,
) -> (r: Option<Vec<(usize, usize)>>)
    requires
        instance_wf(*instance),
        forall|m: int|
            0 <= m < teams@.len() ==> (#[trigger] teams@[m]).wf(instance.students@.len() as int),
        (k as int) <= teams@.len(),
        valid_partial(*instance, teams@, slots@, plan_ints(old(plan)@), k as int),
    ensures
        final(plan)@ == old(plan)@,
        *final(deepest) >= *old(deepest),
        *final(deepest) == *old(deepest) || (*final(deepest) as int) < teams@.len(),
        match r {
            None => search_from(*instance, teams@, slots@, plan_ints(old(plan)@), k as int)
                is None,
            Some(p) => search_from(*instance, teams@, slots@, plan_ints(old(plan)@), k as int)
                == Some(plan_ints(p@)),
        },
    decreases teams@.len() - k,
{
    if k == teams.len() {
        return Some(copy_plan(plan));
    }
    if k > *deepest {
        *deepest = k;
    }
    let ghost pls = plan_ints(plan@);
    let ghost inst = *instance;
    let ghost d1 = *deepest;
    let nt = instance.tutors.len();
    let ghost t_int = nt as int;
    let mut best: Option<Vec<(usize, usize)>> = None;
    let mut best_score: u128 = 0;
    let mut si: usize = 0;
    while si < slots.len()
        invariant
            si <= slots@.len(),
            plan@ == old(plan)@,
            *deepest >= d1,
            *deepest == d1 || (*deepest as int) < teams@.len(),
            match best {
                None => search_upto(inst, teams@, slots@, pls, k as int, (si as int) * t_int)
                    is None,
                Some(b) => {
                    &&& search_upto(inst, teams@, slots@, pls, k as int, (si as int) * t_int)
                        == Some(plan_ints(b@))
                    &&& best_score as int == plan_score(inst, teams@, slots@, plan_ints(b@))
                },
            },
        decreases slots@.len() - si,
    {
        let mut j: usize = 0;
        while j < nt
            invariant
                j <= nt,
                si < slots@.len(),
                plan@ == old(plan)@,
                *deepest >= d1,
                *deepest == d1 || (*deepest as int) < teams@.len(),
                match best {
                    None => search_upto(
                        inst,
                        teams@,
                        slots@,
                        pls,
                        k as int,
                        (si as int) * t_int + j as int,
                    ) is None,
                    Some(b) => {
                        &&& search_upto(
                            inst,
                            teams@,
                            slots@,
                            pls,
                            k as int,
                            (si as int) * t_int + j as int,
                        ) == Some(plan_ints(b@))
                        &&& best_score as int == plan_score(inst, teams@, slots@, plan_ints(b@))
                    },
                },
            decreases nt - j,
        {
            let ghost c = (si as int) * t_int + j as int;
            proof {
                assert((si as int) * t_int >= 0) by (nonlinear_arith)
                    requires
                        si as int >= 0,
                        t_int >= 0,
                ;
                lemma_fundamental_div_mod_converse(c, t_int, si as int, j as int);
            }
            let is_cand = is_candidate(instance, teams, slots, plan, k, si, j);
            if is_cand {
                proof {
                    lemma_partial_push(inst, teams@, slots@, pls, k as int, si as int, j as int);
                }
                plan.push((si, j));
                proof {
                    assert(plan_ints(plan@) =~= pls.push((si as int, j as int)));
                }
                let sub = search_best(instance, teams, slots, plan, k + 1, deepest);
                plan.pop();
                proof {
                    assert(plan@ =~= old(plan)@);
                }
                match sub {
                    None => {},
                    Some(svec) => {
                        proof {
                            lemma_search_from_valid(
                                inst,
                                teams@,
                                slots@,
                                pls.push((si as int, j as int)),
                                k + 1,
                            );
                            assert(valid_plan(inst, teams@, slots@, plan_ints(svec@)));
                            assert forall|m: int| 0 <= m < svec@.len() implies (#[trigger] svec@[m]).0
                                < slots@.len() && svec@[m].1 < instance.tutors@.len() by {
                                assert(plan_ints(svec@)[m] == (svec@[m].0 as int, svec@[m].1
                                    as int));
                                assert(placement_ok(inst, teams@, slots@, m, plan_ints(svec@)[m]));
                            }
                        }
                        let sc = plan_score_exec(instance, teams, slots, &svec);
                        let better = match best {
                            None => true,
                            Some(_) => sc > best_score,
                        };
                        if better {
                            best = Some(svec);
                            best_score = sc;
                        }
                    },
                }
            }
            j = j + 1;
        }
        proof {
            assert((si as int + 1) * t_int == (si as int) * t_int + t_int) by (nonlinear_arith);
        }
        si = si + 1;
    }
    proof {
        assert((slots@.len() as int) * t_int == (slots@.len() * instance.tutors@.len()) as int)
            by (nonlinear_arith)
            requires
                t_int == instance.tutors@.len(),
        ;
    }
    best
}

/// Solves an instance: forms the teams, then searches every assignment of
/// teams to tutor-slot pairs that both sides rated, that respect each
/// tutor's whole-session capacity, and that book no tutor twice at one
/// slot. Returns the complete schedule of highest total achieved
/// preference value whenever any complete schedule exists, and otherwise
/// reports infeasibility naming a team that could not be placed.
pub fn solve(instance: &Instance) -> (r: Result<Solution, Infeasible>)
    requires
        instance_wf(*instance),
    ensures
        match r {
            Ok(sol) => {
                &&& spec_plan(*instance) is Some
                &&& sol.testats@ == plan_testats(*instance, plan_of(*instance))
                &&& plan_of(*instance).len() == formed_teams(*instance).len()
                &&& valid_plan(
                    *instance,
                    formed_teams(*instance),
                    instance.spec_slots(),
                    plan_of(*instance),
                )
                &&& forall|q: Seq<(int, int)>|
                    #[trigger] valid_plan(
                        *instance,
                        formed_teams(*instance),
                        instance.spec_slots(),
                        q,
                    ) ==> plan_score(*instance, formed_teams(*instance), instance.spec_slots(), q)
                        <= plan_score(
                        *instance,
                        formed_teams(*instance),
                        instance.spec_slots(),
                        plan_of(*instance),
                    )
            },
            Err(inf) => {
                &&& spec_plan(*instance) is None
                &&& forall|q: Seq<(int, int)>|
                    !#[trigger] valid_plan(
                        *instance,
                        formed_teams(*instance),
                        instance.spec_slots(),
                        q,
                    )
                &&& (inf.team_index as int) < formed_teams(*instance).len()
                &&& inf.team == formed_teams(*instance)[inf.team_index as int]
            },
        },
{
    let ghost inst = *instance;
    let ghost steams = formed_teams(inst);
    let ghost sslots = inst.spec_slots();
    let ns = instance.students.len();
    let teams = match team_up(&instance.students) {
        Ok(ts) => ts,
        Err(_) => {
            proof {
                crate::algo::lemma_first_bad_none(instance.students@, 0);
                assert(false);
            }
            return Err(Infeasible { team_index: 0, team: Team::Single(0) });
        },
    };
    proof {
        assert(teams@ == steams);
        lemma_teams_upto_wf(instance.students@, instance.students@.len() as int);
    }
    let slots = instance.slots();
    let mut plan: Vec<(usize, usize)> = Vec::new();
    let mut deepest: usize = 0;
    proof {
        assert(plan_ints(plan@) =~= Seq::<(int, int)>::empty());
        lemma_empty_partial(inst, steams, sslots);
    }
    match search_best(instance, &teams, &slots, &mut plan, 0, &mut deepest) {
        Some(p) => {
            proof {
                lemma_search_from_valid(inst, steams, sslots, Seq::empty(), 0);
                assert(spec_plan(inst) == Some(plan_ints(p@)));
                assert(plan_of(inst) == plan_ints(p@));
                assert forall|q: Seq<(int, int)>|
                    #[trigger] valid_plan(inst, steams, sslots, q) implies plan_score(
                    inst,
                    steams,
                    sslots,
                    q,
                ) <= plan_score(inst, steams, sslots, plan_of(inst)) by {
                    lemma_search_from_optimal(inst, steams, sslots, q, 0);
                    assert(q.take(0) =~= Seq::<(int, int)>::empty());
                }
            }
            let mut testats: Vec<Testat> = Vec::new();
            let mut k: usize = 0;
            proof {
                assert(testats@ =~= plan_testats(inst, plan_ints(p@)).take(0));
            }
            while k < p.len()
                invariant
                    k <= p@.len(),
                    testats@ == plan_testats(inst, plan_ints(p@)).take(k as int),
                decreases p@.len() - k,
            {
                proof {
                    assert(plan_ints(p@)[k as int] == (p@[k as int].0 as int, p@[k as int].1
                        as int));
                    assert(plan_testats(inst, plan_ints(p@))[k as int] == Testat {
                        slot: sslots[p@[k as int].0 as int],
                        tutor: p@[k as int].1,
                        team: steams[k as int],
                    });
                }
                testats.push(
                    Testat { slot: slots[p[k].0], tutor: p[k].1, team: teams[k] },
                );
                proof {
                    assert(testats@ =~= plan_testats(inst, plan_ints(p@)).take(k + 1));
                }
                k = k + 1;
            }
            proof {
                assert(plan_testats(inst, plan_ints(p@)).take(p@.len() as int) =~= plan_testats(
                    inst,
                    plan_ints(p@),
                ));
            }
            Ok(Solution { testats })
        },
        None => {
            proof {
                assert(spec_plan(inst) is None);
                assert forall|q: Seq<(int, int)>|
                    !#[trigger] valid_plan(inst, steams, sslots, q) by {
                    if valid_plan(inst, steams, sslots, q) {
                        lemma_search_from_complete(inst, steams, sslots, q, 0);
                        assert(q.take(0) =~= Seq::<(int, int)>::empty());
                    }
                }
                assert(steams.len() > 0);
                assert((deepest as int) < steams.len());
            }
            Err(Infeasible { team_index: deepest, team: teams[deepest] })
        },
    }
}

/// Law: the solver is deterministic. Its plan is a pure function of the
/// instance — among equally good plans the earliest slot, then the
/// earliest tutor wins — so two schedules computed for one instance are
/// the same.
pub proof fn lemma_solve_deterministic(inst: Instance, s1: Solution, s2: Solution)
    requires
        s1.testats@ == plan_testats(inst, plan_of(inst)),
        s2.testats@ == plan_testats(inst, plan_of(inst)),
    ensures
        s1.testats@ == s2.testats@,
{
}

/// Law: whenever any lawful complete assignment exists, the solver
/// completes: its plan is lawful and covers every team exactly once.
pub proof fn lemma_solver_feasible(inst: Instance)
    requires
        exists|q: Seq<(int, int)>|
            #[trigger] valid_plan(inst, formed_teams(inst), inst.spec_slots(), q),
    ensures
        spec_plan(inst) is Some,
        plan_of(inst).len() == formed_teams(inst).len(),
        valid_plan(inst, formed_teams(inst), inst.spec_slots(), plan_of(inst)),
{
    let teams = formed_teams(inst);
    let slots = inst.spec_slots();
    let q = choose|q: Seq<(int, int)>| #[trigger] valid_plan(inst, teams, slots, q);
    lemma_search_from_complete(inst, teams, slots, q, 0);
    assert(q.take(0) =~= Seq::<(int, int)>::empty());
    lemma_empty_partial(inst, teams, slots);
    lemma_search_from_valid(inst, teams, slots, Seq::empty(), 0);
}

/// Law: the solver's plan maximises the total achieved preference value
/// over every lawful complete assignment.
pub proof fn lemma_solver_optimal(inst: Instance, q: Seq<(int, int)>)
    requires
        valid_plan(inst, formed_teams(inst), inst.spec_slots(), q),
    ensures
        spec_plan(inst) is Some,
        plan_score(inst, formed_teams(inst), inst.spec_slots(), q) <= plan_score(
            inst,
            formed_teams(inst),
            inst.spec_slots(),
            plan_of(inst),
        ),
{
    let teams = formed_teams(inst);
    let slots = inst.spec_slots();
    lemma_search_from_optimal(inst, teams, slots, q, 0);
    assert(q.take(0) =~= Seq::<(int, int)>::empty());
}

/// Law: a team for which every mutually acceptable tutor-slot pair offers
/// no capacity can never be covered by any lawful plan.
pub proof fn lemma_zero_capacity_unschedulable(inst: Instance, k: int)
    requires
        0 <= k < formed_teams(inst).len(),
        forall|si: int, j: int|
            0 <= si < inst.spec_slots().len() && 0 <= j < inst.tutors@.len() && team_accepts(
                inst.students@,
                formed_teams(inst)[k],
                inst.spec_slots()[si],
            ) && (#[trigger] inst.tutors@[j]).slot_assignment.rates(
                #[trigger] inst.spec_slots()[si],
            ) ==> tutor_capacity(inst.tutors@[j]) <= 0,
    ensures
        forall|pls: Seq<(int, int)>|
            !(#[trigger] valid_plan(inst, formed_teams(inst), inst.spec_slots(), pls)),
{
    let teams = formed_teams(inst);
    let slots = inst.spec_slots();
    assert forall|pls: Seq<(int, int)>| !(#[trigger] valid_plan(inst, teams, slots, pls)) by {
        if valid_plan(inst, teams, slots, pls) {
            let c = pls[k];
            assert(placement_ok(inst, teams, slots, k, c));
            lemma_used_count_pos(pls, k);
            assert(used_count(pls, c.1) <= tutor_capacity(inst.tutors@[c.1]));
            assert(tutor_capacity(inst.tutors@[c.1]) <= 0);
        }
    }
}

/// Law: the solver reports infeasibility — naming a team — whenever some
/// team has no mutually acceptable tutor-slot pair with any capacity; it
/// never drops the team from a partial result.
pub proof fn lemma_solver_reports_infeasible(inst: Instance, k: int)
    requires
        0 <= k < formed_teams(inst).len(),
        forall|si: int, j: int|
            0 <= si < inst.spec_slots().len() && 0 <= j < inst.tutors@.len() && team_accepts(
                inst.students@,
                formed_teams(inst)[k],
                inst.spec_slots()[si],
            ) && (#[trigger] inst.tutors@[j]).slot_assignment.rates(
                #[trigger] inst.spec_slots()[si],
            ) ==> tutor_capacity(inst.tutors@[j]) <= 0,
    ensures
        spec_plan(inst) is None,
{
    let teams = formed_teams(inst);
    let slots = inst.spec_slots();
    lemma_zero_capacity_unschedulable(inst, k);
    match spec_plan(inst) {
        Some(p) => {
            lemma_empty_partial(inst, teams, slots);
            lemma_search_from_valid(inst, teams, slots, Seq::empty(), 0);
            assert(!valid_plan(inst, teams, slots, p));
        },
        None => {},
    }
}

} // verus!
