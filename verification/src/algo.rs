//! Weighted preference aggregation: rating weights, team formation, and
//! per-slot demand and supply.
//!
//! Weights are exact integers in half units (`Good` = 2, `Tolerable` = 1,
//! `NotFitting` = 0), and per-team slot values in quarter units, so that
//! the mean of two member weights stays an integer. Demand and supply are
//! exact fractions; the half and quarter units cancel in every quotient,
//! so the fractions equal the real-valued quantities they stand for.

use vstd::prelude::*;

use crate::types::{
    SlotAssignment, SlotRating, Student, Team, Timeslot, Tutor, lemma_intersect_membership,
    lemma_lookup_entry, lemma_lookup_first, lemma_lookup_none, lemma_rates_iff_ok, slot_lookup,
    spec_intersect,
};

verus! {

/// How many testats one whole stelle is expected to deliver.
pub const TESTATS_PER_STELLE: u64 = 1;

/// The weight of a rating, in half units: `Good` counts as a full
/// alternative (2), `Tolerable` as half of one (1), `NotFitting` as none.
pub open spec fn spec_rating_value(r: SlotRating) -> int {
    match r {
        SlotRating::Good => 2,
        SlotRating::Tolerable => 1,
        SlotRating::NotFitting => 0,
    }
}

/// The weight of a rating, in half units.
pub fn rating_value(rating: SlotRating) -> (v: u64)
    ensures
        v as int == spec_rating_value(rating),
{
    match rating {
        SlotRating::Good => 2,
        SlotRating::Tolerable => 1,
        SlotRating::NotFitting => 0,
    }
}

/// The weight of every rating is one of no, half of one, or one whole
/// alternative, and depends on the rating alone.
pub proof fn lemma_rating_value_range(r: SlotRating)
    ensures
        spec_rating_value(r) == 0 || spec_rating_value(r) == 1 || spec_rating_value(r) == 2,
        spec_rating_value(r) == 0 <==> r == SlotRating::NotFitting,
{
}

/// The sum of the stored ratings' weights, in half units.
pub open spec fn spec_alternatives(entries: Seq<(Timeslot, SlotRating)>) -> int
    decreases entries.len(),
{
    if entries.len() == 0 {
        0
    } else {
        spec_alternatives(entries.drop_last()) + spec_rating_value(entries.last().1)
    }
}

/// The alternatives sum is bounded by twice the number of entries.
pub proof fn lemma_alternatives_bounds(entries: Seq<(Timeslot, SlotRating)>)
    ensures
        0 <= spec_alternatives(entries) <= 2 * entries.len(),
    decreases entries.len(),
{
    if entries.len() > 0 {
        lemma_alternatives_bounds(entries.drop_last());
    }
}

/// The alternatives sum dominates the weight of each single entry.
pub proof fn lemma_alternatives_ge_entry(entries: Seq<(Timeslot, SlotRating)>, i: int)
    requires
        0 <= i < entries.len(),
    ensures
        spec_alternatives(entries) >= spec_rating_value(entries[i].1),
    decreases entries.len(),
{
    if i == entries.len() - 1 {
        lemma_alternatives_bounds(entries.drop_last());
    } else {
        assert(entries.drop_last()[i] == entries[i]);
        lemma_alternatives_ge_entry(entries.drop_last(), i);
    }
}

/// The total number of alternatives a person has, in half units: the sum
/// of the weights of all their rated slots.
pub fn number_of_alternatives(ratings: &SlotAssignment) -> (a: u64)
    requires
        2 * ratings.entries().len() <= u64::MAX,
    ensures
        a as int == spec_alternatives(ratings.entries()),
{
    let mut a: u64 = 0;
    let mut i: usize = 0;
    while i < ratings.ratings.len()
        invariant
            i <= ratings.entries().len(),
            a as int == spec_alternatives(ratings.entries().take(i as int)),
            a <= 2 * i,
        decreases ratings.entries().len() - i,
    {
        proof {
            assert(ratings.entries().take(i + 1).drop_last() =~= ratings.entries().take(i as int));
            assert(ratings.entries().take(i + 1).last() == ratings.entries()[i as int]);
        }
        a = a + rating_value(ratings.ratings[i].1);
        i = i + 1;
    }
    proof {
        assert(ratings.entries().take(ratings.entries().len() as int) =~= ratings.entries());
    }
    a
}

/// An exact non-negative fraction; `den` is positive. Fractions produced
/// by the aggregators are not reduced: compare them with `eq_frac`.
#[derive(Clone, Copy, PartialEq, Eq, Structural, Debug)]
pub struct Frac {
    pub num: u64,
    pub den: u64,
}

/// Whether the fractions `n1 / d1` and `n2 / d2` have the same value.
pub open spec fn rat_eq(n1: int, d1: int, n2: int, d2: int) -> bool {
    n1 * d2 == n2 * d1
}

impl Frac {
    /// Whether `self` and `other` stand for the same rational value.
    pub fn eq_frac(&self, other: &Frac) -> (r: bool)
        ensures
            r == rat_eq(self.num as int, self.den as int, other.num as int, other.den as int),
    {
        proof {
            assert((self.num as int) * (other.den as int) <= u64::MAX * u64::MAX)
                by (nonlinear_arith)
                requires
                    self.num <= u64::MAX,
                    other.den <= u64::MAX,
            ;
            assert((other.num as int) * (self.den as int) <= u64::MAX * u64::MAX)
                by (nonlinear_arith)
                requires
                    other.num <= u64::MAX,
                    self.den <= u64::MAX,
            ;
        }
        (self.num as u128) * (other.den as u128) == (other.num as u128) * (self.den as u128)
    }
}

/// Whether every student's slot assignment is well-formed.
pub open spec fn students_wf(students: Seq<Student>) -> bool {
    forall|i: int|
        0 <= i < students.len() ==> (#[trigger] students[i]).slot_assignment.wf()
}

/// The entries of `entries` with the values widened to `int`.
pub open spec fn int_entries(entries: Seq<(Timeslot, u64)>) -> Seq<(Timeslot, int)> {
    entries.map_values(|p: (Timeslot, u64)| (p.0, p.1 as int))
}

/// A team's per-slot values, in quarter units. For a single student, every
/// rated slot with twice its weight; for a pair, every mutually rated slot
/// with the sum of the two members' weights, which is twice the mean.
pub open spec fn team_entries(students: Seq<Student>, team: Team) -> Seq<(Timeslot, int)> {
    match team {
        Team::Single(a) => students[a as int].slot_assignment.entries().map_values(
            |p: (Timeslot, SlotRating)| (p.0, 2 * spec_rating_value(p.1)),
        ),
        Team::Full(a, b) => {
            let sa = students[a as int].slot_assignment;
            let sb = students[b as int].slot_assignment;
            spec_intersect(sa.entries(), sb.entries()).map_values(
                |s: Timeslot|
                    (
                        s,
                        spec_rating_value(sa.spec_rating_for(s)) + spec_rating_value(
                            sb.spec_rating_for(s),
                        ),
                    ),
            )
        },
    }
}

/// Every per-slot value of a well-formed team lies between 2 and 4 quarter
/// units: a slot is listed only when every member finds it usable.
pub proof fn lemma_team_entries_values(students: Seq<Student>, team: Team)
    requires
        students_wf(students),
        team.wf(students.len() as int),
    ensures
        forall|k: int|
            0 <= k < team_entries(students, team).len() ==> 2 <= (#[trigger] team_entries(
                students,
                team,
            )[k]).1 <= 4,
{
    let tv = team_entries(students, team);
    match team {
        Team::Single(a) => {
            let sa = students[a as int].slot_assignment;
            assert forall|k: int| 0 <= k < tv.len() implies 2 <= (#[trigger] tv[k]).1 <= 4 by {
                assert(sa.entries()[k].1 != SlotRating::NotFitting);
            }
        },
        Team::Full(a, b) => {
            let sa = students[a as int].slot_assignment;
            let sb = students[b as int].slot_assignment;
            let inter = spec_intersect(sa.entries(), sb.entries());
            assert forall|k: int| 0 <= k < tv.len() implies 2 <= (#[trigger] tv[k]).1 <= 4 by {
                let s = inter[k];
                assert(inter.contains(s));
                lemma_intersect_membership(sa.entries(), sb.entries(), s);
                lemma_rates_iff_ok(sa, s);
                lemma_rates_iff_ok(sb, s);
            }
        },
    }
}

/// The sum of a team's per-slot values, in quarter units.
pub open spec fn sum_values(entries: Seq<(Timeslot, int)>) -> int
    decreases entries.len(),
{
    if entries.len() == 0 {
        0
    } else {
        sum_values(entries.drop_last()) + entries.last().1
    }
}

/// A sum of non-negative values dominates each single value.
pub proof fn lemma_sum_values_ge_entry(entries: Seq<(Timeslot, int)>, i: int)
    requires
        forall|k: int| 0 <= k < entries.len() ==> (#[trigger] entries[k]).1 >= 0,
        0 <= i < entries.len(),
    ensures
        sum_values(entries) >= entries[i].1,
    decreases entries.len(),
{
    assert(forall|k: int| 0 <= k < entries.len() - 1 ==> entries.drop_last()[k] == entries[k]);
    if i == entries.len() - 1 {
        lemma_sum_values_nonneg(entries.drop_last());
    } else {
        lemma_sum_values_ge_entry(entries.drop_last(), i);
    }
}

/// A sum of non-negative values is non-negative.
pub proof fn lemma_sum_values_nonneg(entries: Seq<(Timeslot, int)>)
    requires
        forall|k: int| 0 <= k < entries.len() ==> (#[trigger] entries[k]).1 >= 0,
    ensures
        sum_values(entries) >= 0,
    decreases entries.len(),
{
    if entries.len() > 0 {
        assert(forall|k: int|
            0 <= k < entries.len() - 1 ==> entries.drop_last()[k] == entries[k]);
        lemma_sum_values_nonneg(entries.drop_last());
    }
}

/// A team's per-slot values, in quarter units, as plain data.
pub fn team_rating_values(team: &Team, students: &Vec<Student>) -> (r: Vec<(Timeslot, u64)>)
    requires
        team.wf(students@.len() as int),
    ensures
        int_entries(r@) == team_entries(students@, *team),
{
    let ghost tv = team_entries(students@, *team);
    match *team {
        Team::Single(a) => {
            let sa = &students[a].slot_assignment;
            let mut r: Vec<(Timeslot, u64)> = Vec::new();
            let mut i: usize = 0;
            while i < sa.ratings.len()
                invariant
                    i <= sa.entries().len(),
                    int_entries(r@) == tv.take(i as int),
                decreases sa.entries().len() - i,
            {
                let v = 2 * rating_value(sa.ratings[i].1);
                r.push((sa.ratings[i].0, v));
                proof {
                    assert(tv[i as int] == (sa.entries()[i as int].0, 2 * spec_rating_value(
                        sa.entries()[i as int].1,
                    )));
                    assert(int_entries(r@) =~= tv.take(i + 1));
                }
                i = i + 1;
            }
            proof {
                assert(tv.take(tv.len() as int) =~= tv);
            }
            r
        },
        Team::Full(a, b) => {
            let inter = students[a].slot_assignment.intersect(&students[b].slot_assignment);
            let mut r: Vec<(Timeslot, u64)> = Vec::new();
            let mut i: usize = 0;
            while i < inter.len()
                invariant
                    i <= inter@.len(),
                    int_entries(r@) == tv.take(i as int),
                decreases inter@.len() - i,
            {
                let slot = inter[i];
                let v = rating_value(students[a].slot_assignment.rating_for(slot))
                    + rating_value(students[b].slot_assignment.rating_for(slot));
                r.push((slot, v));
                proof {
                    assert(tv[i as int] == (inter@[i as int], spec_rating_value(
                        students@[a as int].slot_assignment.spec_rating_for(slot),
                    ) + spec_rating_value(
                        students@[b as int].slot_assignment.spec_rating_for(slot),
                    )));
                    assert(int_entries(r@) =~= tv.take(i + 1));
                }
                i = i + 1;
            }
            proof {
                assert(tv.take(tv.len() as int) =~= tv);
            }
            r
        },
    }
}

/// The exact demand at `slot` contributed by the first teams, as an
/// unreduced fraction over `int`: each team with a value at the slot adds
/// `value * members / sum of its values`, others add nothing.
pub open spec fn spec_demand(slot: Timeslot, teams: Seq<Team>, students: Seq<Student>) -> (
    int,
    int,
)
    decreases teams.len(),
{
    if teams.len() == 0 {
        (0int, 1int)
    } else {
        let prev = spec_demand(slot, teams.drop_last(), students);
        let tv = team_entries(students, teams.last());
        match slot_lookup(tv, slot) {
            None => prev,
            Some(v) => {
                let alt = sum_values(tv);
                let m = teams.last().spec_members();
                (prev.0 * alt + v * m * prev.1, prev.1 * alt)
            },
        }
    }
}

/// Whether the demand fold stays within `u64` at every step: a machine
/// limit, not a property of the mathematics.
pub open spec fn demand_fits(slot: Timeslot, teams: Seq<Team>, students: Seq<Student>) -> bool
    decreases teams.len(),
{
    if teams.len() == 0 {
        true
    } else {
        let prev = spec_demand(slot, teams.drop_last(), students);
        let tv = team_entries(students, teams.last());
        demand_fits(slot, teams.drop_last(), students) && match slot_lookup(tv, slot) {
            None => true,
            Some(v) => {
                let alt = sum_values(tv);
                let m = teams.last().spec_members();
                prev.0 * alt + v * m * prev.1 <= u64::MAX && prev.1 * alt <= u64::MAX
            },
        }
    }
}

/// The demand fraction is non-negative with a positive denominator.
pub proof fn lemma_demand_wf(slot: Timeslot, teams: Seq<Team>, students: Seq<Student>)
    requires
        students_wf(students),
        forall|k: int| 0 <= k < teams.len() ==> (#[trigger] teams[k]).wf(students.len() as int),
    ensures
        spec_demand(slot, teams, students).0 >= 0,
        spec_demand(slot, teams, students).1 >= 1,
    decreases teams.len(),
{
    if teams.len() > 0 {
        assert(forall|k: int| 0 <= k < teams.len() - 1 ==> teams.drop_last()[k] == teams[k]);
        lemma_demand_wf(slot, teams.drop_last(), students);
        let prev = spec_demand(slot, teams.drop_last(), students);
        let tv = team_entries(students, teams.last());
        lemma_team_entries_values(students, teams.last());
        match slot_lookup(tv, slot) {
            None => {},
            Some(v) => {
                lemma_lookup_entry(tv, slot);
                let i = choose|i: int| 0 <= i < tv.len() && #[trigger] tv[i] == (slot, v);
                lemma_sum_values_ge_entry(tv, i);
                let alt = sum_values(tv);
                let m = teams.last().spec_members();
                assert(alt >= 2);
                assert(prev.0 * alt >= 0) by (nonlinear_arith)
                    requires
                        prev.0 >= 0,
                        alt >= 2,
                ;
                assert(v * m * prev.1 >= 0) by (nonlinear_arith)
                    requires
                        v >= 2,
                        m >= 1,
                        prev.1 >= 1,
                ;
                assert(prev.1 * alt >= 1) by (nonlinear_arith)
                    requires
                        prev.1 >= 1,
                        alt >= 2,
                ;
            },
        }
    }
}

/// A fold that fits also fits on every prefix.
pub proof fn lemma_demand_fits_prefix(
    slot: Timeslot,
    teams: Seq<Team>,
    students: Seq<Student>,
    n: int,
)
    requires
        demand_fits(slot, teams, students),
        0 <= n <= teams.len(),
    ensures
        demand_fits(slot, teams.take(n), students),
    decreases teams.len() - n,
{
    if n == teams.len() {
        assert(teams.take(n) =~= teams);
    } else {
        lemma_demand_fits_prefix(slot, teams, students, n + 1);
        assert(teams.take(n + 1).drop_last() =~= teams.take(n));
    }
}

/// The demand at `slot` over `teams`, as an exact fraction. Each team with
/// a value at the slot contributes its value there, times its member
/// count, divided by the sum of its values over all its viable slots.
pub fn compute_demand(slot: Timeslot, teams: &Vec<Team>, students: &Vec<Student>) -> (r: Frac)
    requires
        students_wf(students@),
        forall|k: int|
            0 <= k < teams@.len() ==> (#[trigger] teams@[k]).wf(students@.len() as int),
        demand_fits(slot, teams@, students@),
    ensures
        (r.num as int, r.den as int) == spec_demand(slot, teams@, students@),
        r.den >= 1,
{
    let mut num: u64 = 0;
    let mut den: u64 = 1;
    let mut k: usize = 0;
    while k < teams.len()
        invariant
            k <= teams@.len(),
            (num as int, den as int) == spec_demand(slot, teams@.take(k as int), students@),
            den >= 1,
        decreases teams@.len() - k,
    {
        let ghost prefix = teams@.take(k as int);
        let ghost next = teams@.take(k + 1);
        proof {
            assert(next.drop_last() =~= prefix);
            assert(next.last() == teams@[k as int]);
            lemma_demand_fits_prefix(slot, teams@, students@, k + 1);
            lemma_demand_wf(slot, prefix, students@);
        }
        let team = teams[k];
        let trv = team_rating_values(&team, students);
        let ghost tv = team_entries(students@, team);
        proof {
            lemma_team_entries_values(students@, team);
        }
        let found = lookup_value(&trv, slot);
        match found {
            None => {},
            Some(v) => {
                let m = team.members();
                let alt = total_value(&trv);
                let ghost n0 = num as int;
                let ghost d0 = den as int;
                let ghost vi = v as int;
                let ghost mi = m as int;
                let ghost alti = alt as int;
                proof {
                    lemma_lookup_entry(tv, slot);
                    let i = choose|i: int| 0 <= i < tv.len() && #[trigger] tv[i] == (slot, vi);
                    lemma_sum_values_ge_entry(tv, i);
                    assert(n0 * alti + vi * mi * d0 <= u64::MAX);
                    assert(d0 * alti <= u64::MAX);
                    assert(n0 * alti >= 0) by (nonlinear_arith)
                        requires
                            n0 >= 0,
                            alti >= 0,
                    ;
                    assert(vi * mi * d0 >= 0) by (nonlinear_arith)
                        requires
                            vi >= 0,
                            mi >= 0,
                            d0 >= 0,
                    ;
                    assert(d0 * alti >= 1) by (nonlinear_arith)
                        requires
                            d0 >= 1,
                            alti >= 2,
                    ;
                }
                let num128: u128 = (num as u128) * alt + (v as u128) * (m as u128) * (den
                    as u128);
                let den128: u128 = (den as u128) * alt;
                num = num128 as u64;
                den = den128 as u64;
            },
        }
        k = k + 1;
    }
    proof {
        assert(teams@.take(teams@.len() as int) =~= teams@);
    }
    Frac { num, den }
}

/// The value stored under `slot`, scanning from the front.
fn lookup_value(entries: &Vec<(Timeslot, u64)>, slot: Timeslot) -> (r: Option<u64>)
    ensures
        match r {
            Some(v) => slot_lookup(int_entries(entries@), slot) == Some(v as int),
            None => slot_lookup(int_entries(entries@), slot) is None,
        },
{
    let ghost tv = int_entries(entries@);
    let mut i: usize = 0;
    while i < entries.len()
        invariant
            i <= entries@.len(),
            forall|j: int| 0 <= j < i ==> (#[trigger] tv[j]).0 != slot,
        decreases entries@.len() - i,
    {
        if entries[i].0 == slot {
            proof {
                assert(tv[i as int] == (slot, entries@[i as int].1 as int));
                lemma_lookup_first(tv, slot, i as int);
            }
            return Some(entries[i].1);
        }
        proof {
            assert(tv[i as int].0 == entries@[i as int].0);
        }
        i = i + 1;
    }
    proof {
        lemma_lookup_none(tv, slot);
    }
    None
}

/// The first roster index at or after `i` whose student is named `name`.
pub open spec fn find_by_name(students: Seq<Student>, name: Seq<char>, i: int) -> Option<int>
    decreases students.len() - i,
{
    if i < 0 || i >= students.len() {
        None
    } else if students[i].name@ == name {
        Some(i)
    } else {
        find_by_name(students, name, i + 1)
    }
}

/// Whether student `j` declares `name` as their partner.
pub open spec fn partner_matches(students: Seq<Student>, j: int, name: Seq<char>) -> bool {
    match students[j].partner {
        Some(q) => q@ == name,
        None => false,
    }
}

/// Whether student `i`'s partner wish, if any, resolves to another student
/// who wishes for `i` in return.
pub open spec fn formation_ok_at(students: Seq<Student>, i: int) -> bool {
    match students[i].partner {
        None => true,
        Some(p) => match find_by_name(students, p@, 0) {
            None => false,
            Some(j) => j != i && partner_matches(students, j, students[i].name@),
        },
    }
}

/// Why a roster could not be grouped into teams; each variant carries the
/// roster index of the student whose partner wish failed.
#[derive(Clone, Copy, PartialEq, Eq, Structural, Debug)]
pub enum FormationError {
    /// The student names a partner no student has.
    UnknownPartner(usize),
    /// The student names themselves as partner.
    SelfPartner(usize),
    /// The student's wished partner does not wish for them in return.
    AsymmetricPartner(usize),
}

/// The error raised for student `i` when their partner wish fails.
pub open spec fn formation_error_at(students: Seq<Student>, i: int) -> FormationError {
    match students[i].partner {
        None => FormationError::UnknownPartner(i as usize),
        Some(p) => match find_by_name(students, p@, 0) {
            None => FormationError::UnknownPartner(i as usize),
            Some(j) => if j == i {
                FormationError::SelfPartner(i as usize)
            } else {
                FormationError::AsymmetricPartner(i as usize)
            },
        },
    }
}

/// The team emitted when student `i` is reached, if any: a single team for
/// an unpartnered student, a full team when the partner stands later in
/// the roster, and nothing when the pair was already emitted earlier.
pub open spec fn emits_at(students: Seq<Student>, i: int) -> Option<Team> {
    match students[i].partner {
        None => Some(Team::Single(i as usize)),
        Some(p) => match find_by_name(students, p@, 0) {
            Some(j) => if j > i {
                Some(Team::Full(i as usize, j as usize))
            } else {
                None
            },
            None => None,
        },
    }
}

/// The teams emitted for the first `n` students, in roster order.
pub open spec fn spec_teams_upto(students: Seq<Student>, n: int) -> Seq<Team>
    decreases n,
{
    if n <= 0 {
        Seq::empty()
    } else {
        spec_teams_upto(students, n - 1) + match emits_at(students, n - 1) {
            Some(t) => seq![t],
            None => Seq::empty(),
        }
    }
}

/// The first roster index at or after `i` whose partner wish fails.
pub open spec fn first_bad(students: Seq<Student>, i: int) -> Option<int>
    decreases students.len() - i,
{
    if i < 0 || i >= students.len() {
        None
    } else if !formation_ok_at(students, i) {
        Some(i)
    } else {
        first_bad(students, i + 1)
    }
}

/// What grouping the roster into teams yields: the emitted teams, or the
/// error of the first student whose partner wish fails.
pub open spec fn spec_team_up(students: Seq<Student>) -> Result<Seq<Team>, FormationError> {
    match first_bad(students, 0) {
        Some(i) => Err(formation_error_at(students, i)),
        None => Ok(spec_teams_upto(students, students.len() as int)),
    }
}

/// The first failing index is `i` when everything before it is fine.
pub proof fn lemma_first_bad_at(students: Seq<Student>, k: int, i: int)
    requires
        0 <= k <= i < students.len(),
        forall|j: int| k <= j < i ==> formation_ok_at(students, j),
        !formation_ok_at(students, i),
    ensures
        first_bad(students, k) == Some(i),
    decreases i - k,
{
    if k < i {
        lemma_first_bad_at(students, k + 1, i);
    }
}

/// No index fails when every student's wish is fine.
pub proof fn lemma_first_bad_none(students: Seq<Student>, k: int)
    requires
        0 <= k,
        forall|j: int| k <= j < students.len() ==> formation_ok_at(students, j),
    ensures
        first_bad(students, k) is None,
    decreases students.len() - k,
{
    if k < students.len() {
        lemma_first_bad_none(students, k + 1);
    }
}

/// A name search finds the first match.
pub proof fn lemma_find_found(students: Seq<Student>, name: Seq<char>, k: int, i: int)
    requires
        0 <= k <= i < students.len(),
        students[i].name@ == name,
        forall|j: int| k <= j < i ==> (#[trigger] students[j]).name@ != name,
    ensures
        find_by_name(students, name, k) == Some(i),
    decreases i - k,
{
    if k < i {
        lemma_find_found(students, name, k + 1, i);
    }
}

/// A name search misses when no student has the name.
pub proof fn lemma_find_none(students: Seq<Student>, name: Seq<char>, k: int)
    requires
        0 <= k,
        forall|j: int| k <= j < students.len() ==> (#[trigger] students[j]).name@ != name,
    ensures
        find_by_name(students, name, k) is None,
    decreases students.len() - k,
{
    if k < students.len() {
        lemma_find_none(students, name, k + 1);
    }
}

/// A successful name search returns a student with that name.
pub proof fn lemma_find_valid(students: Seq<Student>, name: Seq<char>, k: int)
    requires
        0 <= k,
        find_by_name(students, name, k) is Some,
    ensures
        k <= find_by_name(students, name, k).unwrap() < students.len(),
        students[find_by_name(students, name, k).unwrap()].name@ == name,
    decreases students.len() - k,
{
    if k < students.len() && students[k].name@ != name {
        lemma_find_valid(students, name, k + 1);
    }
}

/// The first roster index of a student named `name`.
fn find_student(students: &Vec<Student>, name: &String) -> (r: Option<usize>)
    ensures
        match r {
            Some(j) => find_by_name(students@, name@, 0) == Some(j as int),
            None => find_by_name(students@, name@, 0) is None,
        },
{
    let mut i: usize = 0;
    while i < students.len()
        invariant
            i <= students@.len(),
            forall|j: int| 0 <= j < i ==> (#[trigger] students@[j]).name@ != name@,
        decreases students@.len() - i,
    {
        if students[i].name == *name {
            proof {
                lemma_find_found(students@, name@, 0, i as int);
            }
            return Some(i);
        }
        i = i + 1;
    }
    proof {
        lemma_find_none(students@, name@, 0);
    }
    None
}

/// Groups the roster into teams. Unpartnered students become single teams;
/// mutually wished pairs become one full team, emitted when the earlier of
/// the two members is reached. The first unresolvable, self-directed or
/// unreciprocated partner wish is reported as an error.
pub fn team_up(students: &Vec<Student>) -> (r: Result<Vec<Team>, FormationError>)
    ensures
        match r {
            Ok(teams) => {
                &&& first_bad(students@, 0) is None
                &&& teams@ == spec_teams_upto(students@, students@.len() as int)
            },
            Err(e) => {
                &&& first_bad(students@, 0) is Some
                &&& e == formation_error_at(students@, first_bad(students@, 0).unwrap())
            },
        },
{
    let n = students.len();
    let mut teams: Vec<Team> = Vec::new();
    let mut i: usize = 0;
    while i < n
        invariant
            i <= n,
            n == students@.len(),
            forall|j: int| 0 <= j < i ==> formation_ok_at(students@, j),
            teams@ == spec_teams_upto(students@, i as int),
        decreases n - i,
    {
        match &students[i].partner {
            None => {
                teams.push(Team::Single(i));
                proof {
                    assert(teams@ =~= spec_teams_upto(students@, i + 1));
                }
            },
            Some(pname) => {
                let found = find_student(students, pname);
                match found {
                    None => {
                        proof {
                            lemma_first_bad_at(students@, 0, i as int);
                        }
                        return Err(FormationError::UnknownPartner(i));
                    },
                    Some(j) => {
                        proof {
                            lemma_find_valid(students@, pname@, 0);
                        }
                        if j == i {
                            proof {
                                lemma_first_bad_at(students@, 0, i as int);
                            }
                            return Err(FormationError::SelfPartner(i));
                        }
                        let sym = match &students[j].partner {
                            Some(q) => *q == students[i].name,
                            None => false,
                        };
                        if !sym {
                            proof {
                                lemma_first_bad_at(students@, 0, i as int);
                            }
                            return Err(FormationError::AsymmetricPartner(i));
                        }
                        if j > i {
                            teams.push(Team::Full(i, j));
                            proof {
                                assert(teams@ =~= spec_teams_upto(students@, i + 1));
                            }
                        } else {
                            proof {
                                assert(teams@ =~= spec_teams_upto(students@, i + 1));
                            }
                        }
                    },
                }
            },
        }
        i = i + 1;
    }
    proof {
        lemma_first_bad_none(students@, 0);
    }
    Ok(teams)
}

/// Whether all student names are pairwise different.
pub open spec fn unique_names(students: Seq<Student>) -> bool {
    forall|i: int, j: int|
        0 <= i < j < students.len() ==> (#[trigger] students[i]).name@ != (
        #[trigger] students[j]).name@
}

/// Every team emitted for a roster whose wishes resolve is well-formed:
/// member indices lie in the roster and a pair holds two students.
pub proof fn lemma_teams_upto_wf(students: Seq<Student>, n: int)
    requires
        0 <= n <= students.len(),
        students.len() <= usize::MAX,
        forall|j: int| 0 <= j < n ==> formation_ok_at(students, j),
    ensures
        forall|k: int|
            0 <= k < spec_teams_upto(students, n).len() ==> (#[trigger] spec_teams_upto(
                students,
                n,
            )[k]).wf(students.len() as int),
    decreases n,
{
    if n > 0 {
        lemma_teams_upto_wf(students, n - 1);
        let prev = spec_teams_upto(students, n - 1);
        match emits_at(students, n - 1) {
            None => {
                assert(spec_teams_upto(students, n) =~= prev);
            },
            Some(t) => {
                match students[n - 1].partner {
                    None => {},
                    Some(p) => {
                        lemma_find_valid(students, p@, 0);
                    },
                }
                assert(t.wf(students.len() as int));
                assert(forall|k: int|
                    0 <= k < prev.len() ==> spec_teams_upto(students, n)[k] == prev[k]);
                assert(spec_teams_upto(students, n)[prev.len() as int] == t);
            },
        }
    }
}

/// How many testats a tutor is expected to deliver, in half units.
pub open spec fn tutor_expected(t: Tutor) -> int {
    t.scale_factor * (TESTATS_PER_STELLE as int)
}

/// A tutor must not be expected to deliver more testats than they have
/// weighted slot capacity to offer.
pub open spec fn tutor_capacity_ok(t: Tutor) -> bool {
    tutor_expected(t) <= spec_alternatives(t.slot_assignment.entries())
}

/// The exact supply at `slot` offered by the tutors, as an unreduced
/// fraction over `int`: each tutor adds `value * expected / alternatives`,
/// where all three are in half units, so the fraction carries an extra
/// factor of two in the denominator.
pub open spec fn spec_supply(slot: Timeslot, tutors: Seq<Tutor>) -> (int, int)
    decreases tutors.len(),
{
    if tutors.len() == 0 {
        (0int, 1int)
    } else {
        let prev = spec_supply(slot, tutors.drop_last());
        let t = tutors.last();
        let v = spec_rating_value(t.slot_assignment.spec_rating_for(slot));
        if v == 0 {
            prev
        } else {
            let e = tutor_expected(t);
            let a = spec_alternatives(t.slot_assignment.entries());
            (prev.0 * (2 * a) + v * e * prev.1, prev.1 * (2 * a))
        }
    }
}

/// Whether the supply fold stays within `u64` at every step: a machine
/// limit, not a property of the mathematics.
pub open spec fn supply_fits(slot: Timeslot, tutors: Seq<Tutor>) -> bool
    decreases tutors.len(),
{
    if tutors.len() == 0 {
        true
    } else {
        let prev = spec_supply(slot, tutors.drop_last());
        let t = tutors.last();
        let v = spec_rating_value(t.slot_assignment.spec_rating_for(slot));
        supply_fits(slot, tutors.drop_last()) && (v == 0 || {
            let e = tutor_expected(t);
            let a = spec_alternatives(t.slot_assignment.entries());
            prev.0 * (2 * a) + v * e * prev.1 <= u64::MAX && prev.1 * (2 * a) <= u64::MAX
        })
    }
}

/// A fold that fits also fits on every prefix.
pub proof fn lemma_supply_fits_prefix(slot: Timeslot, tutors: Seq<Tutor>, n: int)
    requires
        supply_fits(slot, tutors),
        0 <= n <= tutors.len(),
    ensures
        supply_fits(slot, tutors.take(n)),
    decreases tutors.len() - n,
{
    if n == tutors.len() {
        assert(tutors.take(n) =~= tutors);
    } else {
        lemma_supply_fits_prefix(slot, tutors, n + 1);
        assert(tutors.take(n + 1).drop_last() =~= tutors.take(n));
    }
}

/// Why supply aggregation was refused.
#[derive(Clone, Copy, PartialEq, Eq, Structural, Debug)]
pub enum SupplyError {
    /// The tutor at this roster index is expected to deliver more testats
    /// than their weighted slot capacity offers.
    CapacityExceeded { tutor: usize },
}

/// The supply at `slot` offered by the tutors, as an exact fraction. Each
/// tutor spreads their expected testats over their rated slots in
/// proportion to the weights; a tutor expected to deliver more than their
/// alternatives allow is reported as an error.
pub fn compute_supply(slot: Timeslot, tutors: &Vec<Tutor>) -> (r: Result<Frac, SupplyError>)
    requires
        forall|k: int|
            0 <= k < tutors@.len() ==> (#[trigger] tutors@[k]).slot_assignment.wf(),
        forall|k: int|
            0 <= k < tutors@.len() ==> 2 * (#[trigger] tutors@[k]).slot_assignment.entries().len()
                <= u64::MAX,
        supply_fits(slot, tutors@),
    ensures
        match r {
            Ok(f) => {
                &&& forall|k: int|
                    0 <= k < tutors@.len() ==> tutor_capacity_ok(#[trigger] tutors@[k])
                &&& (f.num as int, f.den as int) == spec_supply(slot, tutors@)
                &&& f.den >= 1
            },
            Err(SupplyError::CapacityExceeded { tutor }) => {
                &&& (tutor as int) < tutors@.len()
                &&& !tutor_capacity_ok(tutors@[tutor as int])
                &&& forall|k: int|
                    0 <= k < tutor as int ==> tutor_capacity_ok(#[trigger] tutors@[k])
            },
        },
{
    let mut num: u64 = 0;
    let mut den: u64 = 1;
    let mut k: usize = 0;
    while k < tutors.len()
        invariant
            k <= tutors@.len(),
            (num as int, den as int) == spec_supply(slot, tutors@.take(k as int)),
            den >= 1,
            forall|j: int| 0 <= j < k ==> tutor_capacity_ok(#[trigger] tutors@[j]),
        decreases tutors@.len() - k,
    {
        let ghost prefix = tutors@.take(k as int);
        let ghost next = tutors@.take(k + 1);
        proof {
            assert(next.drop_last() =~= prefix);
            assert(next.last() == tutors@[k as int]);
            lemma_supply_fits_prefix(slot, tutors@, k + 1);
        }
        let t = &tutors[k];
        let v = rating_value(t.slot_assignment.rating_for(slot));
        let expected_testats = t.scale_factor * TESTATS_PER_STELLE;
        let alternatives = number_of_alternatives(&t.slot_assignment);
        if expected_testats > alternatives {
            return Err(SupplyError::CapacityExceeded { tutor: k });
        }
        if v > 0 {
            let ghost n0 = num as int;
            let ghost d0 = den as int;
            let ghost vi = v as int;
            let ghost ei = expected_testats as int;
            let ghost ai = alternatives as int;
            proof {
                assert(n0 * (2 * ai) + vi * ei * d0 <= u64::MAX);
                assert(d0 * (2 * ai) <= u64::MAX);
                assert(n0 * (2 * ai) >= 0) by (nonlinear_arith)
                    requires
                        n0 >= 0,
                        ai >= 0,
                ;
                assert(vi * ei * d0 >= 0) by (nonlinear_arith)
                    requires
                        vi >= 0,
                        ei >= 0,
                        d0 >= 0,
                ;
                assert(d0 * (2 * ai) >= 0) by (nonlinear_arith)
                    requires
                        d0 >= 1,
                        ai >= 0,
                ;
            }
            let num128: u128 = (num as u128) * (2 * (alternatives as u128)) + (v as u128) * (
            expected_testats as u128) * (den as u128);
            let den128: u128 = (den as u128) * (2 * (alternatives as u128));
            num = num128 as u64;
            den = den128 as u64;
            proof {
                assert(ai >= 1) by {
                    crate::types::lemma_lookup_has(
                        tutors@[k as int].slot_assignment.entries(),
                        slot,
                    );
                    lemma_lookup_entry(tutors@[k as int].slot_assignment.entries(), slot);
                    let i = choose|i: int|
                        0 <= i < tutors@[k as int].slot_assignment.entries().len()
                            && #[trigger] tutors@[k as int].slot_assignment.entries()[i] == (
                        slot,
                        slot_lookup(tutors@[k as int].slot_assignment.entries(), slot).unwrap(),
                        );
                    lemma_alternatives_ge_entry(tutors@[k as int].slot_assignment.entries(), i);
                }
                assert(d0 * (2 * ai) >= 1) by (nonlinear_arith)
                    requires
                        d0 >= 1,
                        ai >= 1,
                ;
            }
        }
        k = k + 1;
    }
    proof {
        assert(tutors@.take(tutors@.len() as int) =~= tutors@);
    }
    Ok(Frac { num, den })
}

/// How many of the teams contain the student with roster index `s`.
pub open spec fn count_teams_with(teams: Seq<Team>, s: int) -> int
    decreases teams.len(),
{
    if teams.len() == 0 {
        0
    } else {
        count_teams_with(teams.drop_last(), s) + if teams.last().spec_contains(s) {
            1int
        } else {
            0int
        }
    }
}

/// The roster index at which student `s`'s team is emitted: their own
/// index when single or when their partner stands later, else the
/// partner's index.
pub open spec fn owner_index(students: Seq<Student>, s: int) -> int {
    match students[s].partner {
        None => s,
        Some(p) => match find_by_name(students, p@, 0) {
            Some(j) => if j < s {
                j
            } else {
                s
            },
            None => s,
        },
    }
}

/// With unique names, searching for a student's own name finds them.
pub proof fn lemma_find_self(students: Seq<Student>, k: int)
    requires
        unique_names(students),
        0 <= k < students.len(),
    ensures
        find_by_name(students, students[k].name@, 0) == Some(k),
{
    assert(forall|j: int|
        0 <= j < k ==> (#[trigger] students[j]).name@ != students[k].name@);
    lemma_find_found(students, students[k].name@, 0, k);
}

/// Among the teams emitted for the first `n` students, student `s` stands
/// in exactly one team when their team's emission index lies below `n`,
/// and in none otherwise.
pub proof fn lemma_teams_upto_contains(students: Seq<Student>, s: int, n: int)
    requires
        unique_names(students),
        forall|i: int| 0 <= i < students.len() ==> formation_ok_at(students, i),
        students.len() <= usize::MAX,
        0 <= s < students.len(),
        0 <= n <= students.len(),
    ensures
        count_teams_with(spec_teams_upto(students, n), s) == if owner_index(students, s) < n {
            1int
        } else {
            0int
        },
    decreases n,
{
    assert(owner_index(students, s) >= 0) by {
        assert(formation_ok_at(students, s));
        match students[s].partner {
            None => {},
            Some(p) => {
                lemma_find_valid(students, p@, 0);
            },
        }
    }
    if n > 0 {
        lemma_teams_upto_contains(students, s, n - 1);
        let prev = spec_teams_upto(students, n - 1);
        let i = n - 1;
        assert(formation_ok_at(students, i));
        assert(formation_ok_at(students, s));
        match emits_at(students, i) {
            None => {
                assert(spec_teams_upto(students, n) =~= prev);
                // No team is emitted at i, so i owns nobody's team.
                if owner_index(students, s) == i {
                    if s == i {
                        // i's own partner stands earlier, so i's owner is that index.
                        assert(false);
                    } else {
                        // s's partner is i and i < s; by symmetry i's wish names s,
                        // which stands after i, so i would emit a full team.
                        match students[s].partner {
                            None => {
                                assert(false);
                            },
                            Some(p) => {
                                lemma_find_valid(students, p@, 0);
                                assert(find_by_name(students, p@, 0) == Some(i));
                                match students[i].partner {
                                    None => {
                                        assert(false);
                                    },
                                    Some(q) => {
                                        assert(q@ == students[s].name@);
                                        lemma_find_self(students, s);
                                        assert(find_by_name(students, q@, 0) == Some(s));
                                        assert(false);
                                    },
                                }
                            },
                        }
                    }
                }
            },
            Some(t) => {
                assert(spec_teams_upto(students, n) =~= prev.push(t));
                assert(prev.push(t).drop_last() =~= prev);
                assert(prev.push(t).last() == t);
                // The emitted team contains s exactly when i owns s's team.
                assert(t.spec_contains(s) <==> owner_index(students, s) == i) by {
                    match students[i].partner {
                        None => {
                            // t is Single(i).
                            if s == i {
                                assert(owner_index(students, s) == i);
                            }
                            if s != i && owner_index(students, s) == i {
                                // s's partner would be i, but i wishes for nobody.
                                match students[s].partner {
                                    None => {
                                        assert(false);
                                    },
                                    Some(p) => {
                                        lemma_find_valid(students, p@, 0);
                                        assert(find_by_name(students, p@, 0) == Some(i));
                                        assert(false);
                                    },
                                }
                            }
                        },
                        Some(p) => {
                            // t is Full(i, j) with j the partner of i, j > i.
                            lemma_find_valid(students, p@, 0);
                            let j = find_by_name(students, p@, 0).unwrap();
                            assert(students[j].name@ == p@);
                            if s == i {
                                assert(owner_index(students, s) == i);
                            }
                            if s == j {
                                // j's wish names i, whose index is found exactly.
                                match students[j].partner {
                                    None => {
                                        assert(false);
                                    },
                                    Some(q) => {
                                        assert(q@ == students[i].name@);
                                        lemma_find_self(students, i);
                                        assert(owner_index(students, s) == i);
                                    },
                                }
                            }
                            if s != i && s != j && owner_index(students, s) == i {
                                // s's partner would be i, but i's partner is j.
                                match students[s].partner {
                                    None => {
                                        assert(false);
                                    },
                                    Some(ps) => {
                                        lemma_find_valid(students, ps@, 0);
                                        assert(find_by_name(students, ps@, 0) == Some(i));
                                        assert(students[i].name@ == ps@);
                                        match students[i].partner {
                                            None => {
                                                assert(false);
                                            },
                                            Some(q) => {
                                                assert(q@ == students[s].name@);
                                                assert(q == p);
                                                lemma_find_self(students, s);
                                                assert(j == s);
                                                assert(false);
                                            },
                                        }
                                    },
                                }
                            }
                        },
                    }
                }
            },
        }
    }
}

/// Law: on a roster with unique names whose partner wishes all resolve
/// mutually, every student stands in exactly one of the formed teams.
pub proof fn lemma_team_up_partition(students: Seq<Student>, s: int)
    requires
        unique_names(students),
        forall|i: int| 0 <= i < students.len() ==> formation_ok_at(students, i),
        students.len() <= usize::MAX,
        0 <= s < students.len(),
    ensures
        count_teams_with(spec_teams_upto(students, students.len() as int), s) == 1,
{
    lemma_teams_upto_contains(students, s, students.len() as int);
    assert(formation_ok_at(students, s));
    match students[s].partner {
        None => {},
        Some(p) => {
            lemma_find_valid(students, p@, 0);
        },
    }
}

/// Every emitted team arises from some roster index below `n`.
pub proof fn lemma_teams_upto_member(students: Seq<Student>, n: int, k: int)
    requires
        0 <= n <= students.len(),
        0 <= k < spec_teams_upto(students, n).len(),
    ensures
        exists|i: int|
            0 <= i < n && #[trigger] emits_at(students, i) == Some(
                spec_teams_upto(students, n)[k],
            ),
    decreases n,
{
    if n > 0 {
        let prev = spec_teams_upto(students, n - 1);
        if k < prev.len() {
            lemma_teams_upto_member(students, n - 1, k);
        } else {
            assert(emits_at(students, n - 1) == Some(spec_teams_upto(students, n)[k]));
        }
    }
}

/// Law: the two members of every formed full team wish for each other.
pub proof fn lemma_team_up_symmetry(students: Seq<Student>, k: int)
    requires
        unique_names(students),
        forall|i: int| 0 <= i < students.len() ==> formation_ok_at(students, i),
        students.len() <= usize::MAX,
        0 <= k < spec_teams_upto(students, students.len() as int).len(),
    ensures
        match spec_teams_upto(students, students.len() as int)[k] {
            Team::Full(a, b) => {
                &&& (a as int) < (b as int) < students.len()
                &&& partner_matches(students, a as int, students[b as int].name@)
                &&& partner_matches(students, b as int, students[a as int].name@)
            },
            Team::Single(_) => true,
        },
{
    let n = students.len() as int;
    lemma_teams_upto_member(students, n, k);
    let i = choose|i: int|
        0 <= i < n && #[trigger] emits_at(students, i) == Some(spec_teams_upto(students, n)[k]);
    assert(formation_ok_at(students, i));
    match spec_teams_upto(students, n)[k] {
        Team::Single(_) => {},
        Team::Full(a, b) => {
            match students[i].partner {
                None => {
                    assert(false);
                },
                Some(p) => {
                    lemma_find_valid(students, p@, 0);
                },
            }
        },
    }
}

/// The roster index of student `i`'s declared partner, or -1 when they
/// declare none or the name resolves to nobody.
pub open spec fn partner_index(students: Seq<Student>, i: int) -> int {
    match students[i].partner {
        Some(p) => match find_by_name(students, p@, 0) {
            Some(j) => j,
            None => -1,
        },
        None => -1,
    }
}

/// How many of the first `n` students declare a partner.
pub open spec fn paired_count(students: Seq<Student>, n: int) -> int
    decreases n,
{
    if n <= 0 {
        0
    } else {
        paired_count(students, n - 1) + if students[n - 1].partner is Some {
            1int
        } else {
            0int
        }
    }
}

/// How many of the first `n` students have a partner at index `m` or
/// beyond.
pub open spec fn count_partner_ge(students: Seq<Student>, n: int, m: int) -> int
    decreases n,
{
    if n <= 0 {
        0
    } else {
        count_partner_ge(students, n - 1, m) + if students[n - 1].partner is Some
            && partner_index(students, n - 1) >= m {
            1int
        } else {
            0int
        }
    }
}

/// How many of the first `n` students have a partner at index `m` exactly.
pub open spec fn count_partner_eq(students: Seq<Student>, n: int, m: int) -> int
    decreases n,
{
    if n <= 0 {
        0
    } else {
        count_partner_eq(students, n - 1, m) + if students[n - 1].partner is Some
            && partner_index(students, n - 1) == m {
            1int
        } else {
            0int
        }
    }
}

/// How many of the first `n` students have a partner standing later in
/// the roster than themselves.
pub open spec fn count_pairs_ahead(students: Seq<Student>, n: int) -> int
    decreases n,
{
    if n <= 0 {
        0
    } else {
        count_pairs_ahead(students, n - 1) + if students[n - 1].partner is Some
            && partner_index(students, n - 1) > n - 1 {
            1int
        } else {
            0int
        }
    }
}

/// How many of the first `n` students have a partner standing earlier in
/// the roster than themselves.
pub open spec fn count_pairs_behind(students: Seq<Student>, n: int) -> int
    decreases n,
{
    if n <= 0 {
        0
    } else {
        count_pairs_behind(students, n - 1) + if students[n - 1].partner is Some
            && partner_index(students, n - 1) < n - 1 {
            1int
        } else {
            0int
        }
    }
}

/// On a valid roster the partner relation is an involution without fixed
/// points: a partnered student's partner is another student who points
/// straight back.
pub proof fn lemma_partner_involution(students: Seq<Student>, i: int)
    requires
        unique_names(students),
        forall|k: int| 0 <= k < students.len() ==> formation_ok_at(students, k),
        0 <= i < students.len(),
        students[i].partner is Some,
    ensures
        0 <= partner_index(students, i) < students.len(),
        partner_index(students, i) != i,
        students[partner_index(students, i)].partner is Some,
        partner_index(students, partner_index(students, i)) == i,
{
    assert(formation_ok_at(students, i));
    match students[i].partner {
        None => {},
        Some(p) => {
            lemma_find_valid(students, p@, 0);
            let j = find_by_name(students, p@, 0).unwrap();
            match students[j].partner {
                None => {
                    assert(false);
                },
                Some(q) => {
                    assert(q@ == students[i].name@);
                    lemma_find_self(students, i);
                },
            }
        },
    }
}

/// At most one student points at roster index `m`: their partner, when
/// that partner stands within the first `n` students.
pub proof fn lemma_count_partner_eq(students: Seq<Student>, n: int, m: int)
    requires
        unique_names(students),
        forall|k: int| 0 <= k < students.len() ==> formation_ok_at(students, k),
        0 <= n <= students.len(),
        0 <= m < students.len(),
    ensures
        count_partner_eq(students, n, m) == if students[m].partner is Some && partner_index(
            students,
            m,
        ) < n {
            1int
        } else {
            0int
        },
    decreases n,
{
    if students[m].partner is Some {
        lemma_partner_involution(students, m);
    }
    if n > 0 {
        lemma_count_partner_eq(students, n - 1, m);
        let i = n - 1;
        if students[i].partner is Some && partner_index(students, i) == m {
            lemma_partner_involution(students, i);
        }
    }
}

/// Splitting the threshold: at or beyond `m` is exactly at `m`, or at or
/// beyond `m + 1`.
pub proof fn lemma_count_ge_split(students: Seq<Student>, n: int, m: int)
    requires
        0 <= n,
    ensures
        count_partner_ge(students, n, m) == count_partner_eq(students, n, m) + count_partner_ge(
            students,
            n,
            m + 1,
        ),
    decreases n,
{
    if n > 0 {
        lemma_count_ge_split(students, n - 1, m);
    }
}

/// Nobody's partner stands at or beyond the roster's end.
pub proof fn lemma_count_ge_len(students: Seq<Student>, n: int)
    requires
        unique_names(students),
        forall|k: int| 0 <= k < students.len() ==> formation_ok_at(students, k),
        0 <= n <= students.len(),
    ensures
        count_partner_ge(students, n, students.len() as int) == 0,
    decreases n,
{
    if n > 0 {
        lemma_count_ge_len(students, n - 1);
        if students[n - 1].partner is Some {
            lemma_partner_involution(students, n - 1);
        }
    }
}

/// Among the first `n` students, those whose partner stands later number
/// those whose partner stands earlier, plus those whose partner stands at
/// `n` or beyond.
pub proof fn lemma_pairs_cross(students: Seq<Student>, n: int)
    requires
        unique_names(students),
        forall|k: int| 0 <= k < students.len() ==> formation_ok_at(students, k),
        0 <= n <= students.len(),
    ensures
        count_pairs_ahead(students, n) == count_pairs_behind(students, n) + count_partner_ge(
            students,
            n,
            n,
        ),
    decreases n,
{
    if n > 0 {
        lemma_pairs_cross(students, n - 1);
        let i = n - 1;
        lemma_count_ge_split(students, n - 1, n - 1);
        lemma_count_partner_eq(students, n - 1, n - 1);
        if students[i].partner is Some {
            lemma_partner_involution(students, i);
        }
    }
}

/// One team is emitted per unpartnered student and per pair, counted at
/// the earlier member.
pub proof fn lemma_teams_upto_len(students: Seq<Student>, n: int)
    requires
        forall|k: int| 0 <= k < students.len() ==> formation_ok_at(students, k),
        0 <= n <= students.len(),
    ensures
        spec_teams_upto(students, n).len() == n - paired_count(students, n) + count_pairs_ahead(
            students,
            n,
        ),
    decreases n,
{
    if n > 0 {
        lemma_teams_upto_len(students, n - 1);
        assert(formation_ok_at(students, n - 1));
    }
}

/// Law: on a valid roster the number of formed teams is the number of
/// students, less one per mutually partnered pair.
pub proof fn lemma_team_up_count(students: Seq<Student>)
    requires
        unique_names(students),
        forall|k: int| 0 <= k < students.len() ==> formation_ok_at(students, k),
    ensures
        paired_count(students, students.len() as int) % 2 == 0,
        spec_teams_upto(students, students.len() as int).len() == students.len() - paired_count(
            students,
            students.len() as int,
        ) / 2,
{
    let n = students.len() as int;
    lemma_teams_upto_len(students, n);
    lemma_pairs_cross(students, n);
    lemma_count_ge_len(students, n);
    assert(paired_count(students, n) == count_pairs_ahead(students, n) + count_pairs_behind(
        students,
        n,
    )) by {
        lemma_paired_split(students, n);
    }
}

/// Every partnered student's partner stands strictly earlier or later.
pub proof fn lemma_paired_split(students: Seq<Student>, n: int)
    requires
        unique_names(students),
        forall|k: int| 0 <= k < students.len() ==> formation_ok_at(students, k),
        0 <= n <= students.len(),
    ensures
        paired_count(students, n) == count_pairs_ahead(students, n) + count_pairs_behind(
            students,
            n,
        ),
    decreases n,
{
    if n > 0 {
        lemma_paired_split(students, n - 1);
        if students[n - 1].partner is Some {
            lemma_partner_involution(students, n - 1);
        }
    }
}

/// Law: a team whose whole preference mass lies on one slot contributes
/// exactly its member count to the demand at that slot.
pub proof fn lemma_demand_single_option(slot: Timeslot, team: Team, students: Seq<Student>)
    requires
        students_wf(students),
        team.wf(students.len() as int),
        team_entries(students, team).len() == 1,
        team_entries(students, team)[0].0 == slot,
    ensures
        rat_eq(
            spec_demand(slot, seq![team], students).0,
            spec_demand(slot, seq![team], students).1,
            team.spec_members(),
            1,
        ),
{
    let tv = team_entries(students, team);
    let v = tv[0].1;
    let m = team.spec_members();
    assert(slot_lookup(tv, slot) == Some(v));
    assert(tv.drop_last() =~= Seq::<(Timeslot, int)>::empty());
    assert(tv.last() == tv[0]);
    assert(sum_values(tv.drop_last()) == 0);
    assert(sum_values(tv) == v);
    let teams = seq![team];
    assert(teams.drop_last() =~= Seq::<Team>::empty());
    assert(teams.last() == team);
    assert(spec_demand(slot, teams.drop_last(), students) == (0int, 1int));
    assert(spec_demand(slot, teams, students) == (0 * v + v * m * 1, 1 * v));
    assert((0 * v + v * m * 1) * 1 == m * (1 * v)) by (nonlinear_arith);
}

/// Law: a tutor expected to deliver exactly as many testats as their
/// alternatives allow, with a single good slot, supplies exactly their
/// expected testats at that slot.
pub proof fn lemma_supply_saturated(slot: Timeslot, t: Tutor)
    requires
        t.slot_assignment.wf(),
        t.slot_assignment.entries().len() == 1,
        t.slot_assignment.entries()[0] == (slot, SlotRating::Good),
        tutor_expected(t) == spec_alternatives(t.slot_assignment.entries()),
    ensures
        rat_eq(
            spec_supply(slot, seq![t]).0,
            spec_supply(slot, seq![t]).1,
            tutor_expected(t),
            2,
        ),
{
    let entries = t.slot_assignment.entries();
    assert(slot_lookup(entries, slot) == Some(SlotRating::Good));
    assert(entries.drop_last() =~= Seq::<(Timeslot, SlotRating)>::empty());
    assert(entries.last() == entries[0]);
    assert(spec_alternatives(entries.drop_last()) == 0);
    assert(spec_alternatives(entries) == 2);
    let tutors = seq![t];
    assert(tutors.drop_last() =~= Seq::<Tutor>::empty());
    assert(tutors.last() == t);
    assert(spec_supply(slot, tutors.drop_last()) == (0int, 1int));
    assert(t.slot_assignment.spec_rating_for(slot) == SlotRating::Good);
    assert(spec_supply(slot, tutors) == (0 * (2 * 2) + 2 * tutor_expected(t) * 1, (1 * (2 * 2)) as int));
}


/// The demand at `slot`, or `None` when the exact fold would leave the
/// fraction's machine words: the runtime test of the machine limit that
/// `compute_demand` asks of its callers.
pub fn try_compute_demand(slot: Timeslot, teams: &Vec<Team>, students: &Vec<Student>) -> (r:
    Option<Frac>)
    requires
        students_wf(students@),
        forall|k: int|
            0 <= k < teams@.len() ==> (#[trigger] teams@[k]).wf(students@.len() as int),
    ensures
        r is Some <==> demand_fits(slot, teams@, students@),
        match r {
            Some(f) => {
                &&& (f.num as int, f.den as int) == spec_demand(slot, teams@, students@)
                &&& f.den >= 1
            },
            None => true,
        },
{
    let mut num: u64 = 0;
    let mut den: u64 = 1;
    let mut k: usize = 0;
    while k < teams.len()
        invariant
            k <= teams@.len(),
            demand_fits(slot, teams@.take(k as int), students@),
            (num as int, den as int) == spec_demand(slot, teams@.take(k as int), students@),
            den >= 1,
        decreases teams@.len() - k,
    {
        let ghost prefix = teams@.take(k as int);
        let ghost next = teams@.take(k + 1);
        proof {
            assert(next.drop_last() =~= prefix);
            assert(next.last() == teams@[k as int]);
            lemma_demand_wf(slot, prefix, students@);
        }
        let team = teams[k];
        let trv = team_rating_values(&team, students);
        let ghost tv = team_entries(students@, team);
        proof {
            lemma_team_entries_values(students@, team);
        }
        let found = lookup_value(&trv, slot);
        match found {
            None => {},
            Some(v) => {
                let m = team.members();
                let alt = total_value(&trv);
                let ghost n0 = num as int;
                let ghost d0 = den as int;
                let ghost vi = v as int;
                let ghost mi = m as int;
                let ghost alti = alt as int;
                proof {
                    lemma_lookup_entry(tv, slot);
                    let i = choose|i: int| 0 <= i < tv.len() && #[trigger] tv[i] == (slot, vi);
                    lemma_sum_values_ge_entry(tv, i);
                }
                if alt > (u64::MAX as u128) {
                    proof {
                        assert(d0 * alti > u64::MAX) by (nonlinear_arith)
                            requires
                                d0 >= 1,
                                alti > u64::MAX,
                        ;
                        if demand_fits(slot, teams@, students@) {
                            lemma_demand_fits_prefix(slot, teams@, students@, k + 1);
                        }
                    }
                    return None;
                }
                proof {
                    assert(n0 * alti <= u128::MAX && n0 * alti >= 0) by (nonlinear_arith)
                        requires
                            0 <= n0 <= u64::MAX,
                            0 <= alti <= u64::MAX,
                    ;
                    assert(vi * mi * d0 >= 0 && vi * mi * d0 <= 8 * u64::MAX && 8 * u64::MAX
                        <= u128::MAX) by (nonlinear_arith)
                        requires
                            0 <= vi <= 4,
                            0 <= mi <= 2,
                            0 <= d0 <= u64::MAX,
                    ;
                    assert(d0 * alti <= u128::MAX && d0 * alti >= 1) by (nonlinear_arith)
                        requires
                            1 <= d0 <= u64::MAX,
                            2 <= alti <= u64::MAX,
                    ;
                }
                let na: u128 = (num as u128) * alt;
                let vmd: u128 = (v as u128) * (m as u128) * (den as u128);
                let den128: u128 = (den as u128) * alt;
                if na > (u64::MAX as u128) || vmd > (u64::MAX as u128) || na + vmd > (u64::MAX
                    as u128) || den128 > (u64::MAX as u128) {
                    proof {
                        if demand_fits(slot, teams@, students@) {
                            lemma_demand_fits_prefix(slot, teams@, students@, k + 1);
                        }
                    }
                    return None;
                }
                num = (na + vmd) as u64;
                den = den128 as u64;
            },
        }
        k = k + 1;
    }
    proof {
        assert(teams@.take(teams@.len() as int) =~= teams@);
    }
    Some(Frac { num, den })
}

/// The sum of the stored ratings' weights, in half units, over words wide
/// enough for any roster.
fn alternatives_u128(ratings: &SlotAssignment) -> (a: u128)
    ensures
        a as int == spec_alternatives(ratings.entries()),
        a <= 2 * ratings.entries().len(),
{
    let mut a: u128 = 0;
    let mut i: usize = 0;
    while i < ratings.ratings.len()
        invariant
            i <= ratings.entries().len(),
            a as int == spec_alternatives(ratings.entries().take(i as int)),
            a <= 2 * i,
        decreases ratings.entries().len() - i,
    {
        proof {
            assert(ratings.entries().take(i + 1).drop_last() =~= ratings.entries().take(i as int));
            assert(ratings.entries().take(i + 1).last() == ratings.entries()[i as int]);
        }
        a = a + (rating_value(ratings.ratings[i].1) as u128);
        i = i + 1;
    }
    proof {
        assert(ratings.entries().take(ratings.entries().len() as int) =~= ratings.entries());
    }
    a
}

/// The supply at `slot`, or `None` when the exact fold would leave the
/// fraction's machine words: the runtime test of the machine limit that
/// `compute_supply` asks of its callers. A tutor expected to deliver more
/// than their alternatives allow is still reported, as `compute_supply`
/// does.
pub fn try_compute_supply(slot: Timeslot, tutors: &Vec<Tutor>) -> (r: Option<
    Result<Frac, SupplyError>,
>)
    requires
        forall|k: int|
            0 <= k < tutors@.len() ==> (#[trigger] tutors@[k]).slot_assignment.wf(),
    ensures
        supply_fits(slot, tutors@) ==> r is Some,
        r is None ==> !supply_fits(slot, tutors@),
        match r {
            Some(Ok(f)) => {
                &&& forall|k: int|
                    0 <= k < tutors@.len() ==> tutor_capacity_ok(#[trigger] tutors@[k])
                &&& (f.num as int, f.den as int) == spec_supply(slot, tutors@)
                &&& f.den >= 1
            },
            Some(Err(SupplyError::CapacityExceeded { tutor })) => {
                &&& (tutor as int) < tutors@.len()
                &&& !tutor_capacity_ok(tutors@[tutor as int])
                &&& forall|k: int|
                    0 <= k < tutor as int ==> tutor_capacity_ok(#[trigger] tutors@[k])
            },
            None => true,
        },
{
    let mut num: u64 = 0;
    let mut den: u64 = 1;
    let mut k: usize = 0;
    while k < tutors.len()
        invariant
            k <= tutors@.len(),
            supply_fits(slot, tutors@.take(k as int)),
            (num as int, den as int) == spec_supply(slot, tutors@.take(k as int)),
            den >= 1,
            forall|j: int| 0 <= j < k ==> tutor_capacity_ok(#[trigger] tutors@[j]),
        decreases tutors@.len() - k,
    {
        let ghost prefix = tutors@.take(k as int);
        let ghost next = tutors@.take(k + 1);
        proof {
            assert(next.drop_last() =~= prefix);
            assert(next.last() == tutors@[k as int]);
        }
        let t = &tutors[k];
        let v = rating_value(t.slot_assignment.rating_for(slot));
        let expected_testats = t.scale_factor * TESTATS_PER_STELLE;
        let alternatives = alternatives_u128(&t.slot_assignment);
        if (expected_testats as u128) > alternatives {
            return Some(Err(SupplyError::CapacityExceeded { tutor: k }));
        }
        if v > 0 {
            let ghost n0 = num as int;
            let ghost d0 = den as int;
            let ghost vi = v as int;
            let ghost ei = expected_testats as int;
            let ghost ai = alternatives as int;
            proof {
                assert(ai >= 1) by {
                    crate::types::lemma_lookup_has(
                        tutors@[k as int].slot_assignment.entries(),
                        slot,
                    );
                    lemma_lookup_entry(tutors@[k as int].slot_assignment.entries(), slot);
                    let i = choose|i: int|
                        0 <= i < tutors@[k as int].slot_assignment.entries().len()
                            && #[trigger] tutors@[k as int].slot_assignment.entries()[i] == (
                        slot,
                        slot_lookup(tutors@[k as int].slot_assignment.entries(), slot).unwrap(),
                        );
                    lemma_alternatives_ge_entry(tutors@[k as int].slot_assignment.entries(), i);
                }
            }
            if alternatives > ((u64::MAX / 2) as u128) {
                proof {
                    assert(d0 * (2 * ai) > u64::MAX) by (nonlinear_arith)
                        requires
                            d0 >= 1,
                            ai > u64::MAX / 2,
                    ;
                    if supply_fits(slot, tutors@) {
                        lemma_supply_fits_prefix(slot, tutors@, k + 1);
                    }
                }
                return None;
            }
            let a2: u128 = 2 * alternatives;
            proof {
                assert(n0 * (2 * ai) <= u128::MAX && n0 * (2 * ai) >= 0) by (nonlinear_arith)
                    requires
                        0 <= n0 <= u64::MAX,
                        0 <= 2 * ai <= u64::MAX,
                ;
                assert(d0 * (2 * ai) <= u128::MAX && d0 * (2 * ai) >= 2) by (nonlinear_arith)
                    requires
                        1 <= d0 <= u64::MAX,
                        2 <= 2 * ai <= u64::MAX,
                ;
                assert(vi * ei >= 0 && vi * ei <= u128::MAX) by (nonlinear_arith)
                    requires
                        0 <= vi <= 2,
                        0 <= ei <= u64::MAX,
                ;
            }
            let ve: u128 = (v as u128) * (expected_testats as u128);
            if ve > (u64::MAX as u128) {
                proof {
                    assert(vi * ei * d0 >= vi * ei) by (nonlinear_arith)
                        requires
                            vi * ei >= 0,
                            d0 >= 1,
                    ;
                    assert(n0 * (2 * ai) >= 0) by (nonlinear_arith)
                        requires
                            n0 >= 0,
                            ai >= 0,
                    ;
                    if supply_fits(slot, tutors@) {
                        lemma_supply_fits_prefix(slot, tutors@, k + 1);
                    }
                }
                return None;
            }
            proof {
                assert(vi * ei * d0 == (vi * ei) * d0 && (vi * ei) * d0 <= u128::MAX && (vi * ei)
                    * d0 >= 0) by (nonlinear_arith)
                    requires
                        0 <= vi * ei <= u64::MAX,
                        0 <= d0 <= u64::MAX,
                ;
            }
            let na: u128 = (num as u128) * a2;
            let vmd: u128 = ve * (den as u128);
            let den128: u128 = (den as u128) * a2;
            if na > (u64::MAX as u128) || vmd > (u64::MAX as u128) || na + vmd > (u64::MAX
                as u128) || den128 > (u64::MAX as u128) {
                proof {
                    if supply_fits(slot, tutors@) {
                        lemma_supply_fits_prefix(slot, tutors@, k + 1);
                    }
                }
                return None;
            }
            num = (na + vmd) as u64;
            den = den128 as u64;
        }
        k = k + 1;
    }
    proof {
        assert(tutors@.take(tutors@.len() as int) =~= tutors@);
    }
    Some(Ok(Frac { num, den }))
}

/// The sum of the stored values, for values out of `[0, 4]`.
fn total_value(entries: &Vec<(Timeslot, u64)>) -> (s: u128)
    requires
        forall|k: int|
            0 <= k < int_entries(entries@).len() ==> 0 <= (#[trigger] int_entries(entries@)[k]).1
                <= 4,
    ensures
        s as int == sum_values(int_entries(entries@)),
        s <= 4 * entries@.len(),
{
    let ghost tv = int_entries(entries@);
    let mut s: u128 = 0;
    let mut i: usize = 0;
    while i < entries.len()
        invariant
            i <= entries@.len(),
            s as int == sum_values(tv.take(i as int)),
            s <= 4 * i,
        decreases entries@.len() - i,
    {
        proof {
            assert(tv.take(i + 1).drop_last() =~= tv.take(i as int));
            assert(tv.take(i + 1).last() == tv[i as int]);
            assert(tv[i as int] == (entries@[i as int].0, entries@[i as int].1 as int));
        }
        s = s + (entries[i].1 as u128);
        i = i + 1;
    }
    proof {
        assert(tv.take(tv.len() as int) =~= tv);
    }
    s
}

} // verus!
