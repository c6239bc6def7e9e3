//! Data model: weekdays, timeslots, slot ratings, per-person slot
//! assignments, students, tutors, the aggregate `Instance`, teams, and the
//! solver's output types `Testat` and `Solution`.

use vstd::prelude::*;

verus! {

/// One of the five weekdays on which a slot can lie.
#[derive(Clone, Copy, PartialEq, Eq, Structural, Debug, Hash)]
pub enum WorkDay {
    Monday,
    Tuesday,
    Wednesday,
    Thursday,
    Friday,
}

/// How well a single timeslot suits a person.
#[derive(Clone, Copy, PartialEq, Eq, Structural, Debug)]
pub enum SlotRating {
    Good,
    Tolerable,
    NotFitting,
}

impl SlotRating {
    /// Whether this rating marks the slot as usable at all.
    pub open spec fn spec_is_ok(self) -> bool {
        self != SlotRating::NotFitting
    }

    pub fn is_ok(&self) -> (r: bool)
        ensures
            r == self.spec_is_ok(),
    {
        match *self {
            SlotRating::NotFitting => false,
            _ => true,
        }
    }
}

/// A fixed calendar slot: a weekday together with the slot's index within
/// that day.
#[derive(Clone, Copy, PartialEq, Eq, Structural, Debug, Hash)]
pub struct Timeslot {
    pub day: WorkDay,
    pub slot_of_day: u16,
}

/// The value stored under `slot` in an association list, scanning from the
/// front; `None` if the slot is not a key.
pub open spec fn slot_lookup<V>(entries: Seq<(Timeslot, V)>, slot: Timeslot) -> Option<V>
    decreases entries.len(),
{
    if entries.len() == 0 {
        None
    } else if entries[0].0 == slot {
        Some(entries[0].1)
    } else {
        slot_lookup(entries.drop_first(), slot)
    }
}

/// Whether `slot` occurs as a key of the association list.
pub open spec fn has_slot<V>(entries: Seq<(Timeslot, V)>, slot: Timeslot) -> bool {
    exists|i: int| 0 <= i < entries.len() && (#[trigger] entries[i]).0 == slot
}

/// Whether the keys of the association list are pairwise distinct.
pub open spec fn unique_keys<V>(entries: Seq<(Timeslot, V)>) -> bool {
    forall|i: int, j: int|
        0 <= i < j < entries.len() ==> (#[trigger] entries[i]).0 != (#[trigger] entries[j]).0
}

/// Whether the slots of a sequence are pairwise distinct.
pub open spec fn distinct_slots(slots: Seq<Timeslot>) -> bool {
    forall|i: int, j: int| 0 <= i < j < slots.len() ==> slots[i] != slots[j]
}

/// A lookup finds the entry at `i` when no earlier entry has the same key.
pub proof fn lemma_lookup_first<V>(entries: Seq<(Timeslot, V)>, slot: Timeslot, i: int)
    requires
        0 <= i < entries.len(),
        entries[i].0 == slot,
        forall|j: int| 0 <= j < i ==> (#[trigger] entries[j]).0 != slot,
    ensures
        slot_lookup(entries, slot) == Some(entries[i].1),
    decreases entries.len(),
{
    if i > 0 {
        let rest = entries.drop_first();
        assert(forall|j: int| 0 <= j < i - 1 ==> (#[trigger] rest[j]).0 != slot);
        lemma_lookup_first(rest, slot, i - 1);
    }
}

/// A lookup misses exactly when the slot is not a key.
pub proof fn lemma_lookup_none<V>(entries: Seq<(Timeslot, V)>, slot: Timeslot)
    requires
        !has_slot(entries, slot),
    ensures
        slot_lookup(entries, slot) == None::<V>,
    decreases entries.len(),
{
    if entries.len() > 0 {
        assert(entries[0].0 != slot);
        let rest = entries.drop_first();
        assert(forall|j: int| 0 <= j < rest.len() ==> rest[j] == entries[j + 1]);
        lemma_lookup_none(rest, slot);
    }
}

/// A lookup hits exactly when the slot is a key.
pub proof fn lemma_lookup_has<V>(entries: Seq<(Timeslot, V)>, slot: Timeslot)
    ensures
        slot_lookup(entries, slot) is Some <==> has_slot(entries, slot),
    decreases entries.len(),
{
    if entries.len() > 0 {
        let rest = entries.drop_first();
        assert(forall|j: int| 0 <= j < rest.len() ==> rest[j] == entries[j + 1]);
        lemma_lookup_has(rest, slot);
        if entries[0].0 == slot {
            assert(has_slot(entries, slot));
        } else {
            if has_slot(rest, slot) {
                let j = choose|j: int| 0 <= j < rest.len() && (#[trigger] rest[j]).0 == slot;
                assert(entries[j + 1].0 == slot);
            }
            if has_slot(entries, slot) {
                let i = choose|i: int| 0 <= i < entries.len() && (#[trigger] entries[i]).0 == slot;
                assert(rest[i - 1].0 == slot);
            }
        }
    }
}

/// A successful lookup returns the value of a stored entry for that key.
pub proof fn lemma_lookup_entry<V>(entries: Seq<(Timeslot, V)>, slot: Timeslot)
    requires
        slot_lookup(entries, slot) is Some,
    ensures
        exists|i: int|
            0 <= i < entries.len() && #[trigger] entries[i] == (
                slot,
                slot_lookup(entries, slot).unwrap(),
            ),
    decreases entries.len(),
{
    if entries.len() > 0 && entries[0].0 != slot {
        let rest = entries.drop_first();
        lemma_lookup_entry(rest, slot);
        let i = choose|i: int|
            0 <= i < rest.len() && #[trigger] rest[i] == (slot, slot_lookup(rest, slot).unwrap());
        assert(entries[i + 1] == (slot, slot_lookup(entries, slot).unwrap()));
    }
}

/// The entries that mark every slot of `slots` as `Good`.
pub open spec fn good_entries(slots: Seq<Timeslot>) -> Seq<(Timeslot, SlotRating)> {
    slots.map_values(|s: Timeslot| (s, SlotRating::Good))
}

/// The entries that mark every slot of `slots` as `Tolerable`.
pub open spec fn tolerable_entries(slots: Seq<Timeslot>) -> Seq<(Timeslot, SlotRating)> {
    slots.map_values(|s: Timeslot| (s, SlotRating::Tolerable))
}

/// A person's ratings of the timeslots they consider, stored as an
/// association list with pairwise-distinct keys. A slot that is not a key
/// counts as rated `NotFitting`; `NotFitting` itself is never stored.
#[derive(Clone, PartialEq, Eq, Debug)]
pub struct SlotAssignment {
    pub ratings: Vec<(Timeslot, SlotRating)>,
}

/// Why a slot assignment could not be built.
#[derive(Clone, Copy, PartialEq, Eq, Structural, Debug)]
pub enum AssignmentError {
    /// The set of good slots was empty.
    EmptyGoodSlots,
    /// A slot occurred twice among the good and tolerable slots.
    DuplicateSlot,
}

impl SlotAssignment {
    /// The stored entries, as a mathematical sequence.
    pub open spec fn entries(&self) -> Seq<(Timeslot, SlotRating)> {
        self.ratings@
    }

    /// Well-formedness: distinct keys, no stored `NotFitting`, and at least
    /// one `Good` slot.
    pub open spec fn wf(&self) -> bool {
        &&& unique_keys(self.entries())
        &&& forall|i: int|
            0 <= i < self.entries().len() ==> (#[trigger] self.entries()[i]).1
                != SlotRating::NotFitting
        &&& exists|i: int|
            0 <= i < self.entries().len() && (#[trigger] self.entries()[i]).1 == SlotRating::Good
    }

    /// The rating of `slot`: the stored one, or `NotFitting` when absent.
    pub open spec fn spec_rating_for(&self, slot: Timeslot) -> SlotRating {
        match slot_lookup(self.entries(), slot) {
            Some(r) => r,
            None => SlotRating::NotFitting,
        }
    }

    /// Whether the person rated `slot` at all.
    pub open spec fn rates(&self, slot: Timeslot) -> bool {
        has_slot(self.entries(), slot)
    }

    /// Builds an assignment from disjoint sets of good and tolerable slots.
    /// The good slots must be non-empty and no slot may occur twice.
    pub fn new(good_slots: &Vec<Timeslot>, tolerable_slots: &Vec<Timeslot>) -> (r: Result<
        SlotAssignment,
        AssignmentError,
    >)
        ensures
            match r {
                Ok(sa) => {
                    &&& good_slots@.len() > 0
                    &&& distinct_slots(good_slots@ + tolerable_slots@)
                    &&& sa.entries() == good_entries(good_slots@) + tolerable_entries(
                        tolerable_slots@,
                    )
                    &&& sa.wf()
                },
                Err(AssignmentError::EmptyGoodSlots) => good_slots@.len() == 0,
                Err(AssignmentError::DuplicateSlot) => {
                    &&& good_slots@.len() > 0
                    &&& !distinct_slots(good_slots@ + tolerable_slots@)
                },
            },
    {
        if good_slots.len() == 0 {
            return Err(AssignmentError::EmptyGoodSlots);
        }
        let ghost gmap = good_entries(good_slots@);
        let ghost tmap = tolerable_entries(tolerable_slots@);
        proof {
            assert(forall|k: int|
                0 <= k < good_slots@.len() ==> #[trigger] gmap[k] == (
                good_slots@[k],
                SlotRating::Good,
                ));
            assert(forall|k: int|
                0 <= k < tolerable_slots@.len() ==> #[trigger] tmap[k] == (
                tolerable_slots@[k],
                SlotRating::Tolerable,
                ));
        }
        let mut ratings: Vec<(Timeslot, SlotRating)> = Vec::new();
        let mut i: usize = 0;
        while i < good_slots.len()
            invariant
                i <= good_slots@.len(),
                ratings@ == good_entries(good_slots@).take(i as int),
            decreases good_slots@.len() - i,
        {
            ratings.push((good_slots[i], SlotRating::Good));
            proof {
                assert(gmap[i as int] == (good_slots@[i as int], SlotRating::Good));
                assert(ratings@ =~= gmap.take(i + 1));
            }
            i = i + 1;
        }
        proof {
            assert(ratings@ =~= gmap);
        }
        let mut j: usize = 0;
        while j < tolerable_slots.len()
            invariant
                j <= tolerable_slots@.len(),
                ratings@ == good_entries(good_slots@) + tolerable_entries(tolerable_slots@).take(
                    j as int,
                ),
            decreases tolerable_slots@.len() - j,
        {
            ratings.push((tolerable_slots[j], SlotRating::Tolerable));
            proof {
                assert(tmap[j as int] == (tolerable_slots@[j as int], SlotRating::Tolerable));
                assert(ratings@ =~= gmap + tmap.take(j + 1));
            }
            j = j + 1;
        }
        proof {
            assert(ratings@ =~= gmap + tmap);
        }
        // Scan for a repeated slot among all stored keys.
        let ghost all = good_slots@ + tolerable_slots@;
        proof {
            assert(forall|k: int|
                0 <= k < ratings@.len() ==> (#[trigger] ratings@[k]).0 == all[k]);
        }
        let n = ratings.len();
        let mut p: usize = 0;
        while p < n
            invariant
                p <= n,
                n == ratings@.len(),
                ratings@.len() == good_slots@.len() + tolerable_slots@.len(),
                forall|k: int| 0 <= k < ratings@.len() ==> (#[trigger] ratings@[k]).0 == all[k],
                forall|a: int, b: int| 0 <= a < b < ratings@.len() && a < p ==> all[a] != all[b],
            decreases n - p,
        {
            let mut q: usize = p + 1;
            while q < n
                invariant
                    p < q,
                    p < n,
                    q <= n,
                    n == ratings@.len(),
                    ratings@.len() == good_slots@.len() + tolerable_slots@.len(),
                    good_slots@.len() > 0,
                    forall|k: int| 0 <= k < ratings@.len() ==> (#[trigger] ratings@[k]).0 == all[k],
                    forall|b: int| p < b < q ==> all[p as int] != all[b],
                decreases n - q,
            {
                if ratings[p].0 == ratings[q].0 {
                    proof {
                        assert(all[p as int] == all[q as int]);
                        assert(!distinct_slots(all));
                    }
                    return Err(AssignmentError::DuplicateSlot);
                }
                q = q + 1;
            }
            p = p + 1;
        }
        let sa = SlotAssignment { ratings };
        proof {
            assert(distinct_slots(all));
            assert(sa.entries()[0].1 == SlotRating::Good);
        }
        Ok(sa)
    }

    /// The stored rating of `slot`, with `NotFitting` as the default for a
    /// slot that was never rated.
    pub fn rating_for(&self, slot: Timeslot) -> (r: SlotRating)
        ensures
            r == self.spec_rating_for(slot),
    {
        let mut i: usize = 0;
        while i < self.ratings.len()
            invariant
                i <= self.entries().len(),
                forall|j: int| 0 <= j < i ==> (#[trigger] self.entries()[j]).0 != slot,
            decreases self.entries().len() - i,
        {
            if self.ratings[i].0 == slot {
                proof {
                    lemma_lookup_first(self.entries(), slot, i as int);
                }
                return self.ratings[i].1;
            }
            i = i + 1;
        }
        proof {
            lemma_lookup_none(self.entries(), slot);
        }
        SlotRating::NotFitting
    }

    /// The slots rated by both `self` and `other`, in `self`'s storage
    /// order, regardless of the rating values.
    pub fn intersect(&self, other: &SlotAssignment) -> (r: Vec<Timeslot>)
        ensures
            r@ == spec_intersect(self.entries(), other.entries()),
            forall|s: Timeslot| #[trigger] r@.contains(s) <==> self.rates(s) && other.rates(s),
            unique_keys(self.entries()) ==> distinct_slots(r@),
    {
        proof {
            assert forall|s: Timeslot|
                #[trigger] spec_intersect(self.entries(), other.entries()).contains(s) <==> self.rates(
                    s,
                ) && other.rates(s) by {
                lemma_intersect_membership(self.entries(), other.entries(), s);
            }
            if unique_keys(self.entries()) {
                lemma_intersect_distinct(self.entries(), other.entries());
            }
        }
        let mut r: Vec<Timeslot> = Vec::new();
        let mut i: usize = 0;
        while i < self.ratings.len()
            invariant
                i <= self.entries().len(),
                r@ == spec_intersect(self.entries().take(i as int), other.entries()),
            decreases self.entries().len() - i,
        {
            let slot = self.ratings[i].0;
            proof {
                assert(self.entries().take(i + 1).drop_last() =~= self.entries().take(i as int));
                assert(self.entries().take(i + 1).last() == self.entries()[i as int]);
            }
            if other.has_rating_for(slot) {
                r.push(slot);
            }
            i = i + 1;
        }
        proof {
            assert(self.entries().take(self.entries().len() as int) =~= self.entries());
        }
        r
    }

    /// Whether the person rated `slot` at all (key presence, not value).
    fn has_rating_for(&self, slot: Timeslot) -> (r: bool)
        ensures
            r == self.rates(slot),
    {
        let mut i: usize = 0;
        while i < self.ratings.len()
            invariant
                i <= self.entries().len(),
                forall|j: int| 0 <= j < i ==> (#[trigger] self.entries()[j]).0 != slot,
            decreases self.entries().len() - i,
        {
            if self.ratings[i].0 == slot {
                return true;
            }
            i = i + 1;
        }
        false
    }
}

/// The keys of `a` that are also keys of `b`, in `a`'s order.
pub open spec fn spec_intersect(
    a: Seq<(Timeslot, SlotRating)>,
    b: Seq<(Timeslot, SlotRating)>,
) -> Seq<Timeslot>
    decreases a.len(),
{
    if a.len() == 0 {
        Seq::empty()
    } else {
        let rest = spec_intersect(a.drop_last(), b);
        if has_slot(b, a.last().0) {
            rest.push(a.last().0)
        } else {
            rest
        }
    }
}

/// A slot lies in the intersection exactly when it is a key of both lists.
pub proof fn lemma_intersect_membership(
    a: Seq<(Timeslot, SlotRating)>,
    b: Seq<(Timeslot, SlotRating)>,
    s: Timeslot,
)
    ensures
        spec_intersect(a, b).contains(s) <==> has_slot(a, s) && has_slot(b, s),
    decreases a.len(),
{
    if a.len() > 0 {
        lemma_intersect_membership(a.drop_last(), b, s);
        assert(forall|j: int| 0 <= j < a.len() - 1 ==> a.drop_last()[j] == a[j]);
        if has_slot(a, s) && has_slot(b, s) {
            let i = choose|i: int| 0 <= i < a.len() && (#[trigger] a[i]).0 == s;
            if i < a.len() - 1 {
                assert(has_slot(a.drop_last(), s));
                assert(spec_intersect(a.drop_last(), b).contains(s));
                let k = choose|k: int|
                    0 <= k < spec_intersect(a.drop_last(), b).len() && spec_intersect(
                        a.drop_last(),
                        b,
                    )[k] == s;
                assert(spec_intersect(a, b)[k] == s);
            } else {
                assert(a.last().0 == s);
                assert(spec_intersect(a, b).last() == s);
            }
        }
        if spec_intersect(a, b).contains(s) {
            let rest = spec_intersect(a.drop_last(), b);
            let k = choose|k: int|
                0 <= k < spec_intersect(a, b).len() && spec_intersect(a, b)[k] == s;
            if has_slot(b, a.last().0) && k == rest.len() {
                assert(a.last().0 == s);
                assert(a[a.len() - 1].0 == s);
            } else {
                assert(rest[k] == s);
                assert(rest.contains(s));
                let i = choose|i: int|
                    0 <= i < a.drop_last().len() && (#[trigger] a.drop_last()[i]).0 == s;
                assert(a[i].0 == s);
            }
        }
    }
}

/// When `a` has distinct keys the intersection has no repeated slot.
pub proof fn lemma_intersect_distinct(a: Seq<(Timeslot, SlotRating)>, b: Seq<(Timeslot, SlotRating)>)
    requires
        unique_keys(a),
    ensures
        distinct_slots(spec_intersect(a, b)),
    decreases a.len(),
{
    if a.len() > 0 {
        assert(forall|j: int| 0 <= j < a.len() - 1 ==> a.drop_last()[j] == a[j]);
        lemma_intersect_distinct(a.drop_last(), b);
        if has_slot(b, a.last().0) {
            let rest = spec_intersect(a.drop_last(), b);
            assert forall|k: int| 0 <= k < rest.len() implies rest[k] != a.last().0 by {
                lemma_intersect_membership(a.drop_last(), b, rest[k]);
                assert(rest.contains(rest[k]));
                let i = choose|i: int|
                    0 <= i < a.drop_last().len() && (#[trigger] a.drop_last()[i]).0 == rest[k];
                assert(a[i].0 == rest[k]);
                assert(a[a.len() - 1].0 == a.last().0);
            }
        }
    }
}

/// A rating lookup returns exactly the stored rating for a present key.
pub proof fn lemma_rating_for_present(sa: SlotAssignment, i: int)
    requires
        unique_keys(sa.entries()),
        0 <= i < sa.entries().len(),
    ensures
        sa.spec_rating_for(sa.entries()[i].0) == sa.entries()[i].1,
{
    assert(forall|j: int| 0 <= j < i ==> (#[trigger] sa.entries()[j]).0 != sa.entries()[i].0);
    lemma_lookup_first(sa.entries(), sa.entries()[i].0, i);
}

/// A rating lookup returns `NotFitting` for a slot that was never rated.
pub proof fn lemma_rating_for_absent(sa: SlotAssignment, slot: Timeslot)
    requires
        !sa.rates(slot),
    ensures
        sa.spec_rating_for(slot) == SlotRating::NotFitting,
{
    lemma_lookup_none(sa.entries(), slot);
}

/// For a well-formed assignment, a slot is rated exactly when its rating is
/// usable, since `NotFitting` is never stored.
pub proof fn lemma_rates_iff_ok(sa: SlotAssignment, slot: Timeslot)
    requires
        sa.wf(),
    ensures
        sa.rates(slot) <==> sa.spec_rating_for(slot).spec_is_ok(),
{
    lemma_lookup_has(sa.entries(), slot);
    if sa.rates(slot) {
        lemma_lookup_entry(sa.entries(), slot);
    }
}

/// A student: a unique name, slot ratings, and an optional partner wish,
/// referring to the partner by name.
#[derive(Clone, PartialEq, Eq, Debug)]
pub struct Student {
    pub name: String,
    pub slot_assignment: SlotAssignment,
    pub partner: Option<String>,
}

/// A tutor: a name, slot ratings, and a scale factor that fixes how many
/// testats the tutor is expected to deliver.
///
/// `scale_factor` is kept in half units, so a value of 2 stands for a whole
/// stelle (a factor of 1.0) and 1 for half of one.
#[derive(Clone, PartialEq, Eq, Debug)]
pub struct Tutor {
    pub name: String,
    pub slot_assignment: SlotAssignment,
    pub scale_factor: u64,
}

/// The aggregate input of one scheduling run.
#[derive(Clone, PartialEq, Eq, Debug)]
pub struct Instance {
    pub students: Vec<Student>,
    pub tutors: Vec<Tutor>,
}

/// The keys of an association list, in storage order.
pub open spec fn keys_of(entries: Seq<(Timeslot, SlotRating)>) -> Seq<Timeslot> {
    entries.map_values(|p: (Timeslot, SlotRating)| p.0)
}

/// The rated slots of the first `n` students, concatenated in roster order.
pub open spec fn student_keys_upto(students: Seq<Student>, n: int) -> Seq<Timeslot>
    decreases n,
{
    if n <= 0 {
        Seq::empty()
    } else {
        student_keys_upto(students, n - 1) + keys_of(students[n - 1].slot_assignment.entries())
    }
}

/// The rated slots of the first `n` tutors, concatenated in roster order.
pub open spec fn tutor_keys_upto(tutors: Seq<Tutor>, n: int) -> Seq<Timeslot>
    decreases n,
{
    if n <= 0 {
        Seq::empty()
    } else {
        tutor_keys_upto(tutors, n - 1) + keys_of(tutors[n - 1].slot_assignment.entries())
    }
}

/// `slots` with every repetition of an earlier slot dropped.
pub open spec fn dedup_slots(slots: Seq<Timeslot>) -> Seq<Timeslot>
    decreases slots.len(),
{
    if slots.len() == 0 {
        Seq::empty()
    } else {
        let rest = dedup_slots(slots.drop_last());
        if rest.contains(slots.last()) {
            rest
        } else {
            rest.push(slots.last())
        }
    }
}

/// Deduplication keeps exactly the slots that occur.
pub proof fn lemma_dedup_membership(slots: Seq<Timeslot>, s: Timeslot)
    ensures
        dedup_slots(slots).contains(s) <==> slots.contains(s),
    decreases slots.len(),
{
    if slots.len() > 0 {
        lemma_dedup_membership(slots.drop_last(), s);
        assert(forall|j: int| 0 <= j < slots.len() - 1 ==> slots.drop_last()[j] == slots[j]);
        let rest = dedup_slots(slots.drop_last());
        if slots.contains(s) {
            let i = choose|i: int| 0 <= i < slots.len() && slots[i] == s;
            if i < slots.len() - 1 {
                assert(slots.drop_last()[i] == s);
                assert(slots.drop_last().contains(s));
                if !rest.contains(slots.last()) {
                    let k = choose|k: int| 0 <= k < rest.len() && rest[k] == s;
                    assert(dedup_slots(slots)[k] == s);
                }
            } else {
                if rest.contains(slots.last()) {
                    assert(s == slots.last());
                } else {
                    assert(dedup_slots(slots).last() == slots.last());
                }
            }
        }
        if dedup_slots(slots).contains(s) {
            let k = choose|k: int|
                0 <= k < dedup_slots(slots).len() && dedup_slots(slots)[k] == s;
            if !rest.contains(slots.last()) && k == rest.len() {
                assert(slots[slots.len() - 1] == s);
            } else {
                assert(rest[k] == s);
                assert(rest.contains(s));
                let i = choose|i: int| 0 <= i < slots.len() - 1 && slots.drop_last()[i] == s;
                assert(slots[i] == s);
            }
        }
    }
}

/// Deduplication leaves no repeated slot.
pub proof fn lemma_dedup_distinct(slots: Seq<Timeslot>)
    ensures
        distinct_slots(dedup_slots(slots)),
    decreases slots.len(),
{
    if slots.len() > 0 {
        lemma_dedup_distinct(slots.drop_last());
        let rest = dedup_slots(slots.drop_last());
        if !rest.contains(slots.last()) {
            assert(forall|k: int| 0 <= k < rest.len() ==> rest[k] != slots.last());
        }
    }
}

/// A slot stands among the first `n` students' keys exactly when one of
/// them rated it.
pub proof fn lemma_student_keys_membership(students: Seq<Student>, n: int, s: Timeslot)
    requires
        0 <= n <= students.len(),
    ensures
        student_keys_upto(students, n).contains(s) <==> exists|i: int|
            0 <= i < n && (#[trigger] students[i]).slot_assignment.rates(s),
    decreases n,
{
    if n > 0 {
        lemma_student_keys_membership(students, n - 1, s);
        let base = student_keys_upto(students, n - 1);
        let entries = students[n - 1].slot_assignment.entries();
        let keys = keys_of(entries);
        assert(keys.contains(s) <==> has_slot(entries, s)) by {
            if keys.contains(s) {
                let k = choose|k: int| 0 <= k < keys.len() && keys[k] == s;
                assert(entries[k].0 == s);
            }
            if has_slot(entries, s) {
                let k = choose|k: int| 0 <= k < entries.len() && (#[trigger] entries[k]).0 == s;
                assert(keys[k] == s);
            }
        }
        assert((base + keys).contains(s) <==> base.contains(s) || keys.contains(s)) by {
            if (base + keys).contains(s) {
                let k = choose|k: int|
                    0 <= k < (base + keys).len() && (base + keys)[k] == s;
                if k < base.len() {
                    assert(base[k] == s);
                } else {
                    assert(keys[k - base.len()] == s);
                }
            }
            if base.contains(s) {
                let k = choose|k: int| 0 <= k < base.len() && base[k] == s;
                assert((base + keys)[k] == s);
            }
            if keys.contains(s) {
                let k = choose|k: int| 0 <= k < keys.len() && keys[k] == s;
                assert((base + keys)[base.len() + k] == s);
            }
        }
        if student_keys_upto(students, n).contains(s) {
            if base.contains(s) {
            } else {
                assert(students[n - 1].slot_assignment.rates(s));
            }
        }
    }
}

/// A slot stands among the first `n` tutors' keys exactly when one of
/// them rated it.
pub proof fn lemma_tutor_keys_membership(tutors: Seq<Tutor>, n: int, s: Timeslot)
    requires
        0 <= n <= tutors.len(),
    ensures
        tutor_keys_upto(tutors, n).contains(s) <==> exists|i: int|
            0 <= i < n && (#[trigger] tutors[i]).slot_assignment.rates(s),
    decreases n,
{
    if n > 0 {
        lemma_tutor_keys_membership(tutors, n - 1, s);
        let base = tutor_keys_upto(tutors, n - 1);
        let entries = tutors[n - 1].slot_assignment.entries();
        let keys = keys_of(entries);
        assert(keys.contains(s) <==> has_slot(entries, s)) by {
            if keys.contains(s) {
                let k = choose|k: int| 0 <= k < keys.len() && keys[k] == s;
                assert(entries[k].0 == s);
            }
            if has_slot(entries, s) {
                let k = choose|k: int| 0 <= k < entries.len() && (#[trigger] entries[k]).0 == s;
                assert(keys[k] == s);
            }
        }
        assert((base + keys).contains(s) <==> base.contains(s) || keys.contains(s)) by {
            if (base + keys).contains(s) {
                let k = choose|k: int|
                    0 <= k < (base + keys).len() && (base + keys)[k] == s;
                if k < base.len() {
                    assert(base[k] == s);
                } else {
                    assert(keys[k - base.len()] == s);
                }
            }
            if base.contains(s) {
                let k = choose|k: int| 0 <= k < base.len() && base[k] == s;
                assert((base + keys)[k] == s);
            }
            if keys.contains(s) {
                let k = choose|k: int| 0 <= k < keys.len() && keys[k] == s;
                assert((base + keys)[base.len() + k] == s);
            }
        }
        if tutor_keys_upto(tutors, n).contains(s) {
            if base.contains(s) {
            } else {
                assert(tutors[n - 1].slot_assignment.rates(s));
            }
        }
    }
}

impl Instance {
    /// Whether some student or tutor rated `s`.
    pub open spec fn rated_by_someone(&self, s: Timeslot) -> bool {
        ||| exists|i: int|
            0 <= i < self.students@.len() && (#[trigger] self.students@[i]).slot_assignment.rates(
                s,
            )
        ||| exists|j: int|
            0 <= j < self.tutors@.len() && (#[trigger] self.tutors@[j]).slot_assignment.rates(s)
    }

    /// Every slot rated by any student or tutor, in first-occurrence order
    /// over the students and then the tutors.
    pub open spec fn spec_slots(&self) -> Seq<Timeslot> {
        dedup_slots(
            student_keys_upto(self.students@, self.students@.len() as int) + tutor_keys_upto(
                self.tutors@,
                self.tutors@.len() as int,
            ),
        )
    }

    /// Returns all timeslots rated something other than `NotFitting` by at
    /// least one student or tutor, each slot once, in first-occurrence
    /// order.
    pub fn slots(&self) -> (r: Vec<Timeslot>)
        ensures
            r@ == self.spec_slots(),
            distinct_slots(r@),
            forall|s: Timeslot| #[trigger] r@.contains(s) <==> self.rated_by_someone(s),
    {
        proof {
            let all = student_keys_upto(self.students@, self.students@.len() as int)
                + tutor_keys_upto(self.tutors@, self.tutors@.len() as int);
            lemma_dedup_distinct(all);
            assert forall|s: Timeslot|
                #[trigger] self.spec_slots().contains(s) <==> self.rated_by_someone(s) by {
                lemma_dedup_membership(all, s);
                lemma_student_keys_membership(self.students@, self.students@.len() as int, s);
                lemma_tutor_keys_membership(self.tutors@, self.tutors@.len() as int, s);
                let skeys = student_keys_upto(self.students@, self.students@.len() as int);
                let tkeys = tutor_keys_upto(self.tutors@, self.tutors@.len() as int);
                assert(all.contains(s) <==> skeys.contains(s) || tkeys.contains(s)) by {
                    if all.contains(s) {
                        let k = choose|k: int| 0 <= k < all.len() && all[k] == s;
                        if k < skeys.len() {
                            assert(skeys[k] == s);
                        } else {
                            assert(tkeys[k - skeys.len()] == s);
                        }
                    }
                    if skeys.contains(s) {
                        let k = choose|k: int| 0 <= k < skeys.len() && skeys[k] == s;
                        assert(all[k] == s);
                    }
                    if tkeys.contains(s) {
                        let k = choose|k: int| 0 <= k < tkeys.len() && tkeys[k] == s;
                        assert(all[skeys.len() + k] == s);
                    }
                }
            }
        }
        let ghost skeys = student_keys_upto(self.students@, self.students@.len() as int);
        let ghost tkeys = tutor_keys_upto(self.tutors@, self.tutors@.len() as int);
        let mut r: Vec<Timeslot> = Vec::new();
        let mut si: usize = 0;
        while si < self.students.len()
            invariant
                si <= self.students@.len(),
                r@ == dedup_slots(student_keys_upto(self.students@, si as int)),
            decreases self.students@.len() - si,
        {
            let ghost base = student_keys_upto(self.students@, si as int);
            let sa = &self.students[si].slot_assignment;
            let mut k: usize = 0;
            while k < sa.ratings.len()
                invariant
                    k <= sa.entries().len(),
                    r@ == dedup_slots(base + keys_of(sa.entries()).take(k as int)),
                decreases sa.entries().len() - k,
            {
                let slot = sa.ratings[k].0;
                proof {
                    let cur = base + keys_of(sa.entries()).take(k as int);
                    let next = base + keys_of(sa.entries()).take(k + 1);
                    assert(keys_of(sa.entries())[k as int] == slot);
                    assert(next.drop_last() =~= cur);
                    assert(next.last() == slot);
                }
                if !contains_slot(&r, slot) {
                    r.push(slot);
                }
                k = k + 1;
            }
            proof {
                assert(base + keys_of(sa.entries()).take(sa.entries().len() as int)
                    =~= student_keys_upto(self.students@, si + 1));
            }
            si = si + 1;
        }
        let mut ti: usize = 0;
        while ti < self.tutors.len()
            invariant
                ti <= self.tutors@.len(),
                r@ == dedup_slots(skeys + tutor_keys_upto(self.tutors@, ti as int)),
            decreases self.tutors@.len() - ti,
        {
            let ghost base = skeys + tutor_keys_upto(self.tutors@, ti as int);
            let sa = &self.tutors[ti].slot_assignment;
            let mut k: usize = 0;
            while k < sa.ratings.len()
                invariant
                    k <= sa.entries().len(),
                    r@ == dedup_slots(base + keys_of(sa.entries()).take(k as int)),
                decreases sa.entries().len() - k,
            {
                let slot = sa.ratings[k].0;
                proof {
                    let cur = base + keys_of(sa.entries()).take(k as int);
                    let next = base + keys_of(sa.entries()).take(k + 1);
                    assert(keys_of(sa.entries())[k as int] == slot);
                    assert(next.drop_last() =~= cur);
                    assert(next.last() == slot);
                }
                if !contains_slot(&r, slot) {
                    r.push(slot);
                }
                k = k + 1;
            }
            proof {
                assert(base + keys_of(sa.entries()).take(sa.entries().len() as int)
                    =~= skeys + tutor_keys_upto(self.tutors@, ti + 1));
            }
            ti = ti + 1;
        }
        proof {
            assert(skeys + tutor_keys_upto(self.tutors@, 0) =~= skeys);
        }
        r
    }
}

/// Whether `slots` holds `slot`.
fn contains_slot(slots: &Vec<Timeslot>, slot: Timeslot) -> (r: bool)
    ensures
        r == slots@.contains(slot),
{
    let mut i: usize = 0;
    while i < slots.len()
        invariant
            i <= slots@.len(),
            forall|j: int| 0 <= j < i ==> slots@[j] != slot,
        decreases slots@.len() - i,
    {
        if slots[i] == slot {
            return true;
        }
        i = i + 1;
    }
    false
}

/// A team under consideration for one scheduling run: a single student, or
/// a confirmed pair. Members are held as indices into the student roster
/// the team was derived from.
#[derive(Clone, Copy, PartialEq, Eq, Structural, Debug)]
pub enum Team {
    Single(usize),
    Full(usize, usize),
}

impl Team {
    /// Whether the student with roster index `s` is a member.
    pub open spec fn spec_contains(self, s: int) -> bool {
        match self {
            Team::Single(a) => a == s,
            Team::Full(a, b) => a == s || b == s,
        }
    }

    /// The number of members: 1 or 2.
    pub open spec fn spec_members(self) -> int {
        match self {
            Team::Single(_) => 1,
            Team::Full(_, _) => 2,
        }
    }

    /// Whether the member indices lie inside a roster of `n` students, with
    /// a pair holding two different students.
    pub open spec fn wf(self, n: int) -> bool {
        match self {
            Team::Single(a) => a < n,
            Team::Full(a, b) => a < n && b < n && a != b,
        }
    }

    /// Whether `f` holds of every member, short-circuiting as `&&` does.
    pub fn all_students<F: Fn(usize) -> bool>(&self, f: F) -> (r: bool)
        requires
            forall|i: usize| self.spec_contains(i as int) ==> call_requires(f, (i,)),
        ensures
            match *self {
                Team::Single(a) => call_ensures(f, (a,), r),
                Team::Full(a, b) => exists|ra: bool|
                    {
                        &&& #[trigger] call_ensures(f, (a,), ra)
                        &&& if ra {
                            call_ensures(f, (b,), r)
                        } else {
                            r == false
                        }
                    },
            },
    {
        match *self {
            Team::Single(a) => {
                proof {
                    assert(self.spec_contains(a as int));
                    assert(call_requires(f, (a,)));
                }
                f(a)
            },
            Team::Full(a, b) => {
                proof {
                    assert(self.spec_contains(a as int));
                    assert(self.spec_contains(b as int));
                    assert(call_requires(f, (a,)));
                    assert(call_requires(f, (b,)));
                }
                f(a) && f(b)
            },
        }
    }

    /// Whether the student with roster index `s` is a member.
    pub fn contains(&self, s: usize) -> (r: bool)
        ensures
            r == self.spec_contains(s as int),
    {
        match *self {
            Team::Single(a) => a == s,
            Team::Full(a, b) => a == s || b == s,
        }
    }

    /// The number of members: 1 or 2.
    pub fn members(&self) -> (r: u8)
        ensures
            r as int == self.spec_members(),
    {
        match *self {
            Team::Single(_) => 1,
            _ => 2,
        }
    }

    /// The team's display name: its members' names, concatenated.
    pub fn name(&self, students: &Vec<Student>) -> (r: String)
        requires
            self.wf(students@.len() as int),
        ensures
            match *self {
                Team::Single(a) => r@ == students@[a as int].name@,
                Team::Full(a, b) => r@ == students@[a as int].name@ + students@[b as int].name@,
            },
    {
        match *self {
            Team::Single(a) => students[a].name.clone(),
            Team::Full(a, b) => {
                let mut x = students[a].name.clone();
                x.append(students[b].name.as_str());
                x
            },
        }
    }
}

/// One scheduled session: a team meets a tutor at a timeslot. The tutor is
/// held as an index into the tutor roster.
#[derive(Clone, Copy, PartialEq, Eq, Structural, Debug)]
pub struct Testat {
    pub slot: Timeslot,
    pub tutor: usize,
    pub team: Team,
}

/// The solver's output: one testat per team, in team order.
#[derive(Clone, PartialEq, Eq, Debug)]
pub struct Solution {
    pub testats: Vec<Testat>,
}

} // verus!
