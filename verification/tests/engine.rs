use luten_scheduling::algo::{
    compute_demand, compute_supply, number_of_alternatives, rating_value, team_rating_values,
    team_up, try_compute_demand, try_compute_supply, FormationError, Frac, SupplyError,
    TESTATS_PER_STELLE,
};
use luten_scheduling::types::{
    AssignmentError, Instance, SlotAssignment, SlotRating, Student, Team, Timeslot, WorkDay,
};

fn ts(day: WorkDay, slot_of_day: u16) -> Timeslot {
    Timeslot { day, slot_of_day }
}

fn sa(good: &[Timeslot], tolerable: &[Timeslot]) -> SlotAssignment {
    SlotAssignment::new(&good.to_vec(), &tolerable.to_vec()).expect("valid slot assignment")
}

fn student(name: &str, assignment: SlotAssignment, partner: Option<&str>) -> Student {
    Student {
        name: name.to_string(),
        slot_assignment: assignment,
        partner: partner.map(|p| p.to_string()),
    }
}

#[test]
fn rating_weights_are_fixed() {
    assert_eq!(rating_value(SlotRating::Good), 2);
    assert_eq!(rating_value(SlotRating::Tolerable), 1);
    assert_eq!(rating_value(SlotRating::NotFitting), 0);
}

#[test]
fn rating_is_ok() {
    assert!(SlotRating::Good.is_ok());
    assert!(SlotRating::Tolerable.is_ok());
    assert!(!SlotRating::NotFitting.is_ok());
}

#[test]
fn rating_for_returns_stored_and_default() {
    let mon = ts(WorkDay::Monday, 1);
    let tue = ts(WorkDay::Tuesday, 2);
    let wed = ts(WorkDay::Wednesday, 3);
    let a = sa(&[mon], &[tue]);
    assert_eq!(a.rating_for(mon), SlotRating::Good);
    assert_eq!(a.rating_for(tue), SlotRating::Tolerable);
    assert_eq!(a.rating_for(wed), SlotRating::NotFitting);
}

#[test]
fn new_rejects_empty_good_slots() {
    let r = SlotAssignment::new(&Vec::new(), &vec![ts(WorkDay::Monday, 1)]);
    assert_eq!(r, Err(AssignmentError::EmptyGoodSlots));
}

#[test]
fn new_rejects_slot_in_both_sets() {
    let mon = ts(WorkDay::Monday, 1);
    let r = SlotAssignment::new(&vec![mon], &vec![mon]);
    assert_eq!(r, Err(AssignmentError::DuplicateSlot));
}

#[test]
fn new_rejects_repeated_good_slot() {
    let mon = ts(WorkDay::Monday, 1);
    let r = SlotAssignment::new(&vec![mon, mon], &Vec::new());
    assert_eq!(r, Err(AssignmentError::DuplicateSlot));
}

#[test]
fn intersect_keeps_mutual_slots_in_order() {
    let mon = ts(WorkDay::Monday, 1);
    let tue = ts(WorkDay::Tuesday, 1);
    let wed = ts(WorkDay::Wednesday, 1);
    let a = sa(&[mon, wed], &[tue]);
    let b = sa(&[tue], &[wed]);
    assert_eq!(a.intersect(&b), vec![wed, tue]);
    assert_eq!(b.intersect(&a), vec![tue, wed]);
}

#[test]
fn number_of_alternatives_sums_weights() {
    let mon = ts(WorkDay::Monday, 1);
    let tue = ts(WorkDay::Tuesday, 1);
    let wed = ts(WorkDay::Wednesday, 1);
    // One good and two tolerable slots: 1.0 + 0.5 + 0.5 = 2.0, in halves 4.
    let a = sa(&[mon], &[tue, wed]);
    assert_eq!(number_of_alternatives(&a), 4);
}

#[test]
fn team_up_singles_keep_roster_order() {
    let mon = ts(WorkDay::Monday, 1);
    let students = vec![
        student("ada", sa(&[mon], &[]), None),
        student("ben", sa(&[mon], &[]), None),
    ];
    let teams = team_up(&students).expect("forms teams");
    assert_eq!(teams, vec![Team::Single(0), Team::Single(1)]);
}

#[test]
fn team_up_pairs_mutual_wishes_once() {
    let mon = ts(WorkDay::Monday, 1);
    let students = vec![
        student("ada", sa(&[mon], &[]), Some("cid")),
        student("ben", sa(&[mon], &[]), None),
        student("cid", sa(&[mon], &[]), Some("ada")),
    ];
    let teams = team_up(&students).expect("forms teams");
    // Three students, two of them paired: 3 - 2/2 = 2 teams.
    assert_eq!(teams, vec![Team::Full(0, 2), Team::Single(1)]);
    assert_eq!(teams.len(), students.len() - 1);
}

#[test]
fn team_up_fails_on_unknown_partner() {
    let mon = ts(WorkDay::Monday, 1);
    let students = vec![student("ada", sa(&[mon], &[]), Some("ghost"))];
    assert_eq!(team_up(&students), Err(FormationError::UnknownPartner(0)));
}

#[test]
fn team_up_fails_on_asymmetric_wish() {
    let mon = ts(WorkDay::Monday, 1);
    let students = vec![
        student("ada", sa(&[mon], &[]), Some("ben")),
        student("ben", sa(&[mon], &[]), Some("cid")),
        student("cid", sa(&[mon], &[]), Some("ben")),
    ];
    assert_eq!(team_up(&students), Err(FormationError::AsymmetricPartner(0)));
}

#[test]
fn team_up_fails_on_partner_without_wish() {
    let mon = ts(WorkDay::Monday, 1);
    let students = vec![
        student("ada", sa(&[mon], &[]), Some("ben")),
        student("ben", sa(&[mon], &[]), None),
    ];
    assert_eq!(team_up(&students), Err(FormationError::AsymmetricPartner(0)));
}

#[test]
fn team_up_fails_on_self_partner() {
    let mon = ts(WorkDay::Monday, 1);
    let students = vec![student("ada", sa(&[mon], &[]), Some("ada"))];
    assert_eq!(team_up(&students), Err(FormationError::SelfPartner(0)));
}

#[test]
fn team_members_and_contains() {
    let single = Team::Single(3);
    let full = Team::Full(1, 4);
    assert_eq!(single.members(), 1);
    assert_eq!(full.members(), 2);
    assert!(single.contains(3));
    assert!(!single.contains(1));
    assert!(full.contains(1));
    assert!(full.contains(4));
    assert!(!full.contains(3));
}

#[test]
fn team_name_concatenates_members() {
    let mon = ts(WorkDay::Monday, 1);
    let students = vec![
        student("ada", sa(&[mon], &[]), Some("ben")),
        student("ben", sa(&[mon], &[]), Some("ada")),
    ];
    assert_eq!(Team::Single(1).name(&students), "ben");
    assert_eq!(Team::Full(0, 1).name(&students), "adaben");
}

#[test]
fn all_students_short_circuits_like_and() {
    let full = Team::Full(0, 1);
    assert!(full.all_students(|i| i < 2));
    assert!(!full.all_students(|i| i == 0));
    assert!(Team::Single(5).all_students(|i| i == 5));
}

#[test]
fn team_rating_values_single_uses_double_weight() {
    let mon = ts(WorkDay::Monday, 1);
    let tue = ts(WorkDay::Tuesday, 1);
    let students = vec![student("ada", sa(&[mon], &[tue]), None)];
    // Quarter units: Good -> 4, Tolerable -> 2.
    let values = team_rating_values(&Team::Single(0), &students);
    assert_eq!(values, vec![(mon, 4), (tue, 2)]);
}

#[test]
fn team_rating_values_full_takes_mean_on_mutual_slots() {
    let mon = ts(WorkDay::Monday, 1);
    let tue = ts(WorkDay::Tuesday, 1);
    let students = vec![
        student("ada", sa(&[mon], &[tue]), Some("ben")),
        student("ben", sa(&[tue], &[]), Some("ada")),
    ];
    // Only Tuesday is mutually rated; mean of 0.5 and 1.0 is 0.75, i.e. 3
    // quarter units.
    let values = team_rating_values(&Team::Full(0, 1), &students);
    assert_eq!(values, vec![(tue, 3)]);
}

#[test]
fn demand_of_concentrated_single_team_is_member_count() {
    let mon = ts(WorkDay::Monday, 1);
    let students = vec![student("ada", sa(&[mon], &[]), None)];
    let teams = team_up(&students).expect("forms teams");
    let demand = compute_demand(mon, &teams, &students);
    assert!(demand.eq_frac(&Frac { num: 1, den: 1 }));
}

#[test]
fn demand_of_pair_with_single_mutual_slot_is_two() {
    let mon = ts(WorkDay::Monday, 1);
    let tue = ts(WorkDay::Tuesday, 1);
    let students = vec![
        student("ada", sa(&[mon], &[tue]), Some("ben")),
        student("ben", sa(&[tue], &[]), Some("ada")),
    ];
    let teams = team_up(&students).expect("forms teams");
    // The pair's whole preference mass lies on Tuesday.
    let demand = compute_demand(tue, &teams, &students);
    assert!(demand.eq_frac(&Frac { num: 2, den: 1 }));
}

fn scenario_a() -> Instance {
    let mon1 = ts(WorkDay::Monday, 1);
    let tue1 = ts(WorkDay::Tuesday, 1);
    let students = vec![
        student("ada", sa(&[mon1], &[]), None),
        student("ben", sa(&[tue1], &[mon1]), None),
    ];
    let tutors = vec![luten_scheduling::types::Tutor {
        name: "tara".to_string(),
        slot_assignment: sa(&[mon1], &[]),
        // Half units: 2 stands for a scale factor of 1.0, so one testat.
        scale_factor: 2,
    }];
    Instance { students, tutors }
}

#[test]
fn demand_scenario_two_students_one_slot() {
    let inst = scenario_a();
    let mon1 = ts(WorkDay::Monday, 1);
    let teams = team_up(&inst.students).expect("forms teams");
    let demand = compute_demand(mon1, &teams, &inst.students);
    // Ada puts 1 there; Ben's Tolerable Monday is 0.5 of his 1.5 total,
    // so 1 + 1/3 = 4/3.
    assert!(demand.eq_frac(&Frac { num: 4, den: 3 }));
}

#[test]
fn supply_scenario_single_saturated_tutor() {
    let inst = scenario_a();
    let mon1 = ts(WorkDay::Monday, 1);
    let supply = compute_supply(mon1, &inst.tutors).expect("tutor capacity fits");
    assert!(supply.eq_frac(&Frac { num: 1, den: 1 }));
    assert_eq!(TESTATS_PER_STELLE, 1);
}

#[test]
fn supply_is_zero_at_unrated_slot() {
    let inst = scenario_a();
    let fri = ts(WorkDay::Friday, 9);
    let supply = compute_supply(fri, &inst.tutors).expect("tutor capacity fits");
    assert!(supply.eq_frac(&Frac { num: 0, den: 1 }));
}

#[test]
fn supply_fails_when_expected_exceeds_alternatives() {
    let mon = ts(WorkDay::Monday, 1);
    let tutors = vec![
        luten_scheduling::types::Tutor {
            name: "tara".to_string(),
            slot_assignment: sa(&[mon], &[]),
            scale_factor: 2,
        },
        luten_scheduling::types::Tutor {
            name: "uwe".to_string(),
            slot_assignment: sa(&[mon], &[]),
            // Expected 4 half units against 2 half units of alternatives.
            scale_factor: 4,
        },
    ];
    let r = compute_supply(mon, &tutors);
    assert_eq!(r, Err(SupplyError::CapacityExceeded { tutor: 1 }));
}

#[test]
fn instance_slots_deduplicates_in_first_occurrence_order() {
    let inst = scenario_a();
    let mon1 = ts(WorkDay::Monday, 1);
    let tue1 = ts(WorkDay::Tuesday, 1);
    assert_eq!(inst.slots(), vec![mon1, tue1]);
}

#[test]
fn try_aggregators_match_their_exact_counterparts() {
    let inst = scenario_a();
    let mon1 = ts(WorkDay::Monday, 1);
    let teams = team_up(&inst.students).expect("forms teams");
    let demand = try_compute_demand(mon1, &teams, &inst.students)
        .expect("small roster stays within machine words");
    assert!(demand.eq_frac(&Frac { num: 4, den: 3 }));
    let supply = try_compute_supply(mon1, &inst.tutors)
        .expect("small roster stays within machine words")
        .expect("capacity fits");
    assert!(supply.eq_frac(&Frac { num: 1, den: 1 }));
}

#[test]
fn try_supply_reports_overloaded_tutor() {
    let mon = ts(WorkDay::Monday, 1);
    let tutors = vec![luten_scheduling::types::Tutor {
        name: "tara".to_string(),
        slot_assignment: sa(&[mon], &[]),
        scale_factor: 4,
    }];
    let r = try_compute_supply(mon, &tutors).expect("small roster stays within machine words");
    assert_eq!(r, Err(SupplyError::CapacityExceeded { tutor: 0 }));
}

#[test]
fn frac_equality_is_by_value() {
    let a = Frac { num: 2, den: 6 };
    let b = Frac { num: 1, den: 3 };
    let c = Frac { num: 1, den: 2 };
    assert!(a.eq_frac(&b));
    assert!(!a.eq_frac(&c));
}
