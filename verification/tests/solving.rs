use luten_scheduling::solver::solve;
use luten_scheduling::types::{
    Instance, SlotAssignment, Student, Team, Timeslot, Tutor, WorkDay,
};

fn ts(day: WorkDay, slot_of_day: u16) -> Timeslot {
    Timeslot { day, slot_of_day }
}

fn sa(good: &[Timeslot], tolerable: &[Timeslot]) -> SlotAssignment {
    SlotAssignment::new(&good.to_vec(), &tolerable.to_vec()).expect("valid slot assignment")
}

fn student(name: &str, assignment: SlotAssignment, partner: Option<&str>) -> Student {
    Student {
        name: name.to_string(),
        slot_assignment: assignment,
        partner: partner.map(|p| p.to_string()),
    }
}

fn tutor(name: &str, assignment: SlotAssignment, scale_factor: u64) -> Tutor {
    Tutor {
        name: name.to_string(),
        slot_assignment: assignment,
        scale_factor,
    }
}

#[test]
fn solve_places_every_team_once() {
    let mon = ts(WorkDay::Monday, 1);
    let tue = ts(WorkDay::Tuesday, 1);
    let inst = Instance {
        students: vec![
            student("ada", sa(&[mon], &[]), None),
            student("ben", sa(&[tue], &[mon]), None),
        ],
        tutors: vec![tutor("tara", sa(&[mon, tue], &[]), 4)],
    };
    let sol = solve(&inst).expect("feasible instance");
    assert_eq!(sol.testats.len(), 2);
    assert_eq!(sol.testats[0].team, Team::Single(0));
    assert_eq!(sol.testats[1].team, Team::Single(1));
    // Ada only accepts Monday; Ben's best mutual value with Tara is Tuesday.
    assert_eq!(sol.testats[0].slot, mon);
    assert_eq!(sol.testats[0].tutor, 0);
    assert_eq!(sol.testats[1].slot, tue);
}

#[test]
fn solve_prefers_highest_preference_pairing() {
    let mon = ts(WorkDay::Monday, 1);
    let tue = ts(WorkDay::Tuesday, 1);
    let inst = Instance {
        students: vec![student("ada", sa(&[tue], &[mon]), None)],
        tutors: vec![
            tutor("tara", sa(&[mon], &[tue]), 2),
            tutor("uwe", sa(&[tue], &[mon]), 2),
        ],
    };
    let sol = solve(&inst).expect("feasible instance");
    // Good+Good on Tuesday with Uwe beats any mixed pairing.
    assert_eq!(sol.testats.len(), 1);
    assert_eq!(sol.testats[0].slot, tue);
    assert_eq!(sol.testats[0].tutor, 1);
}

#[test]
fn solve_schedules_a_mutual_pair_on_their_shared_slot() {
    let mon = ts(WorkDay::Monday, 1);
    let tue = ts(WorkDay::Tuesday, 1);
    let inst = Instance {
        students: vec![
            student("ada", sa(&[mon], &[tue]), Some("ben")),
            student("ben", sa(&[tue], &[]), Some("ada")),
        ],
        tutors: vec![tutor("tara", sa(&[tue], &[mon]), 2)],
    };
    let sol = solve(&inst).expect("feasible instance");
    assert_eq!(sol.testats.len(), 1);
    assert_eq!(sol.testats[0].team, Team::Full(0, 1));
    // The pair's only mutually rated slot is Tuesday.
    assert_eq!(sol.testats[0].slot, tue);
}

#[test]
fn solve_is_deterministic_across_runs() {
    let mon = ts(WorkDay::Monday, 1);
    let tue = ts(WorkDay::Tuesday, 1);
    let wed = ts(WorkDay::Wednesday, 1);
    let inst = Instance {
        students: vec![
            student("ada", sa(&[mon, tue], &[wed]), None),
            student("ben", sa(&[tue], &[mon]), None),
            student("cid", sa(&[wed], &[tue]), None),
        ],
        tutors: vec![
            tutor("tara", sa(&[mon, wed], &[tue]), 4),
            tutor("uwe", sa(&[tue], &[wed]), 2),
        ],
    };
    let first = solve(&inst).expect("feasible instance");
    let second = solve(&inst).expect("feasible instance");
    assert_eq!(first, second);
}

#[test]
fn solve_does_not_double_book_a_tutor_slot() {
    let mon = ts(WorkDay::Monday, 1);
    let tue = ts(WorkDay::Tuesday, 1);
    let inst = Instance {
        students: vec![
            student("ada", sa(&[mon], &[tue]), None),
            student("ben", sa(&[mon], &[tue]), None),
        ],
        tutors: vec![tutor("tara", sa(&[mon, tue], &[]), 4)],
    };
    let sol = solve(&inst).expect("feasible instance");
    assert_eq!(sol.testats.len(), 2);
    // Both prefer Monday but Tara can sit there only once.
    assert_ne!(
        (sol.testats[0].tutor, sol.testats[0].slot),
        (sol.testats[1].tutor, sol.testats[1].slot)
    );
}

#[test]
fn solve_respects_tutor_capacity() {
    let mon = ts(WorkDay::Monday, 1);
    let tue = ts(WorkDay::Tuesday, 1);
    let inst = Instance {
        students: vec![
            student("ada", sa(&[mon], &[]), None),
            student("ben", sa(&[tue], &[]), None),
        ],
        // One whole session of capacity, although both slots are rated.
        tutors: vec![tutor("tara", sa(&[mon, tue], &[]), 2)],
    };
    let r = solve(&inst);
    // Tara can host exactly one testat; the second team is infeasible.
    let inf = r.expect_err("capacity exhausted");
    assert_eq!(inf.team_index, 1);
    assert_eq!(inf.team, Team::Single(1));
}

#[test]
fn solve_reports_team_with_no_acceptable_pairing() {
    let mon = ts(WorkDay::Monday, 1);
    let tue = ts(WorkDay::Tuesday, 1);
    let inst = Instance {
        students: vec![
            student("ada", sa(&[mon], &[]), None),
            student("ben", sa(&[tue], &[]), None),
        ],
        tutors: vec![tutor("tara", sa(&[mon], &[]), 2)],
    };
    let inf = solve(&inst).expect_err("no tutor accepts tuesday");
    assert_eq!(inf.team_index, 1);
    assert_eq!(inf.team, Team::Single(1));
}

#[test]
fn solve_backtracks_to_cover_every_team() {
    let mon = ts(WorkDay::Monday, 1);
    let tue = ts(WorkDay::Tuesday, 1);
    let inst = Instance {
        students: vec![
            student("ada", sa(&[mon], &[tue]), None),
            student("ben", sa(&[mon], &[]), None),
        ],
        tutors: vec![tutor("tara", sa(&[mon, tue], &[]), 4)],
    };
    // Giving Ada her good Monday slot would leave Ben nothing: the only
    // complete schedule moves Ada to her tolerable Tuesday.
    let sol = solve(&inst).expect("a complete schedule exists");
    assert_eq!(sol.testats.len(), 2);
    assert_eq!(sol.testats[0].team, Team::Single(0));
    assert_eq!(sol.testats[0].slot, tue);
    assert_eq!(sol.testats[1].team, Team::Single(1));
    assert_eq!(sol.testats[1].slot, mon);
}

#[test]
fn solve_with_no_students_yields_empty_schedule() {
    let mon = ts(WorkDay::Monday, 1);
    let inst = Instance {
        students: Vec::new(),
        tutors: vec![tutor("tara", sa(&[mon], &[]), 2)],
    };
    let sol = solve(&inst).expect("nothing to place");
    assert!(sol.testats.is_empty());
}

#[test]
fn solve_with_no_tutors_is_infeasible() {
    let mon = ts(WorkDay::Monday, 1);
    let inst = Instance {
        students: vec![student("ada", sa(&[mon], &[]), None)],
        tutors: Vec::new(),
    };
    let inf = solve(&inst).expect_err("nobody can host");
    assert_eq!(inf.team_index, 0);
    assert_eq!(inf.team, Team::Single(0));
}

#[test]
fn solve_reports_infeasibility_with_zero_capacity() {
    let mon = ts(WorkDay::Monday, 1);
    let inst = Instance {
        students: vec![student("ada", sa(&[mon], &[]), None)],
        // Half a stelle rounds down to zero whole sessions.
        tutors: vec![tutor("tara", sa(&[mon], &[]), 1)],
    };
    let inf = solve(&inst).expect_err("no whole session available");
    assert_eq!(inf.team_index, 0);
    assert_eq!(inf.team, Team::Single(0));
}
