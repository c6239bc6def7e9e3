//! Preference-weighted slot-assignment engine.
//!
//! Given a roster of students (optionally paired into teams by mutual
//! partner wishes), a roster of tutors with scaled capacity, and per-person
//! ratings of timeslots, the engine forms teams, aggregates fractional
//! demand and supply per timeslot, and solves for a schedule of testats:
//! sessions each binding one team, one tutor and one timeslot.
//!
//! All preference weights are kept as exact integers in half units
//! (`Good` = 2, `Tolerable` = 1, `NotFitting` = 0, i.e. 1.0 / 0.5 / 0.0),
//! and aggregated quantities as exact fractions, so every computation is
//! deterministic and exactly stated in the contracts.

#![verifier::loop_isolation(false)]

pub mod types;
pub mod algo;
pub mod solver;
