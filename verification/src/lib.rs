//! Assigns students to presenter sessions across the periods of a day, from
//! their ranked preferences, session capacities and grade rules.
use vstd::prelude::*;

pub mod seq_util;
pub mod text;
pub mod student;
pub mod input;
pub mod schedule;
pub mod order;
pub mod plan;
pub mod assign;
pub mod fill;
pub mod topup;
pub mod scheduler;
pub mod validity;
pub mod records;
pub mod report;

verus! {

/// Number of periods (sessions) each student attends.
pub const NUM_PERIODS: u16 = 4;

/// Number of ranked preferences each student gives.
pub const NUM_PREFERENCES: usize = 6;

/// A preference slot the student left empty.
pub const MISSING_PREFERENCE: u16 = 0xfffe;

/// A period in which the student has no session yet.
pub const UNASSIGNED_CLASSS: u16 = 0xffff;

/// Sessions that middle school students (grade 8 or lower) cannot be in.
pub const MIDDLE_SCHOOL_PROHIBITED_CLASSES: [&'static u16; 3] = [&45, &46, &47];

/// Whether upper classmen are served first, taking every preferred session
/// that fits before younger students take one each.
pub const AGGRESSIVE_SENIORITY_PRIORITY: bool = true;

} // verus!
