//! The sessions on offer, and the checks that the sign-up data is usable.
use vstd::prelude::*;
use crate::student::Student;
use crate::{MISSING_PREFERENCE, NUM_PREFERENCES};

verus! {

/// A session taught by one presenter in a teacher's room, on a subject.
#[derive(Debug)]
pub struct Class {
    pub id: u16,
    pub subject: String,
    pub teacher: String,
    pub presenter: String,
}

/// The session list together with its configuration lines.
pub struct ClassOutput {
    pub num_sessions: u16,
    pub min_students: i32,
    pub max_students: i32,
    pub classes: Vec<Class>,
}

/// The first problem found in the sign-up data, with the index of the
/// student or session at fault.
#[derive(Debug, PartialEq, Eq, Structural, Clone, Copy)]
pub enum InputError {
    /// The student does not give exactly `NUM_PREFERENCES` preferences.
    PreferenceCount { student: usize },
    /// The student's preference at `preference` names no session.
    UnknownPreference { student: usize, preference: usize },
    /// The session's id is 0.
    InvalidClassId { class: usize },
    /// Another session has the same id.
    DuplicateClassId { class: usize },
    /// The student's id is 0.
    InvalidStudentId { student: usize },
    /// Another student has the same id.
    DuplicateStudentId { student: usize },
}

/// `p` is a session id of `classes`, or the empty-preference marker.
pub open spec fn preference_known(classes: Seq<Class>, p: u16) -> bool {
    p == MISSING_PREFERENCE || exists|k: int| 0 <= k < classes.len() && classes[k].id == p
}

/// The first `j` preferences of `s` are known.
pub open spec fn preferences_known_upto(classes: Seq<Class>, s: Student, j: int) -> bool {
    forall|m: int| 0 <= m < j ==> preference_known(classes, #[trigger] s.preferences@[m])
}

/// The student gives the right number of preferences, all of them known.
pub open spec fn student_preferences_ok(classes: Seq<Class>, s: Student) -> bool {
    &&& s.preferences@.len() == NUM_PREFERENCES
    &&& preferences_known_upto(classes, s, s.preferences@.len() as int)
}

/// The session at `k` has a nonzero id that no other session has.
pub open spec fn class_id_ok(classes: Seq<Class>, k: int) -> bool {
    &&& classes[k].id > 0
    &&& forall|m: int| 0 <= m < classes.len() && m != k ==> #[trigger] classes[m].id != classes[k].id
}

/// The student at `i` has a nonzero id that no other student has.
pub open spec fn student_id_ok(students: Seq<Student>, i: int) -> bool {
    &&& students[i].student_id > 0
    &&& forall|m: int| 0 <= m < students.len() && m != i ==> #[trigger] students[m].student_id != students[i].student_id
}

/// The first `i` students give valid preferences.
pub open spec fn all_preferences_ok_upto(classes: Seq<Class>, students: Seq<Student>, i: int) -> bool {
    forall|m: int| 0 <= m < i ==> student_preferences_ok(classes, #[trigger] students[m])
}

/// The first `k` sessions have valid ids.
pub open spec fn all_class_ids_ok_upto(classes: Seq<Class>, k: int) -> bool {
    forall|m: int| 0 <= m < k ==> #[trigger] class_id_ok(classes, m)
}

/// The first `i` students have valid ids.
pub open spec fn all_student_ids_ok_upto(students: Seq<Student>, i: int) -> bool {
    forall|m: int| 0 <= m < i ==> #[trigger] student_id_ok(students, m)
}

/// The sign-up data is usable: every student gives `NUM_PREFERENCES` known
/// preferences, and sessions and students have distinct nonzero ids.
pub open spec fn input_valid(classes: Seq<Class>, students: Seq<Student>) -> bool {
    &&& all_preferences_ok_upto(classes, students, students.len() as int)
    &&& all_class_ids_ok_upto(classes, classes.len() as int)
    &&& all_student_ids_ok_upto(students, students.len() as int)
}

/// `e` is the first problem: the checks run over students' preferences, then
/// session ids, then student ids, each in order, and stop at the first failure.
pub open spec fn is_first_input_error(classes: Seq<Class>, students: Seq<Student>, e: InputError) -> bool {
    match e {
        InputError::PreferenceCount { student } => {
            &&& student < students.len()
            &&& all_preferences_ok_upto(classes, students, student as int)
            &&& students[student as int].preferences@.len() != NUM_PREFERENCES
        },
        InputError::UnknownPreference { student, preference } => {
            &&& student < students.len()
            &&& all_preferences_ok_upto(classes, students, student as int)
            &&& students[student as int].preferences@.len() == NUM_PREFERENCES
            &&& preference < NUM_PREFERENCES
            &&& preferences_known_upto(classes, students[student as int], preference as int)
            &&& !preference_known(classes, students[student as int].preferences@[preference as int])
        },
        InputError::InvalidClassId { class } => {
            &&& class < classes.len()
            &&& all_preferences_ok_upto(classes, students, students.len() as int)
            &&& all_class_ids_ok_upto(classes, class as int)
            &&& classes[class as int].id == 0
        },
        InputError::DuplicateClassId { class } => {
            &&& class < classes.len()
            &&& all_preferences_ok_upto(classes, students, students.len() as int)
            &&& all_class_ids_ok_upto(classes, class as int)
            &&& classes[class as int].id > 0
            &&& !class_id_ok(classes, class as int)
        },
        InputError::InvalidStudentId { student } => {
            &&& student < students.len()
            &&& all_preferences_ok_upto(classes, students, students.len() as int)
            &&& all_class_ids_ok_upto(classes, classes.len() as int)
            &&& all_student_ids_ok_upto(students, student as int)
            &&& students[student as int].student_id == 0
        },
        InputError::DuplicateStudentId { student } => {
            &&& student < students.len()
            &&& all_preferences_ok_upto(classes, students, students.len() as int)
            &&& all_class_ids_ok_upto(classes, classes.len() as int)
            &&& all_student_ids_ok_upto(students, student as int)
            &&& students[student as int].student_id > 0
            &&& !student_id_ok(students, student as int)
        },
    }
}

/// Whether some session has id `id`.
pub fn class_id_listed(classes: &Vec<Class>, id: u16) -> (r: bool)
    ensures
        r == exists|k: int| 0 <= k < classes@.len() && classes@[k].id == id,
{
    let mut k: usize = 0;
    while k < classes.len()
        invariant
            k <= classes.len(),
            forall|m: int| 0 <= m < k ==> classes@[m].id != id,
        decreases classes.len() - k,
    {
        if classes[k].id == id {
            return true;
        }
        k = k + 1;
    }
    false
}

/// Whether a session other than the one at `k` has the id of the one at `k`.
fn class_id_repeated(classes: &Vec<Class>, k: usize) -> (r: bool)
    requires
        k < classes.len(),
    ensures
        r == exists|m: int| 0 <= m < classes@.len() && m != k && classes@[m].id == classes@[k as int].id,
{
    let id = classes[k].id;
    let mut m: usize = 0;
    while m < classes.len()
        invariant
            m <= classes.len(),
            k < classes.len(),
            id == classes@[k as int].id,
            forall|j: int| 0 <= j < m && j != k ==> classes@[j].id != id,
        decreases classes.len() - m,
    {
        if m != k && classes[m].id == id {
            return true;
        }
        m = m + 1;
    }
    false
}

/// Whether a student other than the one at `i` has the id of the one at `i`.
fn student_id_repeated(students: &Vec<Student>, i: usize) -> (r: bool)
    requires
        i < students.len(),
    ensures
        r == exists|m: int| 0 <= m < students@.len() && m != i && students@[m].student_id == students@[i as int].student_id,
{
    let id = students[i].student_id;
    let mut m: usize = 0;
    while m < students.len()
        invariant
            m <= students.len(),
            i < students.len(),
            id == students@[i as int].student_id,
            forall|j: int| 0 <= j < m && j != i ==> students@[j].student_id != id,
        decreases students.len() - m,
    {
        if m != i && students[m].student_id == id {
            return true;
        }
        m = m + 1;
    }
    false
}

/// Tests the sign-up data: every student gives exactly `NUM_PREFERENCES`
/// preferences, each a listed session id or the empty marker; then every
/// session id is nonzero and unique; then every student id is nonzero and
/// unique. Returns the first problem found; `check_valid_input` may be
/// called exactly when this returns `Ok`.
pub fn validate_input(classes: &Vec<Class>, students: &Vec<Student>) -> (r: Result<(), InputError>)
    ensures
        r is Ok <==> input_valid(classes@, students@),
        r matches Err(e) ==> is_first_input_error(classes@, students@, e),
{
    let mut i: usize = 0;
    while i < students.len()
        invariant
            i <= students.len(),
            all_preferences_ok_upto(classes@, students@, i as int),
        decreases students.len() - i,
    {
        let s = &students[i];
        if s.preferences.len() != NUM_PREFERENCES {
            return Err(InputError::PreferenceCount { student: i });
        }
        let mut j: usize = 0;
        while j < s.preferences.len()
            invariant
                j <= s.preferences.len(),
                i < students.len(),
                *s == students@[i as int],
                s.preferences@.len() == NUM_PREFERENCES,
                all_preferences_ok_upto(classes@, students@, i as int),
                preferences_known_upto(classes@, *s, j as int),
            decreases s.preferences.len() - j,
        {
            let p = s.preferences[j];
            if !(class_id_listed(classes, p) || p == MISSING_PREFERENCE) {
                return Err(InputError::UnknownPreference { student: i, preference: j });
            }
            j = j + 1;
        }
        i = i + 1;
    }
    let mut k: usize = 0;
    while k < classes.len()
        invariant
            k <= classes.len(),
            all_preferences_ok_upto(classes@, students@, students@.len() as int),
            all_class_ids_ok_upto(classes@, k as int),
        decreases classes.len() - k,
    {
        if classes[k].id == 0 {
            assert(!class_id_ok(classes@, k as int));
            return Err(InputError::InvalidClassId { class: k });
        }
        if class_id_repeated(classes, k) {
            assert(!class_id_ok(classes@, k as int));
            return Err(InputError::DuplicateClassId { class: k });
        }
        k = k + 1;
    }
    let mut i: usize = 0;
    while i < students.len()
        invariant
            i <= students.len(),
            all_preferences_ok_upto(classes@, students@, students@.len() as int),
            all_class_ids_ok_upto(classes@, classes@.len() as int),
            all_student_ids_ok_upto(students@, i as int),
        decreases students.len() - i,
    {
        if students[i].student_id == 0 {
            assert(!student_id_ok(students@, i as int));
            return Err(InputError::InvalidStudentId { student: i });
        }
        if student_id_repeated(students, i) {
            assert(!student_id_ok(students@, i as int));
            return Err(InputError::DuplicateStudentId { student: i });
        }
        i = i + 1;
    }
    Ok(())
}

/// The check of the sign-up data before scheduling: the data must be valid
/// (see `input_valid`); invalid data is outside what this accepts, and
/// `validate_input` tells which problem it has.
pub fn check_valid_input(classes: &Vec<Class>, students: &Vec<Student>)
    requires
        input_valid(classes@, students@),
{
    let r = validate_input(classes, students);
    assert(r is Ok);
}

} // verus!
