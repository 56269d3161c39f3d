//! When `schedule_valid` holds: on a schedule whose rosters agree with what
//! the students hold, it fails only for rosters outside the bounds or middle
//! schoolers in prohibited sessions.
use vstd::prelude::*;
use crate::student::{Student, StudentView, views};
use crate::schedule::{SessionModel, ids_distinct, has_class, class_index, roster, first_student_index, student_consistent,
    some_roster_out_of_bounds, schedule_valid_spec, lemma_first_student_exists, listed_once, listings_held,
    listed_student_holds, session_lists, lemma_class_index};
use crate::plan::{agree, held_by_listed, student_ids_distinct, no_marker_session, all_held, holdings_distinct, shaped, allowed};
use crate::{NUM_PERIODS, NUM_PREFERENCES, UNASSIGNED_CLASSS};

verus! {

/// Under agreement, a student is in the rosters of two sessions in the
/// same period only if they are the same session.
proof fn lemma_one_session_per_period(m: Seq<SessionModel>, sv: Seq<StudentView>, e1: int, e2: int, p: int, s: u32)
    requires
        ids_distinct(m),
        agree(m, sv),
        student_ids_distinct(sv),
        0 <= e1 < m.len(),
        0 <= e2 < m.len(),
        0 <= p < m[e1].1.len(),
        0 <= p < m[e2].1.len(),
        m[e1].1[p].contains(s),
        m[e2].1[p].contains(s),
    ensures
        e1 == e2,
{
    let k1 = choose|k: int| 0 <= k < m[e1].1[p].len() && m[e1].1[p][k] == s;
    let k2 = choose|k: int| 0 <= k < m[e2].1[p].len() && m[e2].1[p][k] == s;
    assert(held_by_listed(sv, m[e1].1[p][k1], p, m[e1].0));
    assert(held_by_listed(sv, m[e2].1[p][k2], p, m[e2].0));
    let i1 = choose|i: int| 0 <= i < sv.len() && sv[i].student_id == s && sv[i].classes[p] == m[e1].0;
    let i2 = choose|i: int| 0 <= i < sv.len() && sv[i].student_id == s && sv[i].classes[p] == m[e2].0;
    assert(i1 == i2);
}

/// On a schedule whose rosters agree with what the students hold (distinct
/// session ids, none of them the open-period marker; distinct student ids;
/// every student holding a session in each of the `NUM_PERIODS` periods,
/// never one session twice, and giving `NUM_PREFERENCES` preferences), the
/// schedule is valid (`schedule_valid_spec`) exactly when every roster is within the bounds and no
/// middle schooler holds a prohibited session.
pub proof fn lemma_valid_iff_within_limits(
    m: Seq<SessionModel>,
    students: Seq<Student>,
    min_students: i32,
    max_students: i32,
    prohibited: Seq<&u16>,
)
    requires
        ids_distinct(m),
        no_marker_session(m),
        shaped(m, views(students), NUM_PERIODS as int),
        agree(m, views(students)),
        student_ids_distinct(views(students)),
        all_held(m, views(students)),
        holdings_distinct(views(students)),
        forall|i: int| 0 <= i < students.len() ==> (#[trigger] students[i]).preferences@.len() == NUM_PREFERENCES,
    ensures
        schedule_valid_spec(m, students, min_students, max_students, prohibited) <==> (
            !some_roster_out_of_bounds(m, min_students, max_students)
            && forall|i: int, p: int| 0 <= i < views(students).len() && 0 <= p < NUM_PERIODS
                ==> allowed(views(students)[i].grade, #[trigger] views(students)[i].classes[p], prohibited)),
{
    let sv = views(students);
    assert forall|a: int, b: int, p: int, s: u32|
        0 <= a < m.len() && 0 <= b < m.len() && m[a].0 != m[b].0 && 0 <= p < m[a].1.len() && 0 <= p < m[b].1.len()
            && #[trigger] m[a].1[p].contains(s) implies !#[trigger] m[b].1[p].contains(s) by {
        if m[b].1[p].contains(s) {
            lemma_one_session_per_period(m, sv, a, b, p, s);
        }
    }
    assert(listed_once(m));
    assert forall|e: int, p: int, k: int| 0 <= e < m.len() && 0 <= p < m[e].1.len() && 0 <= k < m[e].1[p].len()
        implies listed_student_holds(students, #[trigger] m[e].1[p][k], p, m[e].0) by {
        let s = m[e].1[p][k];
        assert(held_by_listed(sv, s, p, m[e].0));
        let i = choose|i: int| 0 <= i < sv.len() && sv[i].student_id == s && sv[i].classes[p] == m[e].0;
        assert(sv[i] == students[i]@);
        lemma_first_student_exists(students, s, i);
        let f = first_student_index(students, s);
        assert(sv[f] == students[f]@);
        if f != i {
            assert(sv[f].student_id != sv[i].student_id);
        }
    }
    assert(listings_held(m, students));
    assert forall|i: int| 0 <= i < students.len() implies (#[trigger] student_consistent(m, students[i], prohibited)
        <==> forall|p: int| 0 <= p < NUM_PERIODS ==> allowed(students[i].grade, #[trigger] students[i].classes@[p], prohibited)) by {
        assert(sv[i] == students[i]@);
        let st = students[i];
        assert forall|p: int| 0 <= p < st.classes@.len() implies {
            let c = #[trigger] st.classes@[p];
            &&& session_lists(m, c, p, st.student_id)
            &&& forall|q: int| 0 <= q < st.classes@.len() && q != p ==> st.classes@[q] != c
        } by {
            let c = st.classes@[p];
            assert(sv[i].classes[p] == c);
            assert(has_class(m, c));
            let e = class_index(m, c);
            assert(0 <= e < m.len() && m[e].0 == c);
            assert(c != UNASSIGNED_CLASSS);
            assert(roster(m, c, p).contains(st.student_id));
            assert(m[e].1.len() == NUM_PERIODS);
            assert(m[e].1[p].contains(st.student_id));
            assert forall|q: int| 0 <= q < st.classes@.len() && q != p implies st.classes@[q] != c by {
                assert(sv[i].classes[q] == st.classes@[q]);
            }
        }
    }
    let within = forall|i: int, p: int| 0 <= i < sv.len() && 0 <= p < NUM_PERIODS
        ==> allowed(sv[i].grade, #[trigger] sv[i].classes[p], prohibited);
    if !some_roster_out_of_bounds(m, min_students, max_students) && within {
        assert forall|i: int| 0 <= i < students.len() implies #[trigger] student_consistent(m, students[i], prohibited) by {
            assert(sv[i] == students[i]@);
            assert forall|p: int| 0 <= p < NUM_PERIODS implies allowed(students[i].grade, #[trigger] students[i].classes@[p], prohibited) by {
                assert(allowed(sv[i].grade, sv[i].classes[p], prohibited));
            }
        }
        assert(schedule_valid_spec(m, students, min_students, max_students, prohibited));
    }
    if schedule_valid_spec(m, students, min_students, max_students, prohibited) {
        assert forall|i: int, p: int| 0 <= i < sv.len() && 0 <= p < NUM_PERIODS
            implies allowed(sv[i].grade, #[trigger] sv[i].classes[p], prohibited) by {
            assert(sv[i] == students[i]@);
            assert(student_consistent(m, students[i], prohibited));
            assert(allowed(students[i].grade, students[i].classes@[p], prohibited));
        }
    }
}

} // verus!
