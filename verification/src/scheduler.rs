//! A whole scheduling run: students are put in serving order, the sign-up
//! data is validated, the passes place every student, and the finished
//! schedule must be consistent.
use vstd::prelude::*;
use crate::input::{Class, ClassOutput, input_valid, check_valid_input,
    student_preferences_ok, preference_known};
use crate::student::{Student, StudentView, views, order_value, priority_tier};
use crate::schedule::{Schedule, SessionModel, has_class, class_index, roster, dedup_ids, empty_periods, lemma_dedup_ids,
    schedule_valid, schedule_valid_spec, some_roster_out_of_bounds};
use crate::order::{sort_desc, seq_key, int_keys, positions, key_lt, lemma_sort_desc_sorted, position_list, sort_by_key_desc, apply_permutation,
    lemma_sort_desc_elements, lemma_positions};
use crate::plan::{ScheduleError, allowed, holds_preferred, plan_ok, holdings_known, all_held, same_sessions, is_listed, holdings_distinct, student_ids_distinct, agree, no_marker_session, within_limits, same_people, permute, lemma_same_people_permute, lemma_same_people_students, lemma_same_people_trans};
use crate::assign::{preference_passes, assign_preferences};
use crate::fill::{fill_upto, fill_open_periods};
use crate::topup::{topup, topup_ok, top_up_sessions};
use crate::validity::lemma_valid_iff_within_limits;
use crate::{NUM_PERIODS, NUM_PREFERENCES, UNASSIGNED_CLASSS, MISSING_PREFERENCE};

verus! {

/// The earliest sign-up time among the first `n` (at least one) students.
pub open spec fn earliest_upto(s: Seq<Student>, n: int) -> u64
    decreases n,
{
    if n <= 1 {
        s[0].timestamp
    } else {
        let e = earliest_upto(s, n - 1);
        if s[n - 1].timestamp < e {
            s[n - 1].timestamp
        } else {
            e
        }
    }
}

/// The earliest sign-up time of all students.
pub open spec fn earliest_timestamp(s: Seq<Student>) -> u64 {
    earliest_upto(s, s.len() as int)
}

/// The earliest time is one of the times, and no time is earlier.
pub proof fn lemma_earliest(s: Seq<Student>, n: int)
    requires
        1 <= n <= s.len(),
    ensures
        forall|i: int| 0 <= i < n ==> earliest_upto(s, n) <= #[trigger] s[i].timestamp,
        exists|i: int| 0 <= i < n && s[i].timestamp == earliest_upto(s, n),
    decreases n,
{
    if n > 1 {
        lemma_earliest(s, n - 1);
        if s[n - 1].timestamp < earliest_upto(s, n - 1) {
            assert(s[n - 1].timestamp == earliest_upto(s, n));
        } else {
            let i = choose|i: int| 0 <= i < n - 1 && s[i].timestamp == earliest_upto(s, n - 1);
            assert(s[i].timestamp == earliest_upto(s, n));
        }
    } else {
        assert(s[0].timestamp == earliest_upto(s, n));
    }
}

/// Each student keyed by (serving order value, position).
pub open spec fn serve_keys(s: Seq<Student>) -> Seq<(int, int)> {
    Seq::new(s.len(), |i: int| (order_value(s[i].grade, s[i].student_id, s[i].timestamp, earliest_timestamp(s)), i))
}

/// The positions of the students in serving order.
pub open spec fn serve_order(s: Seq<Student>) -> Seq<usize> {
    sort_desc(positions(s.len()), seq_key(serve_keys(s)))
}

/// The students in serving order: highest `sort_order` first; students with
/// the same value in the reverse of their given order.
pub open spec fn serving_order(s: Seq<Student>) -> Seq<Student> {
    serve_order(s).map_values(|j: usize| s[j as int])
}

/// The serving order holds each student exactly once.
pub proof fn lemma_serve_order(s: Seq<Student>)
    requires
        s.len() <= usize::MAX,
    ensures
        serve_order(s).len() == s.len(),
        serve_order(s).no_duplicates(),
        forall|y: usize| #[trigger] serve_order(s).contains(y) <==> y < s.len(),
        forall|k: int| 0 <= k < s.len() ==> #[trigger] serve_order(s)[k] < s.len(),
{
    lemma_positions(s.len());
    lemma_sort_desc_elements(positions(s.len()), seq_key(serve_keys(s)));
    assert forall|k: int| 0 <= k < s.len() implies #[trigger] serve_order(s)[k] < s.len() by {
        assert(serve_order(s).contains(serve_order(s)[k]));
    }
}

/// Students are served by `sort_order`, highest first: twelfth graders
/// (and the honorary senior) before eleventh graders before everyone else,
/// and within a tier earlier sign-ups first; students with the same value
/// are served in the reverse of their given order.
pub proof fn lemma_serving_order_sorted(s: Seq<Student>)
    requires
        s.len() <= usize::MAX,
        forall|i: int| 0 <= i < s.len() ==> #[trigger] s[i].timestamp - earliest_timestamp(s) <= 0x0100_0000_0000_0000,
    ensures
        serving_order(s).len() == s.len(),
        forall|a: int, b: int| 0 <= a < b < s.len() ==> {
            let x = #[trigger] serving_order(s)[a];
            let y = #[trigger] serving_order(s)[b];
            let t = earliest_timestamp(s);
            &&& order_value(x.grade, x.student_id, x.timestamp, t) >= order_value(y.grade, y.student_id, y.timestamp, t)
            &&& priority_tier(x.grade, x.student_id) >= priority_tier(y.grade, y.student_id)
            &&& priority_tier(x.grade, x.student_id) == priority_tier(y.grade, y.student_id) ==> x.timestamp <= y.timestamp
            &&& order_value(x.grade, x.student_id, x.timestamp, t) == order_value(y.grade, y.student_id, y.timestamp, t)
                ==> serve_order(s)[a] > serve_order(s)[b]
        },
{
    lemma_serve_order(s);
    if s.len() > 0 {
        lemma_earliest(s, s.len() as int);
    }
    let o = serve_order(s);
    let key = seq_key(serve_keys(s));
    lemma_sort_desc_sorted(positions(s.len()), key);
    let t = earliest_timestamp(s);
    assert forall|a: int, b: int| 0 <= a < b < s.len() implies {
        let x = #[trigger] serving_order(s)[a];
        let y = #[trigger] serving_order(s)[b];
        &&& order_value(x.grade, x.student_id, x.timestamp, t) >= order_value(y.grade, y.student_id, y.timestamp, t)
        &&& priority_tier(x.grade, x.student_id) >= priority_tier(y.grade, y.student_id)
        &&& priority_tier(x.grade, x.student_id) == priority_tier(y.grade, y.student_id) ==> x.timestamp <= y.timestamp
        &&& order_value(x.grade, x.student_id, x.timestamp, t) == order_value(y.grade, y.student_id, y.timestamp, t)
            ==> serve_order(s)[a] > serve_order(s)[b]
    } by {
        let x = serving_order(s)[a];
        let y = serving_order(s)[b];
        assert(!key_lt(key(o[a]), key(o[b])));
        assert(x == s[o[a] as int] && y == s[o[b] as int]);
        assert(key(o[a]) == serve_keys(s)[o[a] as int]);
        assert(key(o[b]) == serve_keys(s)[o[b] as int]);
        assert(t <= x.timestamp && t <= y.timestamp);
        assert(x.timestamp - t <= 0x0100_0000_0000_0000);
        assert(y.timestamp - t <= 0x0100_0000_0000_0000);
    }
}

/// The sessions of a fresh schedule: each session id once, in order of first
/// occurrence, with an empty roster in every period.
pub open spec fn initial_sessions(classes: Seq<Class>) -> Seq<SessionModel> {
    dedup_ids(classes.map_values(|c: Class| c.id)).map_values(|id: u16| (id, empty_periods(NUM_PERIODS as nat)))
}

/// The first two passes on a checked input: preferences, then open periods.
pub open spec fn placement(
    m: Seq<SessionModel>,
    sv: Seq<StudentView>,
    max_students: i32,
    prohibited: Seq<&u16>,
    aggressive_seniority_priority: bool,
) -> Result<(Seq<SessionModel>, Seq<StudentView>), ScheduleError> {
    let a = preference_passes(m, sv, max_students, prohibited, aggressive_seniority_priority);
    fill_upto(a.0, a.1, a.1.len() as int, max_students, prohibited)
}

/// The passes on a checked input: preferences, then open periods, then the
/// top-up of sessions below the minimum.
pub open spec fn scheduling_passes(
    m: Seq<SessionModel>,
    sv: Seq<StudentView>,
    min_students: i32,
    max_students: i32,
    prohibited: Seq<&u16>,
    aggressive_seniority_priority: bool,
) -> Result<(Seq<SessionModel>, Seq<StudentView>), ScheduleError> {
    match placement(m, sv, max_students, prohibited, aggressive_seniority_priority) {
        Err(e) => Err(e),
        Ok((m1, s1)) => topup(m1, s1, min_students, max_students, prohibited),
    }
}

/// A session slot for every period, none of them assigned yet.
pub open spec fn unassigned_periods() -> Seq<u16> {
    Seq::new(NUM_PERIODS as nat, |p: int| UNASSIGNED_CLASSS)
}

/// The earliest sign-up time.
fn earliest_timestamp_of(students: &Vec<Student>) -> (t: u64)
    requires
        students@.len() > 0,
    ensures
        t == earliest_timestamp(students@),
{
    let mut t = students[0].timestamp;
    let mut i: usize = 1;
    while i < students.len()
        invariant
            1 <= i <= students@.len(),
            t == earliest_upto(students@, i as int),
        decreases students@.len() - i,
    {
        if students[i].timestamp < t {
            t = students[i].timestamp;
        }
        i = i + 1;
    }
    t
}

/// Puts the students in serving order (see `serving_order`).
pub fn order_students(students: &mut Vec<Student>)
    requires
        old(students)@.len() > 0,
        forall|i: int| 0 <= i < old(students)@.len() ==>
            #[trigger] old(students)@[i].timestamp - earliest_timestamp(old(students)@) <= 0x0100_0000_0000_0000,
    ensures
        final(students)@ == serving_order(old(students)@),
{
    let ghost s = students@;
    let t = earliest_timestamp_of(students);
    proof {
        lemma_earliest(s, s.len() as int);
    }
    let n = students.len();
    let mut keys: Vec<(i128, i128)> = Vec::new();
    let mut i: usize = 0;
    while i < n
        invariant
            i <= n,
            n == s.len(),
            s == students@,
            t == earliest_timestamp(s),
            forall|j: int| 0 <= j < s.len() ==> t <= #[trigger] s[j].timestamp,
            forall|j: int| 0 <= j < s.len() ==> #[trigger] s[j].timestamp - t <= 0x0100_0000_0000_0000,
            keys@.len() == i,
            int_keys(keys@) == serve_keys(s).take(i as int),
        decreases n - i,
    {
        let order = students[i].sort_order(t);
        let ghost before = keys@;
        keys.push((order as i128, i as i128));
        proof {
            assert(int_keys(keys@) =~= serve_keys(s).take(i + 1)) by {
                assert forall|q: int| 0 <= q < i + 1 implies #[trigger] int_keys(keys@)[q] == serve_keys(s).take(i + 1)[q] by {
                    if q < i {
                        assert(keys@[q] == before[q]);
                        assert(int_keys(before)[q] == serve_keys(s).take(i as int)[q]);
                    }
                }
            }
        }
        i = i + 1;
    }
    assert(serve_keys(s).take(n as int) =~= serve_keys(s));
    let all = position_list(n);
    let order = sort_by_key_desc(&all, &keys);
    proof {
        lemma_serve_order(s);
        assert(order@ == serve_order(s));
    }
    let mut taken: Vec<Student> = Vec::new();
    std::mem::swap(&mut taken, students);
    let sorted = apply_permutation(taken, &order);
    *students = sorted;
    assert(students@ =~= serving_order(s));
}

/// Runs the whole scheduler on valid sign-up data (see `input_valid`; the
/// data is checked with `check_valid_input`). The students are first put in
/// serving order; then a schedule with an empty roster
/// per session and period is filled by the preference passes, the open
/// periods are filled, sessions below the minimum are topped up, and the
/// result must pass `schedule_valid`. The students end up holding their
/// sessions, in the order the top-up pass left them.
pub fn build_schedule(
    class_output: &ClassOutput,
    students: &mut Vec<Student>,
    middle_school_prohibited_classes: &[&u16],
    aggressive_seniority_priority: bool,
) -> (r: Result<Schedule, ScheduleError>)
    requires
        old(students)@.len() > 0,
        forall|i: int| 0 <= i < old(students)@.len() ==>
            #[trigger] old(students)@[i].timestamp - earliest_timestamp(old(students)@) <= 0x0100_0000_0000_0000,
        forall|i: int| 0 <= i < old(students)@.len() ==> #[trigger] old(students)@[i].classes@ == unassigned_periods(),
        class_output.min_students >= 0,
        class_output.max_students == -1 || class_output.max_students > 0,
        input_valid(class_output.classes@, old(students)@),
    ensures
        ({
            let classes = class_output.classes@;
            let sorted = serving_order(old(students)@);
            &&& holds_preferred(preference_passes(initial_sessions(classes), views(sorted), class_output.max_students,
                    middle_school_prohibited_classes@, aggressive_seniority_priority).1)
                &&& placement(initial_sessions(classes), views(sorted), class_output.max_students,
                    middle_school_prohibited_classes@, aggressive_seniority_priority) matches Ok((m1, s1))
                    ==> within_limits(m1, s1, class_output.max_students, middle_school_prohibited_classes@)
                &&& match scheduling_passes(initial_sessions(classes), views(sorted), class_output.min_students,
                    class_output.max_students, middle_school_prohibited_classes@, aggressive_seniority_priority) {
                    Err(e) => r == Err::<Schedule, ScheduleError>(e),
                    Ok((m, sv)) => {
                        &&& views(final(students)@) == sv
                        &&& same_people(views(old(students)@), sv)
                        &&& all_held(m, sv)
                        &&& holdings_distinct(sv)
                        &&& student_ids_distinct(sv)
                        &&& (forall|k: int| 0 <= k < classes.len() ==> #[trigger] classes[k].id != UNASSIGNED_CLASSS)
                            ==> agree(m, sv)
                        &&& (forall|k: int| 0 <= k < classes.len() ==> #[trigger] classes[k].id != UNASSIGNED_CLASSS)
                            ==> (schedule_valid_spec(m, final(students)@, class_output.min_students, class_output.max_students,
                                middle_school_prohibited_classes@) <==> (
                                !some_roster_out_of_bounds(m, class_output.min_students, class_output.max_students)
                                && forall|i: int, p: int| 0 <= i < sv.len() && 0 <= p < NUM_PERIODS
                                    ==> allowed(sv[i].grade, #[trigger] sv[i].classes[p], middle_school_prohibited_classes@)))
                        &&& (forall|k: int| 0 <= k < classes.len() ==> #[trigger] classes[k].id != UNASSIGNED_CLASSS)
                            ==> forall|e: int, p: int| 0 <= e < m.len() && 0 <= p < m[e].1.len()
                                ==> (#[trigger] m[e].1[p]).len() >= class_output.min_students
                        &&& if schedule_valid_spec(m, final(students)@, class_output.min_students,
                            class_output.max_students, middle_school_prohibited_classes@) {
                            r matches Ok(s) && s@ == m
                        } else {
                            r == Err::<Schedule, ScheduleError>(ScheduleError::InvalidSchedule)
                        }
                    },
                }
        }),
{
    let ghost s0 = students@;
    let min_students = class_output.min_students;
    let max_students = class_output.max_students;
    let n = students.len();
    assert(s0.len() == n);
    order_students(students);
    let ghost sorted = students@;
    proof {
        lemma_serve_order(s0);
        assert forall|k: int| 0 <= k < sorted.len() implies (#[trigger] sorted[k]).classes@ == unassigned_periods() by {
            assert(sorted[k] == s0[serve_order(s0)[k] as int]);
        }
    }
    proof {
        lemma_input_valid_permuted(class_output.classes@, s0, serve_order(s0), sorted);
    }
    check_valid_input(&class_output.classes, students);
    let mut schedule = Schedule::from_classes(&class_output.classes, NUM_PERIODS);
    let ghost m0 = schedule@;
    let ghost sv0 = views(students@);
    proof {
        let ids = class_output.classes@.map_values(|c: Class| c.id);
        lemma_dedup_ids(ids);
        assert(m0 =~= initial_sessions(class_output.classes@)) by {
            assert forall|e: int| 0 <= e < m0.len() implies #[trigger] m0[e] == initial_sessions(class_output.classes@)[e] by {
                assert(m0.map_values(|x: SessionModel| x.0)[e] == m0[e].0);
            }
        }
        lemma_initial_plan(class_output.classes@, sorted);
        assert(holds_preferred(sv0)) by {
            assert forall|i: int, p: int| 0 <= i < sv0.len() && 0 <= p < NUM_PERIODS && #[trigger] sv0[i].classes[p] != UNASSIGNED_CLASSS
                implies sv0[i].preferences.contains(sv0[i].classes[p]) by {
                assert(sv0[i] == sorted[i]@);
            }
        }
        assert(within_limits(m0, sv0, max_students, middle_school_prohibited_classes@)) by {
            assert forall|e: int, p: int| 0 <= e < m0.len() && 0 <= p < m0[e].1.len() implies
                max_students < 0 || (#[trigger] m0[e].1[p]).len() <= max_students by {
                assert(m0[e].1 == empty_periods(NUM_PERIODS as nat));
            }
            assert forall|i: int, p: int| 0 <= i < sv0.len() && 0 <= p < NUM_PERIODS && #[trigger] sv0[i].classes[p] != UNASSIGNED_CLASSS
                implies crate::plan::allowed(sv0[i].grade, sv0[i].classes[p], middle_school_prohibited_classes@) by {
                assert(sv0[i] == sorted[i]@);
            }
        }
    }
    assign_preferences(&mut schedule, students, max_students, middle_school_prohibited_classes, aggressive_seniority_priority);
    let ghost m1 = schedule@;
    let ghost sv1 = views(students@);
    proof {
        assert(views(sorted) =~= permute(views(s0), serve_order(s0)));
        lemma_same_people_permute(views(s0), serve_order(s0));
        lemma_same_people_students(sv0, sv1);
        lemma_same_people_trans(views(s0), sv0, sv1);
    }
    match fill_open_periods(&mut schedule, students, max_students, middle_school_prohibited_classes) {
        Ok(()) => {},
        Err(e) => {
            return Err(e);
        },
    }
    let ghost sv2 = views(students@);
    let ghost m2 = schedule@;
    let n_sessions = schedule.entries.len();
    assert(m2.len() == n_sessions);
    proof {
        lemma_same_people_students(sv1, sv2);
        lemma_same_people_trans(views(s0), sv1, sv2);
    }
    match top_up_sessions(&mut schedule, students, min_students, max_students, middle_school_prohibited_classes) {
        Ok(()) => {},
        Err(e) => {
            return Err(e);
        },
    }
    proof {
        lemma_same_people_trans(views(s0), sv2, views(students@));
        let mf = schedule@;
        assert(same_sessions(m0, mf)) by {
            assert forall|x: int| 0 <= x < m0.len() implies (#[trigger] m0[x]).0 == mf[x].0 && m0[x].1.len() == mf[x].1.len() by {
                assert(m0[x].0 == m1[x].0);
            }
        }
        if forall|k: int| 0 <= k < class_output.classes@.len() ==> #[trigger] class_output.classes@[k].id != UNASSIGNED_CLASSS {
            assert(no_marker_session(m0)) by {
                let ids = class_output.classes@.map_values(|c: Class| c.id);
                assert forall|x: int| 0 <= x < m0.len() implies (#[trigger] m0[x]).0 != UNASSIGNED_CLASSS by {
                    assert(m0[x].0 == dedup_ids(ids)[x]);
                    assert(dedup_ids(ids).contains(m0[x].0));
                    assert(ids.contains(m0[x].0));
                    let k = choose|k: int| 0 <= k < ids.len() && ids[k] == m0[x].0;
                    assert(class_output.classes@[k].id == ids[k]);
                }
            }
            assert(no_marker_session(mf)) by {
                assert forall|x: int| 0 <= x < mf.len() implies (#[trigger] mf[x]).0 != UNASSIGNED_CLASSS by {
                    assert(mf[x].0 == m0[x].0);
                }
            }
            assert(no_marker_session(m2)) by {
                assert forall|x: int| 0 <= x < m2.len() implies (#[trigger] m2[x]).0 != UNASSIGNED_CLASSS by {
                    assert(m2[x].0 == m1[x].0);
                    assert(m1[x].0 == m0[x].0);
                }
            }
            let svf = views(students@);
            assert forall|i: int| 0 <= i < sv2.len() implies (#[trigger] sv2[i]).preferences.len() == NUM_PREFERENCES by {
                assert(sv2[i].preferences == sv1[i].preferences);
                assert(sv1[i].preferences == sv0[i].preferences);
                assert(sv0[i] == sorted[i]@);
                assert(student_preferences_ok(class_output.classes@, sorted[i]));
            }
            lemma_preferences_kept(sv2, svf);
            assert forall|i: int| 0 <= i < students@.len() implies (#[trigger] students@[i]).preferences@.len() == NUM_PREFERENCES by {
                assert(svf[i] == students@[i]@);
            }
            lemma_valid_iff_within_limits(mf, students@, min_students, max_students, middle_school_prohibited_classes@);
        }
    }
    if schedule_valid(&schedule, students, min_students, max_students, middle_school_prohibited_classes) {
        Ok(schedule)
    } else {
        Err(ScheduleError::InvalidSchedule)
    }
}

/// Valid sign-up data stays valid when the students are reordered.
proof fn lemma_input_valid_permuted(classes: Seq<Class>, s: Seq<Student>, perm: Seq<usize>, t: Seq<Student>)
    requires
        input_valid(classes, s),
        perm.len() == s.len(),
        t.len() == s.len(),
        perm.no_duplicates(),
        forall|k: int| 0 <= k < perm.len() ==> #[trigger] perm[k] < s.len(),
        forall|k: int| 0 <= k < t.len() ==> #[trigger] t[k] == s[perm[k] as int],
    ensures
        input_valid(classes, t),
{
    assert forall|m: int| 0 <= m < t.len() implies student_preferences_ok(classes, #[trigger] t[m]) by {
        assert(t[m] == s[perm[m] as int]);
    }
    assert forall|i: int| 0 <= i < t.len() implies #[trigger] crate::input::student_id_ok(t, i) by {
        assert(t[i] == s[perm[i] as int]);
        assert(crate::input::student_id_ok(s, perm[i] as int));
        assert forall|m: int| 0 <= m < t.len() && m != i implies #[trigger] t[m].student_id != t[i].student_id by {
            assert(t[m] == s[perm[m] as int]);
            assert(perm[m] != perm[i]);
        }
    }
}

/// Students with `NUM_PREFERENCES` preferences keep them through a
/// rearrangement.
proof fn lemma_preferences_kept(a: Seq<StudentView>, b: Seq<StudentView>)
    requires
        same_people(a, b),
        forall|i: int| 0 <= i < a.len() ==> (#[trigger] a[i]).preferences.len() == NUM_PREFERENCES,
    ensures
        forall|k: int| 0 <= k < b.len() ==> (#[trigger] b[k]).preferences.len() == NUM_PREFERENCES,
{
    let perm = choose|perm: Seq<int>| crate::plan::is_permutation(perm, a.len())
        && forall|k: int| 0 <= k < b.len() ==> crate::plan::same_details(a[perm[k]], #[trigger] b[k]);
    assert forall|k: int| 0 <= k < b.len() implies (#[trigger] b[k]).preferences.len() == NUM_PREFERENCES by {
        assert(crate::plan::same_details(a[perm[k]], b[k]));
        assert(0 <= perm[k] < a.len());
    }
}

/// A fresh schedule with checked, unassigned students meets the invariant
/// of the passes.
proof fn lemma_initial_plan(classes: Seq<Class>, students: Seq<Student>)
    requires
        input_valid(classes, students),
        forall|k: int| 0 <= k < students.len() ==> (#[trigger] students[k]).classes@ == unassigned_periods(),
    ensures
        plan_ok(initial_sessions(classes), views(students)),
        holdings_known(initial_sessions(classes), views(students)),
{
    let m = initial_sessions(classes);
    let sv = views(students);
    let ids = classes.map_values(|c: Class| c.id);
    lemma_dedup_ids(ids);
    assert forall|a: int, b: int| 0 <= a < m.len() && 0 <= b < m.len() && a != b implies #[trigger] m[a].0 != #[trigger] m[b].0 by {
        assert(m[a].0 == dedup_ids(ids)[a]);
        assert(m[b].0 == dedup_ids(ids)[b]);
    }
    assert forall|i: int, j: int| 0 <= i < sv.len() && 0 <= j < sv[i].preferences.len() implies
        (#[trigger] sv[i].preferences[j] == MISSING_PREFERENCE || has_class(m, sv[i].preferences[j])) by {
        assert(sv[i] == students[i]@);
        assert(student_preferences_ok(classes, students[i]));
        let pr = students[i].preferences@[j];
        assert(preference_known(classes, pr));
        if pr != MISSING_PREFERENCE {
            let k = choose|k: int| 0 <= k < classes.len() && classes[k].id == pr;
            assert(ids[k] == pr);
            assert(ids.contains(pr));
            assert(dedup_ids(ids).contains(pr));
            let e = choose|e: int| 0 <= e < dedup_ids(ids).len() && dedup_ids(ids)[e] == pr;
            assert(m[e].0 == pr);
        }
    }
    assert forall|i: int| 0 <= i < sv.len() implies (#[trigger] sv[i]).classes.len() == NUM_PERIODS as int by {
        assert(sv[i] == students[i]@);
    }
    assert forall|i: int, p: int| 0 <= i < sv.len() && 0 <= p < NUM_PERIODS implies
        (#[trigger] sv[i].classes[p] == UNASSIGNED_CLASSS || has_class(m, sv[i].classes[p])) by {
        assert(sv[i] == students[i]@);
    }
    assert forall|i: int, p: int, q: int| 0 <= i < sv.len() && 0 <= p < NUM_PERIODS && 0 <= q < NUM_PERIODS && p != q
        && #[trigger] sv[i].classes[p] != UNASSIGNED_CLASSS implies sv[i].classes[p] != #[trigger] sv[i].classes[q] by {
        assert(sv[i] == students[i]@);
    }
    assert forall|i: int, p: int| 0 <= i < sv.len() && 0 <= p < NUM_PERIODS && #[trigger] sv[i].classes[p] != UNASSIGNED_CLASSS
        implies has_class(m, sv[i].classes[p]) && roster(m, sv[i].classes[p], p).contains(sv[i].student_id) by {
        assert(sv[i] == students[i]@);
    }
    assert forall|e: int, p: int| 0 <= e < m.len() && 0 <= p < m[e].1.len() implies (#[trigger] m[e].1[p]).no_duplicates() by {
        assert(m[e].1[p].len() == 0);
    }
    assert forall|a: int, b: int| 0 <= a < sv.len() && 0 <= b < sv.len() && a != b implies
        #[trigger] sv[a].student_id != #[trigger] sv[b].student_id by {
        assert(sv[a] == students[a]@ && sv[b] == students[b]@);
        assert(crate::input::student_id_ok(students, a));
    }
}

} // verus!
