//! The preference passes: students, in serving order, join the sessions
//! they prefer.
use vstd::prelude::*;
use crate::schedule::{Schedule, SessionModel, has_class, class_index};
use crate::student::{Student, StudentView, views};
use crate::seq_util::{contains_ref_u16, contains_u16};
use crate::{MISSING_PREFERENCE, UNASSIGNED_CLASSS};
use crate::plan::{join, set_class, same_sessions, same_students, lemma_same_sessions, lemma_join_same, lemma_set_class_same, add_to_roster, set_student_class, has_room, allowed, within_limits, lemma_limits_join, lemma_agree_join, lemma_listed_students, lemma_listed_join, plan_ok, lemma_plan_ok_kept, holdings_known, lemma_holdings_after_set, holds_preferred};

verus! {

/// The first period from `p` on in which session `e` has room and the
/// student is free.
pub open spec fn open_period_from(m: Seq<SessionModel>, e: int, st: StudentView, max_students: i32, p: int) -> Option<int>
    decreases m[e].1.len() - p,
{
    if p < 0 || p >= m[e].1.len() {
        None
    } else if has_room(m[e].1[p].len() as int, max_students) && st.classes[p] == UNASSIGNED_CLASSS {
        Some(p)
    } else {
        open_period_from(m, e, st, max_students, p + 1)
    }
}

/// The period a student joins a session in is the first, from `p0` on, in
/// which the student is free and the session has room (fewer students than a
/// nonnegative maximum): no earlier free period has room, and when there is
/// none, every free period from `p0` on is full.
pub proof fn lemma_open_period_first_free_with_room(
    m: Seq<SessionModel>,
    e: int,
    st: StudentView,
    max_students: i32,
    p0: int,
)
    requires
        0 <= p0,
    ensures
        match open_period_from(m, e, st, max_students, p0) {
            Some(p) => p0 <= p < m[e].1.len() && st.classes[p] == UNASSIGNED_CLASSS
                && (max_students < 0 || m[e].1[p].len() < max_students)
                && forall|q: int| p0 <= q < p && st.classes[q] == UNASSIGNED_CLASSS
                    ==> max_students >= 0 && m[e].1[q].len() >= max_students,
            None => forall|q: int| p0 <= q < m[e].1.len() && st.classes[q] == UNASSIGNED_CLASSS
                ==> max_students >= 0 && m[e].1[q].len() >= max_students,
        },
    decreases m[e].1.len() - p0,
{
    if p0 < m[e].1.len() {
        lemma_open_period_first_free_with_room(m, e, st, max_students, p0 + 1);
    }
}

/// One preference of student `i`: when the student is not done, the
/// preference is not empty, the student does not hold that session yet and
/// may take it, they join it in its first period with room in which they
/// are free; with `first_only`, that ends the student's turn.
pub open spec fn choice_step(
    plan: (Seq<SessionModel>, Seq<StudentView>, bool),
    i: int,
    c: u16,
    max_students: i32,
    prohibited: Seq<&u16>,
    first_only: bool,
) -> (Seq<SessionModel>, Seq<StudentView>, bool) {
    let m = plan.0;
    let sv = plan.1;
    if plan.2 || c == MISSING_PREFERENCE || sv[i].classes.contains(c) || !allowed(sv[i].grade, c, prohibited) {
        plan
    } else {
        let e = class_index(m, c);
        match open_period_from(m, e, sv[i], max_students, 0) {
            Some(p) => (join(m, e, p, sv[i].student_id), set_class(sv, i, p, c), first_only),
            None => plan,
        }
    }
}

/// One preference step for a student who is not done, for a preferred
/// session `c` in the schedule that they neither hold nor are barred from:
/// they join `c` in the first period in which they are free and it has room,
/// holding it there and added to its roster; when every period in which
/// they are free is full, nothing changes.
pub proof fn lemma_choice_step_first_open_period(
    plan: (Seq<SessionModel>, Seq<StudentView>, bool),
    i: int,
    c: u16,
    max_students: i32,
    prohibited: Seq<&u16>,
    first_only: bool,
)
    requires
        0 <= i < plan.1.len(),
        has_class(plan.0, c),
        !plan.2,
        c != MISSING_PREFERENCE,
        !plan.1[i].classes.contains(c),
        allowed(plan.1[i].grade, c, prohibited),
    ensures
        ({
            let m = plan.0;
            let st = plan.1[i];
            let e = class_index(m, c);
            let r = choice_step(plan, i, c, max_students, prohibited, first_only);
            &&& (forall|q: int| 0 <= q < m[e].1.len() && st.classes[q] == UNASSIGNED_CLASSS
                ==> max_students >= 0 && m[e].1[q].len() >= max_students) ==> r == plan
            &&& forall|p: int| 0 <= p < m[e].1.len() && st.classes[p] == UNASSIGNED_CLASSS
                && (max_students < 0 || m[e].1[p].len() < max_students)
                && (forall|q: int| 0 <= q < p && st.classes[q] == UNASSIGNED_CLASSS
                    ==> max_students >= 0 && m[e].1[q].len() >= max_students)
                ==> r.1[i].classes == st.classes.update(p, c)
                    && r.0[e].1[p] == m[e].1[p].push(st.student_id)
                    && m[e].0 == c
                    && r.2 == first_only
        }),
{
    let m = plan.0;
    let st = plan.1[i];
    let e = class_index(m, c);
    lemma_open_period_first_free_with_room(m, e, st, max_students, 0);
    let w = choose|w: int| 0 <= w < m.len() && m[w].0 == c;
    assert(0 <= e < m.len() && m[e].0 == c);
    match open_period_from(m, e, st, max_students, 0) {
        Some(p0) => {
            assert forall|p: int| 0 <= p < m[e].1.len() && st.classes[p] == UNASSIGNED_CLASSS
                && (max_students < 0 || m[e].1[p].len() < max_students)
                && (forall|q: int| 0 <= q < p && st.classes[q] == UNASSIGNED_CLASSS
                    ==> max_students >= 0 && m[e].1[q].len() >= max_students)
                implies p == p0 by {
                if p < p0 {
                } else if p0 < p {
                    assert(st.classes[p0] == UNASSIGNED_CLASSS);
                }
            }
        },
        None => {},
    }
}

/// The state after student `i` has gone through their first `j` preferences.
pub open spec fn place_upto(
    m: Seq<SessionModel>,
    sv: Seq<StudentView>,
    i: int,
    j: int,
    max_students: i32,
    prohibited: Seq<&u16>,
    first_only: bool,
) -> (Seq<SessionModel>, Seq<StudentView>, bool)
    decreases j,
{
    if j <= 0 {
        (m, sv, false)
    } else {
        choice_step(place_upto(m, sv, i, j - 1, max_students, prohibited, first_only), i, sv[i].preferences[j - 1], max_students, prohibited, first_only)
    }
}

/// The first period in which session `e` has room and the student is free.
fn find_open_period(schedule: &Schedule, e: usize, st: &Student, max_students: i32) -> (r: Option<usize>)
    requires
        e < schedule@.len(),
        schedule@[e as int].1.len() <= st.classes@.len(),
    ensures
        match r {
            Some(p) => open_period_from(schedule@, e as int, st@, max_students, 0) == Some(p as int)
                && p < schedule@[e as int].1.len() && p < st.classes@.len()
                && st.classes@[p as int] == UNASSIGNED_CLASSS
                && has_room(schedule@[e as int].1[p as int].len() as int, max_students),
            None => open_period_from(schedule@, e as int, st@, max_students, 0) is None,
        },
{
    let entry = &schedule.entries[e];
    assert(schedule@[e as int] == entry@);
    let mut p: usize = 0;
    while p < entry.periods.len()
        invariant
            p <= entry.periods.len(),
            e < schedule@.len(),
            schedule@[e as int] == entry@,
            entry.periods@.len() <= st.classes@.len(),
            open_period_from(schedule@, e as int, st@, max_students, 0) == open_period_from(schedule@, e as int, st@, max_students, p as int),
        decreases entry.periods.len() - p,
    {
        let len = entry.periods[p].len();
        assert(schedule@[e as int].1[p as int].len() == len);
        let room = max_students < 0 || len < (max_students as usize);
        if room && st.classes[p] == UNASSIGNED_CLASSS {
            return Some(p);
        }
        p = p + 1;
    }
    None
}

/// Student `i` goes through their preferences in rank order, joining each
/// preferred session they may take and do not hold yet in its first period
/// with room in which they are free; with `first_only` they stop after the
/// first session joined.
pub fn place_student(
    schedule: &mut Schedule,
    students: &mut Vec<Student>,
    i: usize,
    max_students: i32,
    prohibited: &[&u16],
    first_only: bool,
)
    requires
        i < old(students)@.len(),
        plan_ok(old(schedule)@, views(old(students)@)),
        holdings_known(old(schedule)@, views(old(students)@)),
    ensures
        holdings_known(final(schedule)@, views(final(students)@)),
        ({
            let r = place_upto(old(schedule)@, views(old(students)@), i as int,
                views(old(students)@)[i as int].preferences.len() as int, max_students, prohibited@, first_only);
            &&& final(schedule)@ == r.0
            &&& views(final(students)@) == r.1
        }),
        same_sessions(old(schedule)@, final(schedule)@),
        within_limits(old(schedule)@, views(old(students)@), max_students, prohibited@) ==> within_limits(final(schedule)@, views(final(students)@), max_students, prohibited@),
        same_students(views(old(students)@), views(final(students)@)),
        plan_ok(final(schedule)@, views(final(students)@)),
        holds_preferred(views(old(students)@)) ==> holds_preferred(views(final(students)@)),
        forall|x: int| 0 <= x < views(old(students)@).len() && x != i ==> #[trigger] views(final(students)@)[x] == views(old(students)@)[x],
{
    let ghost m0 = schedule@;
    let ghost sv0 = views(students@);
    let mut done = false;
    let n = students[i].preferences.len();
    assert(sv0[i as int] == students@[i as int]@);
    let mut j: usize = 0;
    while j < n
        invariant
            j <= n,
            i < students@.len(),
            n == sv0[i as int].preferences.len(),
            sv0 == views(old(students)@),
            m0 == old(schedule)@,
            plan_ok(m0, sv0),
            place_upto(m0, sv0, i as int, j as int, max_students, prohibited@, first_only)
                == (schedule@, views(students@), done),
            same_sessions(m0, schedule@),
            within_limits(m0, sv0, max_students, prohibited@) ==> within_limits(schedule@, views(students@), max_students, prohibited@),
            same_students(sv0, views(students@)),
            plan_ok(schedule@, views(students@)),
            holdings_known(schedule@, views(students@)),
            holds_preferred(sv0) ==> holds_preferred(views(students@)),
            forall|x: int| 0 <= x < sv0.len() && x != i ==> #[trigger] views(students@)[x] == sv0[x],
        decreases n - j,
    {
        proof {
            assert(views(students@)[i as int] == students@[i as int]@);
            assert(views(students@)[i as int].preferences == sv0[i as int].preferences);
        }
        let c = students[i].preferences[j];
        let ghost before = (schedule@, views(students@), done);
        assert(c == sv0[i as int].preferences[j as int]);
        if !done && c != MISSING_PREFERENCE && !contains_u16(&students[i].classes, c)
            && !(students[i].grade <= 8 && contains_ref_u16(prohibited, c)) {
            proof {
                assert(has_class(schedule@, c)) by {
                    assert(views(students@)[i as int].preferences[j as int] == c);
                }
            }
            let e = match schedule.find_class(c) {
                Some(e) => e,
                None => {
                    assert(false);
                    0
                },
            };
            proof {
                assert(schedule@[e as int].1.len() == crate::NUM_PERIODS as int);
                assert(views(students@)[i as int].classes.len() >= crate::NUM_PERIODS as int);
            }
            match find_open_period(schedule, e, &students[i], max_students) {
                Some(p) => {
                    let ghost m1 = schedule@;
                    let ghost sv1 = views(students@);
                    let sid = students[i].student_id;
                    add_to_roster(schedule, e, p, sid);
                    set_student_class(students, i, p, c);
                    proof {
                        lemma_join_same(m1, e as int, p as int, sid);
                        lemma_set_class_same(sv1, i as int, p as int, c);
                        lemma_listed_join(m1, sv1, e as int, p as int, i as int);
                        lemma_agree_join(m1, sv1, e as int, p as int, i as int);
                        if within_limits(m0, sv0, max_students, prohibited@) {
                            lemma_limits_join(m1, sv1, e as int, p as int, i as int, max_students, prohibited@);
                        }
                        lemma_listed_students(schedule@, sv1, views(students@));
                        lemma_plan_ok_kept(m1, sv1, schedule@, views(students@));
                        lemma_same_sessions(m0, m1);
                        assert(m1[e as int].0 == c);
                        lemma_holdings_after_set(m1, sv1, i as int, p as int, c, schedule@);
                        let sv2 = views(students@);
                        assert(sv1[i as int].preferences[j as int] == c);
                        if holds_preferred(sv0) {
                            assert forall|x: int, q: int| 0 <= x < sv2.len() && 0 <= q < crate::NUM_PERIODS
                                && #[trigger] sv2[x].classes[q] != UNASSIGNED_CLASSS implies sv2[x].preferences.contains(sv2[x].classes[q]) by {
                                if x == i as int && q == p as int {
                                    assert(sv2[x].preferences[j as int] == c);
                                } else {
                                    assert(sv2[x].classes[q] == sv1[x].classes[q]);
                                    assert(sv2[x].preferences == sv1[x].preferences);
                                }
                            }
                        }
                        assert forall|x: int| 0 <= x < sv0.len() && x != i implies #[trigger] sv2[x] == sv0[x] by {
                            assert(sv2[x] == sv1[x]);
                        }
                    }
                    done = first_only;
                },
                None => {},
            }
        }
        j = j + 1;
    }
}

/// How a pass over the students treats them.
#[derive(PartialEq, Eq, Structural, Clone, Copy, Debug)]
pub enum SweepMode {
    /// Upper classmen (grade 11 and up) take every preferred session they
    /// can; the pass ends at the first younger student.
    SeniorsFirst,
    /// Every student takes their first preferred session that fits.
    Everyone,
    /// Students below grade 11 take their first preferred session that fits;
    /// upper classmen are passed over.
    Underclassmen,
}

/// Whether a pass of this kind serves a student of this grade.
pub open spec fn served(mode: SweepMode, grade: u8) -> bool {
    match mode {
        SweepMode::SeniorsFirst => grade >= 11,
        SweepMode::Everyone => true,
        SweepMode::Underclassmen => grade < 11,
    }
}

/// The state after a pass has reached the first `k` students, and whether
/// the pass has ended early.
pub open spec fn sweep_upto(
    m: Seq<SessionModel>,
    sv: Seq<StudentView>,
    k: int,
    mode: SweepMode,
    max_students: i32,
    prohibited: Seq<&u16>,
) -> (Seq<SessionModel>, Seq<StudentView>, bool)
    decreases k,
{
    if k <= 0 {
        (m, sv, false)
    } else {
        let r = sweep_upto(m, sv, k - 1, mode, max_students, prohibited);
        let i = k - 1;
        if r.2 {
            r
        } else {
            match mode {
                SweepMode::SeniorsFirst => if r.1[i].grade < 11 {
                    (r.0, r.1, true)
                } else {
                    let q = place_upto(r.0, r.1, i, r.1[i].preferences.len() as int, max_students, prohibited, false);
                    (q.0, q.1, false)
                },
                SweepMode::Everyone => {
                    let q = place_upto(r.0, r.1, i, r.1[i].preferences.len() as int, max_students, prohibited, true);
                    (q.0, q.1, false)
                },
                SweepMode::Underclassmen => if r.1[i].grade >= 11 {
                    r
                } else {
                    let q = place_upto(r.0, r.1, i, r.1[i].preferences.len() as int, max_students, prohibited, true);
                    (q.0, q.1, false)
                },
            }
        }
    }
}

/// The state after `n` passes.
pub open spec fn sweeps(
    m: Seq<SessionModel>,
    sv: Seq<StudentView>,
    n: int,
    mode: SweepMode,
    max_students: i32,
    prohibited: Seq<&u16>,
) -> (Seq<SessionModel>, Seq<StudentView>)
    decreases n,
{
    if n <= 0 {
        (m, sv)
    } else {
        let r = sweeps(m, sv, n - 1, mode, max_students, prohibited);
        let q = sweep_upto(r.0, r.1, r.1.len() as int, mode, max_students, prohibited);
        (q.0, q.1)
    }
}

/// One pass over the students in order.
pub fn sweep(
    schedule: &mut Schedule,
    students: &mut Vec<Student>,
    mode: SweepMode,
    max_students: i32,
    prohibited: &[&u16],
)
    requires
        plan_ok(old(schedule)@, views(old(students)@)),
        holdings_known(old(schedule)@, views(old(students)@)),
    ensures
        holdings_known(final(schedule)@, views(final(students)@)),
        ({
            let r = sweep_upto(old(schedule)@, views(old(students)@), views(old(students)@).len() as int, mode, max_students, prohibited@);
            &&& final(schedule)@ == r.0
            &&& views(final(students)@) == r.1
        }),
        same_sessions(old(schedule)@, final(schedule)@),
        within_limits(old(schedule)@, views(old(students)@), max_students, prohibited@) ==> within_limits(final(schedule)@, views(final(students)@), max_students, prohibited@),
        same_students(views(old(students)@), views(final(students)@)),
        plan_ok(final(schedule)@, views(final(students)@)),
        holds_preferred(views(old(students)@)) ==> holds_preferred(views(final(students)@)),
        forall|x: int| 0 <= x < views(old(students)@).len() && !served(mode, views(old(students)@)[x].grade)
            ==> #[trigger] views(final(students)@)[x] == views(old(students)@)[x],
{
    let ghost m0 = schedule@;
    let ghost sv0 = views(students@);
    let n = students.len();
    let mut k: usize = 0;
    while k < n
        invariant
            k <= n,
            n == students@.len(),
            n == sv0.len(),
            m0 == old(schedule)@,
            sv0 == views(old(students)@),
            sweep_upto(m0, sv0, k as int, mode, max_students, prohibited@) == (schedule@, views(students@), false),
            same_sessions(m0, schedule@),
            within_limits(m0, sv0, max_students, prohibited@) ==> within_limits(schedule@, views(students@), max_students, prohibited@),
            same_students(sv0, views(students@)),
            plan_ok(schedule@, views(students@)),
            holdings_known(schedule@, views(students@)),
            holds_preferred(sv0) ==> holds_preferred(views(students@)),
            forall|x: int| 0 <= x < n && (x >= k || !served(mode, sv0[x].grade)) ==> #[trigger] views(students@)[x] == sv0[x],
        decreases n - k,
    {
        let ghost m1 = schedule@;
        let ghost sv1 = views(students@);
        proof {
            assert(sv1[k as int] == students@[k as int]@);
        }
        let grade = students[k].grade;
        match mode {
            SweepMode::SeniorsFirst => {
                if grade < 11 {
                    proof {
                        lemma_sweep_stops(m0, sv0, k as int, n as int, mode, max_students, prohibited@);
                    }
                    return;
                }
                place_student(schedule, students, k, max_students, prohibited, false);
            },
            SweepMode::Everyone => {
                place_student(schedule, students, k, max_students, prohibited, true);
            },
            SweepMode::Underclassmen => {
                if grade < 11 {
                    place_student(schedule, students, k, max_students, prohibited, true);
                }
            },
        }
        proof {
            lemma_same_sessions(m0, m1);
            assert(sv1[k as int] == sv0[k as int]);
            assert forall|x: int| 0 <= x < n && (x >= k + 1 || !served(mode, sv0[x].grade)) implies #[trigger] views(students@)[x] == sv0[x] by {
                if x != k as int {
                    assert(views(students@)[x] == sv1[x]);
                }
            }
        }
        k = k + 1;
    }
}

/// Once a pass has ended early, the later students change nothing.
proof fn lemma_sweep_stops(
    m: Seq<SessionModel>,
    sv: Seq<StudentView>,
    k: int,
    n: int,
    mode: SweepMode,
    max_students: i32,
    prohibited: Seq<&u16>,
)
    requires
        0 <= k < n,
        mode == SweepMode::SeniorsFirst,
        ({
            let r = sweep_upto(m, sv, k, mode, max_students, prohibited);
            !r.2 && r.1[k].grade < 11
        }),
    ensures
        ({
            let r = sweep_upto(m, sv, k, mode, max_students, prohibited);
            sweep_upto(m, sv, n, mode, max_students, prohibited) == (r.0, r.1, true)
        }),
    decreases n - k,
{
    if n > k + 1 {
        lemma_sweep_stops(m, sv, k, n - 1, mode, max_students, prohibited);
    }
}

/// `n` passes over the students.
pub fn sweep_times(
    schedule: &mut Schedule,
    students: &mut Vec<Student>,
    n: u16,
    mode: SweepMode,
    max_students: i32,
    prohibited: &[&u16],
)
    requires
        plan_ok(old(schedule)@, views(old(students)@)),
        holdings_known(old(schedule)@, views(old(students)@)),
    ensures
        holdings_known(final(schedule)@, views(final(students)@)),
        ({
            let r = sweeps(old(schedule)@, views(old(students)@), n as int, mode, max_students, prohibited@);
            &&& final(schedule)@ == r.0
            &&& views(final(students)@) == r.1
        }),
        same_sessions(old(schedule)@, final(schedule)@),
        within_limits(old(schedule)@, views(old(students)@), max_students, prohibited@) ==> within_limits(final(schedule)@, views(final(students)@), max_students, prohibited@),
        same_students(views(old(students)@), views(final(students)@)),
        plan_ok(final(schedule)@, views(final(students)@)),
        holds_preferred(views(old(students)@)) ==> holds_preferred(views(final(students)@)),
        forall|x: int| 0 <= x < views(old(students)@).len() && !served(mode, views(old(students)@)[x].grade)
            ==> #[trigger] views(final(students)@)[x] == views(old(students)@)[x],
{
    let ghost m0 = schedule@;
    let ghost sv0 = views(students@);
    let mut t: u16 = 0;
    while t < n
        invariant
            t <= n,
            m0 == old(schedule)@,
            sv0 == views(old(students)@),
            sweeps(m0, sv0, t as int, mode, max_students, prohibited@) == (schedule@, views(students@)),
            same_sessions(m0, schedule@),
            within_limits(m0, sv0, max_students, prohibited@) ==> within_limits(schedule@, views(students@), max_students, prohibited@),
            same_students(sv0, views(students@)),
            plan_ok(schedule@, views(students@)),
            holdings_known(schedule@, views(students@)),
            holds_preferred(sv0) ==> holds_preferred(views(students@)),
            forall|x: int| 0 <= x < sv0.len() && !served(mode, sv0[x].grade) ==> #[trigger] views(students@)[x] == sv0[x],
        decreases n - t,
    {
        let ghost m1 = schedule@;
        let ghost sv1 = views(students@);
        sweep(schedule, students, mode, max_students, prohibited);
        proof {
            lemma_same_sessions(m0, m1);
            assert forall|x: int| 0 <= x < sv0.len() && !served(mode, sv0[x].grade) implies #[trigger] views(students@)[x] == sv0[x] by {
                assert(sv1[x] == sv0[x]);
            }
        }
        t = t + 1;
    }
}

/// The state after the preference passes: with seniority priority, passes
/// for upper classmen taking every preferred session that fits, then passes
/// for younger students taking one session each; without it, passes in which
/// everyone takes one session each. Each kind runs `NUM_PERIODS` times.
pub open spec fn preference_passes(
    m: Seq<SessionModel>,
    sv: Seq<StudentView>,
    max_students: i32,
    prohibited: Seq<&u16>,
    aggressive_seniority_priority: bool,
) -> (Seq<SessionModel>, Seq<StudentView>) {
    let n = crate::NUM_PERIODS as int;
    if aggressive_seniority_priority {
        let a = sweeps(m, sv, n, SweepMode::SeniorsFirst, max_students, prohibited);
        sweeps(a.0, a.1, n, SweepMode::Underclassmen, max_students, prohibited)
    } else {
        sweeps(m, sv, n, SweepMode::Everyone, max_students, prohibited)
    }
}

/// Places students into their preferred sessions (see `preference_passes`).
pub fn assign_preferences(
    schedule: &mut Schedule,
    students: &mut Vec<Student>,
    max_students: i32,
    prohibited: &[&u16],
    aggressive_seniority_priority: bool,
)
    requires
        plan_ok(old(schedule)@, views(old(students)@)),
        holdings_known(old(schedule)@, views(old(students)@)),
    ensures
        holdings_known(final(schedule)@, views(final(students)@)),
        ({
            let r = preference_passes(old(schedule)@, views(old(students)@), max_students, prohibited@, aggressive_seniority_priority);
            &&& final(schedule)@ == r.0
            &&& views(final(students)@) == r.1
        }),
        same_sessions(old(schedule)@, final(schedule)@),
        within_limits(old(schedule)@, views(old(students)@), max_students, prohibited@) ==> within_limits(final(schedule)@, views(final(students)@), max_students, prohibited@),
        same_students(views(old(students)@), views(final(students)@)),
        plan_ok(final(schedule)@, views(final(students)@)),
        holds_preferred(views(old(students)@)) ==> holds_preferred(views(final(students)@)),
{
    let ghost m0 = schedule@;
    let ghost sv0 = views(students@);
    if aggressive_seniority_priority {
        sweep_times(schedule, students, crate::NUM_PERIODS, SweepMode::SeniorsFirst, max_students, prohibited);
        let ghost m1 = schedule@;
        sweep_times(schedule, students, crate::NUM_PERIODS, SweepMode::Underclassmen, max_students, prohibited);
        proof {
            lemma_same_sessions(m0, m1);
        }
    } else {
        sweep_times(schedule, students, crate::NUM_PERIODS, SweepMode::Everyone, max_students, prohibited);
    }
}

} // verus!
