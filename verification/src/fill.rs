//! Filling the periods that the preference passes left open.
use vstd::prelude::*;
use crate::schedule::{Schedule, SessionModel, has_class, lemma_class_index};
use crate::student::{Student, StudentView, views};
use crate::seq_util::{contains_ref_u16, contains_u16};
use crate::UNASSIGNED_CLASSS;
use crate::plan::{join, set_class, same_sessions, same_students, lemma_same_sessions, lemma_join_same, lemma_set_class_same, add_to_roster, set_student_class, allowed, within_limits, lemma_limits_join, lemma_agree_join, lemma_listed_students, lemma_listed_join, plan_ok, lemma_plan_ok_kept, holdings_known, all_held, lemma_holdings_after_set, ScheduleError};

verus! {

/// Session `c` may fill a free period of the student: they do not hold it and
/// may take it.
pub open spec fn fill_eligible(st: StudentView, c: u16, prohibited: Seq<&u16>) -> bool {
    !st.classes.contains(c) && allowed(st.grade, c, prohibited)
}

/// Session `a` comes before session `b` when filling period `p`: a smaller
/// roster in that period, or the same size and a smaller id.
pub open spec fn fill_before(m: Seq<SessionModel>, p: int, a: int, b: int) -> bool {
    m[a].1[p].len() < m[b].1[p].len() || (m[a].1[p].len() == m[b].1[p].len() && m[a].0 < m[b].0)
}

/// The session among the first `n` that fills period `p` of the student: the
/// first in fill order among those the student may take.
pub open spec fn best_fill_upto(m: Seq<SessionModel>, st: StudentView, p: int, prohibited: Seq<&u16>, n: int) -> Option<int>
    decreases n,
{
    if n <= 0 {
        None
    } else {
        let b = best_fill_upto(m, st, p, prohibited, n - 1);
        if fill_eligible(st, m[n - 1].0, prohibited) && (b is None || fill_before(m, p, n - 1, b.unwrap())) {
            Some(n - 1)
        } else {
            b
        }
    }
}

/// A roster of `len` students can take one more while staying below the
/// maximum (negative: unlimited).
pub open spec fn room_for_fill(len: int, max_students: i32) -> bool {
    max_students < 0 || len + 1 < max_students
}

/// Fills period `p` of student `i` when it is open: the student joins the
/// session that comes first in fill order among those they may take, if it
/// has room to stay below the maximum.
pub open spec fn fill_step(
    plan: Result<(Seq<SessionModel>, Seq<StudentView>), ScheduleError>,
    i: int,
    p: int,
    max_students: i32,
    prohibited: Seq<&u16>,
) -> Result<(Seq<SessionModel>, Seq<StudentView>), ScheduleError> {
    match plan {
        Err(err) => Err(err),
        Ok((m, sv)) => if sv[i].classes[p] != UNASSIGNED_CLASSS {
            Ok((m, sv))
        } else {
            match best_fill_upto(m, sv[i], p, prohibited, m.len() as int) {
                None => Err(ScheduleError::NoOpenSession { student: i as usize, period: p as usize }),
                Some(e) => if room_for_fill(m[e].1[p].len() as int, max_students) {
                    Ok((join(m, e, p, sv[i].student_id), set_class(sv, i, p, m[e].0)))
                } else {
                    Err(ScheduleError::SessionFull { student: i as usize, period: p as usize, class_id: m[e].0 })
                },
            }
        },
    }
}

/// The first `q` periods of student `i` filled.
pub open spec fn fill_periods_upto(
    plan: Result<(Seq<SessionModel>, Seq<StudentView>), ScheduleError>,
    i: int,
    q: int,
    max_students: i32,
    prohibited: Seq<&u16>,
) -> Result<(Seq<SessionModel>, Seq<StudentView>), ScheduleError>
    decreases q,
{
    if q <= 0 {
        plan
    } else {
        fill_step(fill_periods_upto(plan, i, q - 1, max_students, prohibited), i, q - 1, max_students, prohibited)
    }
}

/// The open periods of the first `k` students filled, student by student.
pub open spec fn fill_upto(
    m: Seq<SessionModel>,
    sv: Seq<StudentView>,
    k: int,
    max_students: i32,
    prohibited: Seq<&u16>,
) -> Result<(Seq<SessionModel>, Seq<StudentView>), ScheduleError>
    decreases k,
{
    if k <= 0 {
        Ok((m, sv))
    } else {
        fill_periods_upto(fill_upto(m, sv, k - 1, max_students, prohibited), k - 1, crate::NUM_PERIODS as int, max_students, prohibited)
    }
}

/// The session that fills period `p` of the student (see `best_fill_upto`).
fn find_fill_session(schedule: &Schedule, st: &Student, p: usize, prohibited: &[&u16]) -> (r: Option<usize>)
    requires
        forall|e: int| 0 <= e < schedule@.len() ==> p < (#[trigger] schedule@[e]).1.len(),
    ensures
        match r {
            Some(e) => best_fill_upto(schedule@, st@, p as int, prohibited@, schedule@.len() as int) == Some(e as int)
                && e < schedule@.len(),
            None => best_fill_upto(schedule@, st@, p as int, prohibited@, schedule@.len() as int) is None,
        },
{
    let mut best: Option<usize> = None;
    let mut e: usize = 0;
    while e < schedule.entries.len()
        invariant
            e <= schedule.entries.len(),
            forall|x: int| 0 <= x < schedule@.len() ==> p < (#[trigger] schedule@[x]).1.len(),
            match best {
                Some(b) => best_fill_upto(schedule@, st@, p as int, prohibited@, e as int) == Some(b as int) && b < e,
                None => best_fill_upto(schedule@, st@, p as int, prohibited@, e as int) is None,
            },
        decreases schedule.entries.len() - e,
    {
        let c = schedule.entries[e].class_id;
        assert(schedule@[e as int] == schedule.entries@[e as int]@);
        let eligible = !contains_u16(&st.classes, c) && !(st.grade <= 8 && contains_ref_u16(prohibited, c));
        if eligible {
            let better = match best {
                None => true,
                Some(b) => {
                    assert(schedule@[b as int] == schedule.entries@[b as int]@);
                    let le = schedule.entries[e].periods[p].len();
                    let lb = schedule.entries[b].periods[p].len();
                    le < lb || (le == lb && c < schedule.entries[b].class_id)
                },
            };
            if better {
                best = Some(e);
            }
        }
        e = e + 1;
    }
    best
}

/// Fills the open period `p` of student `i` (see `fill_step`).
fn fill_period(
    schedule: &mut Schedule,
    students: &mut Vec<Student>,
    i: usize,
    p: usize,
    max_students: i32,
    prohibited: &[&u16],
) -> (r: Result<(), ScheduleError>)
    requires
        i < old(students)@.len(),
        p < crate::NUM_PERIODS,
        plan_ok(old(schedule)@, views(old(students)@)),
        holdings_known(old(schedule)@, views(old(students)@)),
    ensures
        holdings_known(final(schedule)@, views(final(students)@)),
        r is Ok ==> views(final(students)@)[i as int].classes[p as int] != UNASSIGNED_CLASSS,
        forall|x: int, q: int| 0 <= x < views(old(students)@).len() && 0 <= q < views(old(students)@)[x].classes.len()
            && (x != i || q != p) ==> #[trigger] views(final(students)@)[x].classes[q] == views(old(students)@)[x].classes[q],
        match r {
            Ok(()) => fill_step(Ok((old(schedule)@, views(old(students)@))), i as int, p as int, max_students, prohibited@)
                == Ok::<(Seq<SessionModel>, Seq<StudentView>), ScheduleError>((final(schedule)@, views(final(students)@))),
            Err(err) => fill_step(Ok((old(schedule)@, views(old(students)@))), i as int, p as int, max_students, prohibited@)
                == Err::<(Seq<SessionModel>, Seq<StudentView>), ScheduleError>(err),
        },
        same_sessions(old(schedule)@, final(schedule)@),
        within_limits(old(schedule)@, views(old(students)@), max_students, prohibited@) ==> within_limits(final(schedule)@, views(final(students)@), max_students, prohibited@),
        same_students(views(old(students)@), views(final(students)@)),
        plan_ok(final(schedule)@, views(final(students)@)),
{
    let ghost m0 = schedule@;
    let ghost sv0 = views(students@);
    assert(sv0[i as int] == students@[i as int]@);
    if students[i].classes[p] != UNASSIGNED_CLASSS {
        return Ok(());
    }
    match find_fill_session(schedule, &students[i], p, prohibited) {
        None => Err(ScheduleError::NoOpenSession { student: i, period: p }),
        Some(e) => {
            assert(schedule@[e as int] == schedule.entries@[e as int]@);
            let len = schedule.entries[e].periods[p].len();
            let room = max_students < 0 || (len < usize::MAX && len + 1 < (max_students as usize));
            let c = schedule.entries[e].class_id;
            if room {
                let sid = students[i].student_id;
                add_to_roster(schedule, e, p, sid);
                set_student_class(students, i, p, c);
                proof {
                    lemma_join_same(m0, e as int, p as int, sid);
                    lemma_set_class_same(sv0, i as int, p as int, c);
                    lemma_listed_join(m0, sv0, e as int, p as int, i as int);
                    lemma_fill_choice(m0, sv0[i as int], p as int, prohibited@, m0.len() as int);
                    lemma_agree_join(m0, sv0, e as int, p as int, i as int);
                    if within_limits(m0, sv0, max_students, prohibited@) {
                        lemma_limits_join(m0, sv0, e as int, p as int, i as int, max_students, prohibited@);
                    }
                    lemma_listed_students(schedule@, sv0, views(students@));
                    lemma_plan_ok_kept(m0, sv0, schedule@, views(students@));
                    lemma_fill_choice(m0, sv0[i as int], p as int, prohibited@, m0.len() as int);
                    assert(sv0[i as int].classes[p as int] == UNASSIGNED_CLASSS);
                    assert(sv0[i as int].classes.contains(UNASSIGNED_CLASSS));
                    lemma_class_index(m0, e as int);
                    lemma_holdings_after_set(m0, sv0, i as int, p as int, c, schedule@);
                }
                Ok(())
            } else {
                Err(ScheduleError::SessionFull { student: i, period: p, class_id: c })
            }
        },
    }
}

/// Fills every open period, student by student and period by period: the
/// student joins the session with the smallest roster in that period (ties:
/// smallest id) among those they may take, if it stays below the maximum.
pub fn fill_open_periods(
    schedule: &mut Schedule,
    students: &mut Vec<Student>,
    max_students: i32,
    prohibited: &[&u16],
) -> (r: Result<(), ScheduleError>)
    requires
        plan_ok(old(schedule)@, views(old(students)@)),
        holdings_known(old(schedule)@, views(old(students)@)),
    ensures
        holdings_known(final(schedule)@, views(final(students)@)),
        r is Ok ==> all_held(final(schedule)@, views(final(students)@)),
        match r {
            Ok(()) => fill_upto(old(schedule)@, views(old(students)@), views(old(students)@).len() as int, max_students, prohibited@)
                == Ok::<(Seq<SessionModel>, Seq<StudentView>), ScheduleError>((final(schedule)@, views(final(students)@))),
            Err(err) => fill_upto(old(schedule)@, views(old(students)@), views(old(students)@).len() as int, max_students, prohibited@)
                == Err::<(Seq<SessionModel>, Seq<StudentView>), ScheduleError>(err),
        },
        same_sessions(old(schedule)@, final(schedule)@),
        within_limits(old(schedule)@, views(old(students)@), max_students, prohibited@) ==> within_limits(final(schedule)@, views(final(students)@), max_students, prohibited@),
        same_students(views(old(students)@), views(final(students)@)),
        plan_ok(final(schedule)@, views(final(students)@)),
{
    let ghost m0 = schedule@;
    let ghost sv0 = views(students@);
    let n = students.len();
    let mut k: usize = 0;
    while k < n
        invariant
            k <= n,
            n == students@.len(),
            n == sv0.len(),
            m0 == old(schedule)@,
            sv0 == views(old(students)@),
            fill_upto(m0, sv0, k as int, max_students, prohibited@)
                == Ok::<(Seq<SessionModel>, Seq<StudentView>), ScheduleError>((schedule@, views(students@))),
            same_sessions(m0, schedule@),
            within_limits(m0, sv0, max_students, prohibited@) ==> within_limits(schedule@, views(students@), max_students, prohibited@),
            same_students(sv0, views(students@)),
            plan_ok(schedule@, views(students@)),
            holdings_known(schedule@, views(students@)),
            forall|x: int, q: int| 0 <= x < k && 0 <= q < crate::NUM_PERIODS ==>
                #[trigger] views(students@)[x].classes[q] != UNASSIGNED_CLASSS,
        decreases n - k,
    {
        let mut p: usize = 0;
        assert(forall|x: int, q: int| 0 <= x < n && 0 <= q < crate::NUM_PERIODS && (x < k || (x == k && q < p)) ==>
            #[trigger] views(students@)[x].classes[q] != UNASSIGNED_CLASSS);
        while p < crate::NUM_PERIODS as usize
            invariant
                p <= crate::NUM_PERIODS,
                k < n,
                n == students@.len(),
                n == sv0.len(),
                m0 == old(schedule)@,
                sv0 == views(old(students)@),
                fill_periods_upto(fill_upto(m0, sv0, k as int, max_students, prohibited@), k as int, p as int, max_students, prohibited@)
                    == Ok::<(Seq<SessionModel>, Seq<StudentView>), ScheduleError>((schedule@, views(students@))),
                same_sessions(m0, schedule@),
                within_limits(m0, sv0, max_students, prohibited@) ==> within_limits(schedule@, views(students@), max_students, prohibited@),
                same_students(sv0, views(students@)),
                plan_ok(schedule@, views(students@)),
                holdings_known(schedule@, views(students@)),
                forall|x: int, q: int| 0 <= x < n && 0 <= q < crate::NUM_PERIODS && (x < k || (x == k && q < p)) ==>
                    #[trigger] views(students@)[x].classes[q] != UNASSIGNED_CLASSS,
            decreases crate::NUM_PERIODS as usize - p,
        {
            let ghost m1 = schedule@;
            let ghost sv1 = views(students@);
            let res = fill_period(schedule, students, k, p, max_students, prohibited);
            proof {
                lemma_same_sessions(m0, m1);
                if res is Ok {
                    assert forall|x: int, q: int| 0 <= x < n && 0 <= q < crate::NUM_PERIODS && (x < k || (x == k && q < p + 1)) implies
                        #[trigger] views(students@)[x].classes[q] != UNASSIGNED_CLASSS by {
                        if x != k || q != p {
                            assert(views(students@)[x].classes[q] == sv1[x].classes[q]);
                        }
                    }
                }
            }
            match res {
                Ok(()) => {},
                Err(err) => {
                    proof {
                        lemma_fill_error_sticks(m0, sv0, k as int, p + 1, n as int, max_students, prohibited@, err);
                    }
                    return Err(err);
                },
            }
            p = p + 1;
        }
        k = k + 1;
    }
    proof {
        assert forall|i: int, p: int| 0 <= i < views(students@).len() && 0 <= p < crate::NUM_PERIODS implies
            has_class(schedule@, #[trigger] views(students@)[i].classes[p]) by {
            assert(views(students@)[i].classes[p] != UNASSIGNED_CLASSS);
        }
    }
    Ok(())
}

/// The session chosen to fill period `p` is one the student may take, and no
/// other such session comes before it: none has a smaller roster in that
/// period, or the same size and a smaller id. When none is chosen, the
/// student may take none of them.
pub proof fn lemma_fill_choice(m: Seq<SessionModel>, st: StudentView, p: int, prohibited: Seq<&u16>, n: int)
    ensures
        match best_fill_upto(m, st, p, prohibited, n) {
            Some(e) => 0 <= e < n && fill_eligible(st, m[e].0, prohibited)
                && forall|f: int| 0 <= f < n && fill_eligible(st, #[trigger] m[f].0, prohibited) ==> !fill_before(m, p, f, e),
            None => forall|f: int| 0 <= f < n ==> !fill_eligible(st, #[trigger] m[f].0, prohibited),
        },
    decreases n,
{
    if n > 0 {
        lemma_fill_choice(m, st, p, prohibited, n - 1);
    }
}

proof fn lemma_fill_periods_error(i: int, q: int, max_students: i32, prohibited: Seq<&u16>, err: ScheduleError)
    requires
        q >= 0,
    ensures
        fill_periods_upto(Err(err), i, q, max_students, prohibited) == Err::<(Seq<SessionModel>, Seq<StudentView>), ScheduleError>(err),
    decreases q,
{
    if q > 0 {
        lemma_fill_periods_error(i, q - 1, max_students, prohibited, err);
    }
}

/// Once filling fails, the failure is the outcome.
proof fn lemma_fill_error_sticks(
    m: Seq<SessionModel>,
    sv: Seq<StudentView>,
    k: int,
    q: int,
    n: int,
    max_students: i32,
    prohibited: Seq<&u16>,
    err: ScheduleError,
)
    requires
        0 <= k < n,
        0 <= q <= crate::NUM_PERIODS,
        fill_periods_upto(fill_upto(m, sv, k, max_students, prohibited), k, q, max_students, prohibited)
            == Err::<(Seq<SessionModel>, Seq<StudentView>), ScheduleError>(err),
    ensures
        fill_upto(m, sv, n, max_students, prohibited) == Err::<(Seq<SessionModel>, Seq<StudentView>), ScheduleError>(err),
    decreases n - k, crate::NUM_PERIODS - q,
{
    if q < crate::NUM_PERIODS {
        lemma_fill_error_sticks(m, sv, k, q + 1, n, max_students, prohibited, err);
    } else if k + 1 < n {
        lemma_fill_periods_error(k + 1, crate::NUM_PERIODS as int, max_students, prohibited, err);
        lemma_fill_error_sticks(m, sv, k + 1, crate::NUM_PERIODS as int, n, max_students, prohibited, err);
    }
}

} // verus!
